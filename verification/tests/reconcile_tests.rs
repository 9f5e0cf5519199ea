use pr_train::cleanup::{
    diverging_revset, leftover_revset, parse_git_branchless_branches, select_prune_root,
    stack_revset,
};
use pr_train::codec::{extract, parse_ids, upsert};
use pr_train::reconcile::{reconcile, Decision};
use pr_train::requests::{is_merged, member_ids, resolve_base, Request};
use pr_train::sync::{branch_from_head, is_synced, latest_commit_oid};

fn request(id: u64, head: &str, base: &str, title: &str, state: &str, description: &[u8]) -> Request {
    Request {
        id,
        head: head.as_bytes().to_vec(),
        base: base.as_bytes().to_vec(),
        title: title.as_bytes().to_vec(),
        state: state.as_bytes().to_vec(),
        description: description.to_vec(),
    }
}

#[test]
fn merged_predicate_accepts_merged_state() {
    let r = request(1, "a", "main", "feature", "MERGED", b"");
    assert!(is_merged(&r));
}

#[test]
fn merged_predicate_accepts_closed_with_merged_title() {
    let r = request(2, "b", "main", "[merged] cleanup old flag", "CLOSED", b"");
    assert!(is_merged(&r));
}

#[test]
fn merged_predicate_rejects_plain_closed_and_open() {
    assert!(!is_merged(&request(3, "c", "main", "cleanup old flag", "CLOSED", b"")));
    assert!(!is_merged(&request(4, "d", "main", "[merged] but still open", "OPEN", b"")));
    assert!(!is_merged(&request(5, "e", "main", "no prefix [merged] ", "CLOSED", b"")));
}

#[test]
fn member_ids_follow_commit_order_and_skip_unknown_branches() {
    let snap = vec![
        request(2, "beta", "main", "b", "OPEN", b""),
        request(4, "delta", "main", "d", "OPEN", b""),
    ];
    let branches: Vec<Vec<u8>> = vec![
        b"beta".to_vec(),
        b"gamma".to_vec(),
        b"delta".to_vec(),
    ];
    assert_eq!(member_ids(&branches, &snap), vec![2, 4]);
}

#[test]
fn resolve_base_takes_most_distant_ancestor_or_trunk() {
    let ancestors: Vec<Vec<u8>> = vec![b"near".to_vec(), b"far".to_vec()];
    assert_eq!(resolve_base(&ancestors, &b"main".to_vec()), b"far".to_vec());
    assert_eq!(resolve_base(&Vec::new(), &b"main".to_vec()), b"main".to_vec());
}

#[test]
fn reconcile_carries_merged_dropped_ids_and_drops_the_rest() {
    // The old annotation holds #1, #2, #3; the membership is now [2, 4];
    // #3 is independently confirmed merged, #1 is not.
    let desc = upsert(&b"My change.".to_vec(), &b"\n### Train\n- #1\n- #2\n- #3\n".to_vec());
    let req = request(2, "beta", "main", "b", "OPEN", &desc);
    let snap = vec![
        request(1, "alpha", "main", "a", "CLOSED", b""),
        request(2, "beta", "main", "b", "OPEN", &desc),
        request(3, "gamma", "main", "[merged] c", "CLOSED", b""),
        request(4, "delta", "main", "d", "OPEN", b""),
    ];
    let members: Vec<u64> = vec![2, 4];
    let decision = reconcile(&req, &members, &snap, &b"main".to_vec());
    match decision {
        Decision::Update { description, base } => {
            assert_eq!(base, b"main".to_vec());
            let body = extract(&description).expect("a region must be present");
            assert_eq!(parse_ids(&body), vec![3, 2, 4]);
            let pin: &[u8] = &[32, 240, 159, 147, 140];
            let pinned: Vec<usize> = (0..body.len() - pin.len() + 1)
                .filter(|&i| &body[i..i + pin.len()] == pin)
                .collect();
            assert_eq!(pinned.len(), 1);
            assert_eq!(&body[pinned[0] - 2..pinned[0]], b"#2");
        }
        Decision::Skip => panic!("the stale annotation must be rewritten"),
    }
}

#[test]
fn reconcile_skips_on_second_run_with_no_changes() {
    let desc = upsert(&b"My change.".to_vec(), &b"\n### Train\n- #1\n- #2\n- #3\n".to_vec());
    let req = request(2, "beta", "main", "b", "OPEN", &desc);
    let snap = vec![
        request(1, "alpha", "main", "a", "CLOSED", b""),
        request(3, "gamma", "main", "[merged] c", "CLOSED", b""),
        request(4, "delta", "main", "d", "OPEN", b""),
    ];
    let members: Vec<u64> = vec![2, 4];
    let first = reconcile(&req, &members, &snap, &b"main".to_vec());
    let (new_desc, new_base) = match first {
        Decision::Update { description, base } => (description, base),
        Decision::Skip => panic!("the first run must rewrite"),
    };
    let req2 = request(2, "beta", "main", "b", "OPEN", &new_desc);
    assert_eq!(new_base, b"main".to_vec());
    let second = reconcile(&req2, &members, &snap, &b"main".to_vec());
    assert!(matches!(second, Decision::Skip));
}

#[test]
fn reconcile_appends_fresh_region_when_none_exists() {
    let req = request(7, "solo", "main", "s", "OPEN", b"Just text.");
    let snap = vec![request(7, "solo", "main", "s", "OPEN", b"Just text.")];
    let members: Vec<u64> = vec![7];
    match reconcile(&req, &members, &snap, &b"main".to_vec()) {
        Decision::Update { description, .. } => {
            assert!(description.starts_with(b"Just text.\n\n<!-- train:begin -->"));
            let body = extract(&description).expect("a region must be present");
            assert_eq!(parse_ids(&body), vec![7]);
        }
        Decision::Skip => panic!("a description without a region must be rewritten"),
    }
}

#[test]
fn reconcile_skips_when_base_and_description_already_match() {
    let req0 = request(7, "solo", "main", "s", "OPEN", b"Just text.");
    let snap = vec![request(7, "solo", "main", "s", "OPEN", b"Just text.")];
    let members: Vec<u64> = vec![7];
    let updated = match reconcile(&req0, &members, &snap, &b"main".to_vec()) {
        Decision::Update { description, .. } => description,
        Decision::Skip => panic!("the first run must rewrite"),
    };
    // Same membership, same base: nothing left to do.
    let req1 = request(7, "solo", "main", "s", "OPEN", &updated);
    assert!(matches!(
        reconcile(&req1, &members, &snap, &b"main".to_vec()),
        Decision::Skip
    ));
    // A changed base target alone forces an update.
    match reconcile(&req1, &members, &snap, &b"develop".to_vec()) {
        Decision::Update { description, base } => {
            assert_eq!(description, updated);
            assert_eq!(base, b"develop".to_vec());
        }
        Decision::Skip => panic!("a changed base target must be written"),
    }
}

#[test]
fn branch_listing_splits_lines_and_drops_empties() {
    let out = parse_git_branchless_branches(&b"alpha\nbeta\n\ngamma\n".to_vec());
    assert_eq!(
        out,
        vec![b"alpha".to_vec(), b"beta".to_vec(), b"gamma".to_vec()]
    );
    assert_eq!(parse_git_branchless_branches(&b"".to_vec()), Vec::<Vec<u8>>::new());
    assert_eq!(
        parse_git_branchless_branches(&b"solo".to_vec()),
        vec![b"solo".to_vec()]
    );
}

#[test]
fn revset_queries_are_built_verbatim() {
    assert_eq!(leftover_revset(), b"draft() - descendants(main())".to_vec());
    assert_eq!(
        diverging_revset(&b"feature".to_vec()),
        b"ancestors(feature) - ancestors(main())".to_vec()
    );
    assert_eq!(stack_revset(&b"feature".to_vec()), b"stack(feature)".to_vec());
}

#[test]
fn prune_root_is_the_most_ancestral_diverging_commit() {
    let diverging: Vec<Vec<u8>> = vec![b"c1".to_vec(), b"c2".to_vec()];
    assert_eq!(select_prune_root(&diverging), Some(b"c1".to_vec()));
    assert_eq!(select_prune_root(&Vec::new()), None);
}

#[test]
fn wait_decisions_follow_the_host_state() {
    assert_eq!(branch_from_head(&b"HEAD".to_vec()), None);
    assert_eq!(branch_from_head(&b"feature".to_vec()), Some(b"feature".to_vec()));
    assert_eq!(
        latest_commit_oid(&vec![b"c1".to_vec(), b"c2".to_vec()]),
        Some(b"c2".to_vec())
    );
    assert_eq!(latest_commit_oid(&Vec::new()), None);
    assert!(is_synced(&b"c2".to_vec(), &Some(b"c2".to_vec())));
    assert!(!is_synced(&b"c1".to_vec(), &Some(b"c2".to_vec())));
    assert!(!is_synced(&b"c1".to_vec(), &None));
}
