use pr_train::codec::{extract, parse_ids, render_train, upsert, u64_to_dec};

const OPEN: &[u8] = b"<!-- train:begin -->";
const CLOSE: &[u8] = b"<!-- train:end -->";

#[test]
fn extract_missing_markers_is_none() {
    assert!(extract(&b"no region here".to_vec()).is_none());
    assert!(extract(&b"".to_vec()).is_none());
    let mut dangling = b"text ".to_vec();
    dangling.extend_from_slice(OPEN);
    dangling.extend_from_slice(b" but never closed");
    assert!(extract(&dangling).is_none());
}

#[test]
fn upsert_appends_after_blank_line() {
    let desc = b"My change.".to_vec();
    let body = b"\nbody\n".to_vec();
    let out = upsert(&desc, &body);
    let mut expected = b"My change.\n\n".to_vec();
    expected.extend_from_slice(OPEN);
    expected.extend_from_slice(b"\nbody\n");
    expected.extend_from_slice(CLOSE);
    assert_eq!(out, expected);
}

#[test]
fn upsert_twice_leaves_description_unchanged() {
    let desc = b"My change.".to_vec();
    let body = b"\nbody\n".to_vec();
    let once = upsert(&desc, &body);
    let twice = upsert(&once, &body);
    assert_eq!(once, twice);
}

#[test]
fn upsert_replaces_existing_region_in_place() {
    let mut desc = b"Intro\n\n".to_vec();
    desc.extend_from_slice(OPEN);
    desc.extend_from_slice(b"\nold body\n");
    desc.extend_from_slice(CLOSE);
    desc.extend_from_slice(b"\nOutro");
    let out = upsert(&desc, &b"\nnew body\n".to_vec());
    let mut expected = b"Intro\n\n".to_vec();
    expected.extend_from_slice(OPEN);
    expected.extend_from_slice(b"\nnew body\n");
    expected.extend_from_slice(CLOSE);
    expected.extend_from_slice(b"\nOutro");
    assert_eq!(out, expected);
}

#[test]
fn extract_recovers_upserted_body_exactly() {
    let descriptions: Vec<Vec<u8>> = vec![
        b"".to_vec(),
        b"plain text".to_vec(),
        b"text with # and #12 tokens".to_vec(),
    ];
    let body = b"\n### Train\n- #7\n".to_vec();
    for d in &descriptions {
        let out = upsert(d, &body);
        assert_eq!(extract(&out), Some(body.clone()));
    }
}

#[test]
fn parse_ids_reads_tokens_in_order_with_duplicates() {
    assert_eq!(parse_ids(&b"#1, #2 and #34; #2 again".to_vec()), vec![1, 2, 34, 2]);
    assert_eq!(parse_ids(&b"### Heading, no refs".to_vec()), Vec::<u64>::new());
    assert_eq!(parse_ids(&b"#7".to_vec()), vec![7]);
    assert_eq!(parse_ids(&b"##9 and #x then #05".to_vec()), vec![9, 5]);
    assert_eq!(parse_ids(&b"".to_vec()), Vec::<u64>::new());
}

#[test]
fn parse_ids_drops_runs_too_large_for_the_id_type() {
    assert_eq!(parse_ids(&b"#99999999999999999999999".to_vec()), Vec::<u64>::new());
    assert_eq!(
        parse_ids(&b"#18446744073709551615".to_vec()),
        vec![18446744073709551615u64]
    );
    assert_eq!(parse_ids(&b"#18446744073709551616".to_vec()), Vec::<u64>::new());
}

#[test]
fn decimal_rendering_is_exact() {
    assert_eq!(u64_to_dec(0), b"0".to_vec());
    assert_eq!(u64_to_dec(7), b"7".to_vec());
    assert_eq!(u64_to_dec(105), b"105".to_vec());
    assert_eq!(u64_to_dec(18446744073709551615), b"18446744073709551615".to_vec());
}

#[test]
fn rendered_train_parses_back_to_the_same_ids() {
    let ids: Vec<u64> = vec![3, 2, 4];
    let body = render_train(&ids, 2);
    assert_eq!(parse_ids(&body), ids);
}

#[test]
fn rendered_train_pins_exactly_the_own_entry() {
    let ids: Vec<u64> = vec![3, 2, 4];
    let body = render_train(&ids, 2);
    let pin: &[u8] = &[32, 240, 159, 147, 140];
    let text = body.clone();
    let pinned: Vec<usize> = (0..text.len().saturating_sub(pin.len() - 1))
        .filter(|&i| &text[i..i + pin.len()] == pin)
        .collect();
    assert_eq!(pinned.len(), 1);
    let mut expected = b"\n### Train\n- #3\n- #2".to_vec();
    expected.extend_from_slice(pin);
    expected.extend_from_slice(b"\n- #4\n");
    assert_eq!(body, expected);
}

#[test]
fn rendered_train_for_no_entries_is_just_the_heading() {
    let body = render_train(&Vec::new(), 1);
    assert_eq!(body, b"\n### Train\n".to_vec());
}

#[test]
fn upsert_rewrites_a_dangling_open_marker_to_the_end() {
    let mut desc = b"text ".to_vec();
    desc.extend_from_slice(OPEN);
    desc.extend_from_slice(b" but never closed");
    let out = upsert(&desc, &b"\nbody\n".to_vec());
    let mut expected = b"text ".to_vec();
    expected.extend_from_slice(OPEN);
    expected.extend_from_slice(b"\nbody\n");
    expected.extend_from_slice(CLOSE);
    assert_eq!(out, expected);
    assert_eq!(extract(&out), Some(b"\nbody\n".to_vec()));
}

#[test]
fn upsert_on_empty_description_appends_a_region() {
    let out = upsert(&b"".to_vec(), &b"\nbody\n".to_vec());
    let mut expected = b"\n\n".to_vec();
    expected.extend_from_slice(OPEN);
    expected.extend_from_slice(b"\nbody\n");
    expected.extend_from_slice(CLOSE);
    assert_eq!(out, expected);
}
