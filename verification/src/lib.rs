//! Keeps a linear train of dependent code-review requests in sync with the
//! current shape of its branch stack.
//!
//! The library is the reconciliation core: the annotation codec that parses
//! and rewrites the train-of-record block embedded in a request description,
//! the resolver that turns graph answers into train membership and a base
//! target, the reconciler that diffs old against new membership and decides
//! what to rewrite, and the cleanup selector. All process invocation, host
//! queries and interactive confirmation live outside, in the binary that
//! drives this library.

pub mod bytes;
pub mod cleanup;
pub mod codec;
pub mod reconcile;
pub mod requests;
pub mod sync;
