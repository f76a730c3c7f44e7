//! Anonymizing the authorship of a commit history.
//!
//! Every commit that the local branches of a repository reach is replaced by
//! a commit with the same tree, the same message and the same times, whose
//! author and committer are the anonymous identity, and whose parents are
//! the replacements of its parents. Then every branch is moved to the
//! replacement of its tip.
//!
//! The crate holds the decisions of such a rewrite and never touches a
//! repository itself. Its caller reads the branches, fetches each commit that
//! a [`discovery::Discovery`] asks for, creates each commit that a
//! [`rewrite::Rewriter`] asks for and reports the new identifier back, and at
//! the end carries out the changes that [`rewrite::Rewritten::branch_updates`]
//! lists. Nothing but those changes moves a branch, so a run that fails
//! before them leaves the branches where they were.
//!
//! A commit is rebuilt only when each of its parents has its replacement.
//! A commit that is anonymous already, and whose parents are all their own
//! replacements, is kept as its own replacement: nothing is created for it,
//! and its descendants are rebuilt on top of it. So a history that is
//! anonymous throughout is left as it is.
//!
//! - [`object`]: identifiers, times, signatures, commits, branches
//! - [`store`]: the records of the discovered commits
//! - [`graph`]: what is said of a history as a whole
//! - [`discovery`]: finding the commits that the branches reach
//! - [`rewrite`]: rebuilding them, parents first
//! - [`branches`]: moving the branches
//! - [`laws`]: what holds of every rebuilt history
pub mod object;
pub mod store;
pub mod graph;
pub mod discovery;
pub mod rewrite;
pub mod branches;
pub mod laws;
