//! A directory-scoped task store: named script artifacts are kept in an
//! ordered key-value store under keys derived from canonical absolute paths,
//! and looked up by walking a directory chain upward with inheritance rules.
pub mod codec;
pub mod error;
pub mod path;
pub mod store;
pub mod task;

use vstd::prelude::*;

verus! {

/// Whether `s` is absolute: the caller-facing check behind `path::abs_path`.
pub fn is_absolute(s: &str) -> (r: bool)
    ensures
        r == path::abs_path(s@),
{
    s.unicode_len() >= 1 && s.get_char(0) == '/'
}

} // verus!
