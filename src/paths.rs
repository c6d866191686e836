//! Path normalization: the one place where a platform's path-length limit is
//! lifted before a path reaches the filesystem.
use vstd::prelude::*;
use vstd::string::*;

verus! {

/// How a platform wants absolute paths handed to its filesystem calls.
#[derive(Clone, Copy, Debug, PartialEq, Eq, Structural)]
pub enum PathStyle {
    /// Paths are used as they are: the platform has no length limit to lift.
    Plain,
    /// Paths carry the `\\?\` prefix, which lifts the 260-character limit.
    Extended,
}

/// The prefix that marks an extended-length path: `\\?\`.
pub open spec fn extended_prefix() -> Seq<char> {
    seq!['\\', '\\', '?', '\\']
}

/// What `long_path` makes of a path under a given style.
pub open spec fn normalized_path(path: Seq<char>, style: PathStyle) -> Seq<char> {
    match style {
        PathStyle::Plain => path,
        PathStyle::Extended => extended_prefix() + path,
    }
}

/// Rewrites `path` so that the platform's filesystem calls accept it whatever
/// its length.
pub fn long_path(path: &str, style: PathStyle) -> (r: String)
    ensures
        r@ == normalized_path(path@, style),
{
    match style {
        PathStyle::Plain => String::from_str(path),
        PathStyle::Extended => {
            let mut r = String::from_str("\\\\?\\");
            proof {
                reveal_strlit("\\\\?\\");
            }
            assert(r@ =~= extended_prefix());
            r.append(path);
            r
        },
    }
}

} // verus!
