//! The rules of the build runner: which files hold which crate's compiled library, and the
//! name of the object file a crate is built into.

use vstd::prelude::*;
use vstd::string::{StrSliceExecFns, StringExecFns};

use crate::loader::str_eq;
use crate::loader_registry::{has_suffix, str_ends_with};
use crate::vfat::{has_prefix, str_starts_with};

verus! {

/// A crate's name with `_` for each `-`.
pub open spec fn object_name_of(crate_name: Seq<char>) -> Seq<char> {
    crate_name.map_values(|c: char| if c == '-' { '_' } else { c })
}

/// The name of the object file a crate is built into: its name with `_` for `-`.
pub fn crate_name_to_object_name(crate_name: &str) -> (r: String)
    ensures
        r@ == object_name_of(crate_name@),
{
    let n = crate_name.unicode_len();
    let mut out = String::new();
    let mut i: usize = 0;
    proof {
        reveal_strlit("_");
    }
    while i < n
        invariant
            n == crate_name@.len(),
            i <= n,
            out@ == object_name_of(crate_name@.take(i as int)),
        decreases n - i,
    {
        let c = crate_name.get_char(i);
        if c == '-' {
            out.append("_");
        } else {
            out.append(crate_name.substring_char(i, i + 1));
        }
        proof {
            reveal_strlit("_");
            assert(crate_name@.take(i + 1) =~= crate_name@.take(i as int).push(c));
            assert(object_name_of(crate_name@.take(i + 1)) =~= object_name_of(
                crate_name@.take(i as int),
            ).push(if c == '-' { '_' } else { c }));
            assert(crate_name@.subrange(i as int, i + 1) =~= seq![c]);
        }
        i = i + 1;
    }
    proof {
        assert(crate_name@.take(n as int) =~= crate_name@);
    }
    out
}

/// Whether a file is the compiled library of the crate `name`: `lib`, the name, `-`, then
/// anything ending in `.rlib`.
pub open spec fn is_rlib_of(file_name: Seq<char>, name: Seq<char>) -> bool {
    has_prefix(file_name, "lib"@ + name + "-"@) && has_suffix(file_name, ".rlib"@)
}

/// Whether `file_name` is the compiled library of the crate `name`.
pub fn rlib_matches(file_name: &str, name: &str) -> (r: bool)
    ensures
        r == is_rlib_of(file_name@, name@),
{
    let mut prefix = String::new();
    prefix.append("lib");
    prefix.append(name);
    prefix.append("-");
    str_starts_with(file_name, prefix.as_str()) && str_ends_with(file_name, ".rlib")
}

/// Whether a directory is the workspace: its name is `rhubarb`.
pub fn is_workspace_dir_name(dir_name: &str) -> (r: bool)
    ensures
        r == (dir_name@ == "rhubarb"@),
{
    str_eq(dir_name, "rhubarb")
}

} // verus!
