//! Where unit files are found: the directories searched, in order, and the
//! file names that hold units.

use vstd::prelude::*;
use vstd::string::*;
use crate::text::{chars_of, range_eq};

verus! {

/// The unit directories, in search order: system defaults installed by
/// packages, then the administrator's overrides. A unit loaded from a later
/// directory replaces one of the same name from an earlier one.
pub open spec fn unit_dir_table() -> Seq<Seq<char>> {
    seq!["/usr/lib/rinit/units"@, "/etc/rinit/units"@]
}

pub fn unit_dirs() -> (r: Vec<String>)
    ensures
        r.deep_view() == unit_dir_table(),
{
    let mut v: Vec<String> = Vec::new();
    v.push(String::from_str("/usr/lib/rinit/units"));
    v.push(String::from_str("/etc/rinit/units"));
    proof {
        assert(v.deep_view() =~= unit_dir_table());
    }
    v
}

/// A file holds a unit when its extension, as `Path::extension` reads it
/// from the file name, is `toml`: the name ends in ".toml" after at least
/// one other character.
pub open spec fn is_unit_file_name(name: Seq<char>) -> bool {
    name.len() > 5 && name.skip(name.len() - 5) == ".toml"@
}

pub fn is_unit_file(file_name: &str) -> (r: bool)
    ensures
        r == is_unit_file_name(file_name@),
{
    let cs = chars_of(file_name);
    let n = cs.len();
    if n <= 5 {
        return false;
    }
    let r = range_eq(file_name, &cs, n - 5, n, ".toml");
    proof {
        assert(cs@.subrange(n - 5, n as int) =~= file_name@.skip(n - 5));
    }
    r
}

} // verus!
