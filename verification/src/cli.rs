//! The harness binaries' argument reading: `--key value` pairs.

use vstd::prelude::*;

use crate::text::str_eq;

verus! {

/// The index of the first argument equal to `key`, if any.
pub open spec fn first_index(args: Seq<Seq<char>>, key: Seq<char>, i: int) -> Option<int>
    decreases args.len() - i,
{
    if i < 0 || i >= args.len() {
        None
    } else if args[i] == key {
        Some(i)
    } else {
        first_index(args, key, i + 1)
    }
}

/// The argument after the first `key`, if there is one.
pub open spec fn value_after(args: Seq<Seq<char>>, key: Seq<char>) -> Option<Seq<char>> {
    match first_index(args, key, 0) {
        Some(i) => if i + 1 < args.len() { Some(args[i + 1]) } else { None },
        None => None,
    }
}

/// The value given for `key`: the argument after its first occurrence.
pub fn parse(args: &[String], key: &str) -> (r: Option<String>)
    ensures
        match r {
            Some(v) => value_after(args@.map_values(|s: String| s@), key@) == Some(v@),
            None => value_after(args@.map_values(|s: String| s@), key@) is None,
        },
{
    let ghost a = args@.map_values(|s: String| s@);
    let mut i: usize = 0;
    while i < args.len()
        invariant
            i <= args@.len(),
            a == args@.map_values(|s: String| s@),
            first_index(a, key@, 0) == first_index(a, key@, i as int),
        decreases args@.len() - i,
    {
        assert(a[i as int] == args@[i as int]@);
        if str_eq(args[i].as_str(), key) {
            if i + 1 < args.len() {
                assert(a[i + 1] == args@[i + 1]@);
                return Some(args[i + 1].clone());
            }
            return None;
        }
        i = i + 1;
    }
    None
}

} // verus!
