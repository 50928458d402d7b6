//! Reading flags and options from a command line.
use vstd::prelude::*;
use crate::text::str_equal;

verus! {

/// The first index of `args` that holds `name`, if any.
pub open spec fn first_index_of(args: Seq<String>, name: Seq<char>, from: int) -> Option<int>
    decreases args.len() - from,
{
    if from < 0 || from >= args.len() {
        None
    } else if args[from]@ == name {
        Some(from)
    } else {
        first_index_of(args, name, from + 1)
    }
}

/// Whether some argument is exactly `name`.
pub fn parse_flag(args: &[String], name: &str) -> (r: bool)
    ensures
        r == exists|i: int| 0 <= i < args@.len() && #[trigger] args@[i]@ == name@,
{
    let n: usize = args.len();
    let mut i: usize = 0;
    while i < n
        invariant
            n == args@.len(),
            i <= n,
            forall|j: int| 0 <= j < i ==> #[trigger] args@[j]@ != name@,
        decreases n - i,
    {
        if str_equal(args[i].as_str(), name) {
            return true;
        }
        i = i + 1;
    }
    false
}

/// The argument after the first one that is exactly `name`, if both exist.
pub fn parse_opt(args: &[String], name: &str) -> (r: Option<String>)
    ensures
        r == match first_index_of(args@, name@, 0) {
            Some(i) => if i + 1 < args@.len() {
                Some(args@[i + 1])
            } else {
                None
            },
            None => None,
        },
{
    let n: usize = args.len();
    let mut i: usize = 0;
    while i < n
        invariant
            n == args@.len(),
            i <= n,
            first_index_of(args@, name@, 0) == first_index_of(args@, name@, i as int),
        decreases n - i,
    {
        if str_equal(args[i].as_str(), name) {
            if i + 1 < n {
                return Some(args[i + 1].clone());
            } else {
                return None;
            }
        }
        i = i + 1;
    }
    None
}

} // verus!
