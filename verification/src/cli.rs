//! Command-line options of the hot-path benchmark.
use vstd::prelude::*;

use crate::text::{parse_usize, parse_usize_spec, str_eq};

verus! {

/// The value of option `name` among `args`: the argument after its first
/// occurrence read as a `usize`, or `default` when the option is absent, has no
/// argument after it, or that argument is not a number.
pub open spec fn arg_value_spec(args: Seq<Seq<char>>, name: Seq<char>, default: usize) -> usize
    decreases args.len(),
{
    if args.len() == 0 {
        default
    } else if args[0] == name {
        if args.len() >= 2 {
            match parse_usize_spec(args[1]) {
                Some(v) => v,
                None => default,
            }
        } else {
            default
        }
    } else {
        arg_value_spec(args.drop_first(), name, default)
    }
}

/// The characters of each argument.
pub open spec fn arg_views(args: Seq<String>) -> Seq<Seq<char>> {
    Seq::new(args.len(), |i: int| args[i]@)
}

/// The value of option `name` among the arguments (program name excluded).
pub fn arg_value(args: &Vec<String>, name: &str, default: usize) -> (res: usize)
    ensures
        res == arg_value_spec(arg_views(args@), name@, default),
{
    let ghost all = arg_views(args@);
    let mut i: usize = 0;
    assert(all.subrange(0, all.len() as int) =~= all);
    while i < args.len()
        invariant
            i <= args.len() == all.len(),
            all == arg_views(args@),
            arg_value_spec(all, name@, default) == arg_value_spec(
                all.subrange(i as int, all.len() as int),
                name@,
                default,
            ),
        decreases args.len() - i,
    {
        let ghost rest = all.subrange(i as int, all.len() as int);
        assert(rest[0] == args@[i as int]@);
        if str_eq(args[i].as_str(), name) {
            if i + 1 < args.len() {
                assert(rest[1] == args@[i + 1]@);
                return match parse_usize(args[i + 1].as_str()) {
                    Some(v) => v,
                    None => default,
                };
            }
            return default;
        }
        assert(rest.drop_first() =~= all.subrange(i + 1, all.len() as int));
        i = i + 1;
    }
    default
}

} // verus!
