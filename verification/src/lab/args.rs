//! Arguments of a program.

use vstd::prelude::*;

verus! {

/// Where a flag first stands among the arguments from the given one on.
pub open spec fn flag_at(args: Seq<Seq<char>>, flag: Seq<char>, from: int) -> Option<int>
    decreases args.len() - from,
{
    if from < 0 || from >= args.len() {
        None
    } else if args[from] == flag {
        Some(from)
    } else {
        flag_at(args, flag, from + 1)
    }
}

/// What several texts say.
pub open spec fn words(args: Seq<String>) -> Seq<Seq<char>> {
    args.map_values(|arg: String| arg@)
}

/// The value of a flag: the argument behind it, or the default where the flag
/// is not there. It is an error where neither is there.
pub open spec fn flag_value(
    args: Seq<Seq<char>>,
    flag: Seq<char>,
    default: Option<Seq<char>>,
) -> Result<Seq<char>, Seq<char>> {
    match flag_at(args, flag, 0) {
        Some(i) => if i + 1 < args.len() {
            Ok(args[i + 1])
        } else {
            Err("missing value for "@ + flag)
        },
        None => match default {
            Some(value) => Ok(value),
            None => Err("missing required argument "@ + flag),
        },
    }
}

/// Whether two texts are the same.
fn same_text(a: &str, b: &str) -> (same: bool)
    ensures
        same == (a@ == b@),
{
    let x = a.as_bytes();
    let y = b.as_bytes();
    proof {
        vstd::utf8::encode_utf8_decode_utf8(a@);
        vstd::utf8::encode_utf8_decode_utf8(b@);
    }
    if x.len() != y.len() {
        return false;
    }
    let mut i: usize = 0;
    while i < x.len()
        invariant
            i <= x@.len(),
            x@.len() == y@.len(),
            x@ == vstd::utf8::encode_utf8(a@),
            y@ == vstd::utf8::encode_utf8(b@),
            forall|k: int| 0 <= k < i ==> x@[k] == y@[k],
        decreases x@.len() - i,
    {
        if x[i] != y[i] {
            return false;
        }
        i = i + 1;
    }
    assert(x@ =~= y@);
    true
}

/// The value of a flag.
pub fn parse_arg(args: &Vec<String>, flag: &str, default: Option<String>) -> (value: Result<
    String,
    String,
>)
    ensures
        ({
            let given = match default {
                Some(d) => Some(d@),
                None => None,
            };
            match value {
                Ok(v) => flag_value(words(args@), flag@, given) == Ok::<Seq<char>, Seq<char>>(v@),
                Err(error) => flag_value(words(args@), flag@, given) == Err::<
                    Seq<char>,
                    Seq<char>,
                >(error@),
            }
        }),
{
    let ghost all = words(args@);
    let mut i: usize = 0;
    while i < args.len()
        invariant
            i <= args@.len(),
            all == words(args@),
            flag_at(all, flag@, 0) == flag_at(all, flag@, i as int),
        decreases args@.len() - i,
    {
        assert(all[i as int] == args@[i as int]@);
        if same_text(args[i].as_str(), flag) {
            if i + 1 < args.len() {
                assert(all[i + 1] == args@[i + 1]@);
                return Ok(args[i + 1].clone());
            }
            let mut error = "missing value for ".to_owned();
            error.append(flag);
            return Err(error);
        }
        i = i + 1;
    }
    match default {
        Some(value) => Ok(value),
        None => {
            let mut error = "missing required argument ".to_owned();
            error.append(flag);
            Err(error)
        },
    }
}

} // verus!
