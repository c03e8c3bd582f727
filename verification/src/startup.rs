//! Where the program opens.

use crate::model::Location;
use crate::path::WinPath;
use crate::text::{begins_with, begins_with_chars, from_chars, str_eq, strings, sub_chars, to_chars};
use vstd::prelude::*;

verus! {

/// The path that command-line arguments ask for: the value of `--path`, given as the next
/// argument or behind an equals sign, or the first argument that is no flag. Other flags
/// are ignored.
pub open spec fn path_asked(args: Seq<Seq<char>>) -> Option<Seq<char>>
    decreases args.len(),
{
    if args.len() == 0 {
        None
    } else if begins_with(args[0], "--path="@) {
        Some(args[0].skip("--path="@.len() as int))
    } else if args[0] == "--path"@ {
        if args.len() > 1 {
            Some(args[1])
        } else {
            None
        }
    } else if args[0].len() > 0 && args[0][0] == '-' {
        path_asked(args.drop_first())
    } else {
        Some(args[0])
    }
}

/// The requested startup path.
pub fn requested_path(args: &[String]) -> (r: Option<String>)
    ensures
        match r {
            Some(s) => path_asked(strings(args@)) == Some(s@),
            None => path_asked(strings(args@)) is None,
        },
{
    let ghost all = strings(args@);
    proof {
        reveal_strlit("--path=");
        assert(all.skip(0) =~= all);
    }
    for i in 0..args.len()
        invariant
            all == strings(args@),
            path_asked(all) == path_asked(all.skip(i as int)),
            "--path="@.len() == 7,
    {
        let chars = to_chars(&args[i]);
        proof {
            assert(all.skip(i as int)[0] == args@[i as int]@);
            assert(all.skip(i as int).drop_first() =~= all.skip(i + 1));
        }
        if begins_with_chars(&chars, "--path=") {
            let value = sub_chars(&chars, 7, chars.len());
            assert(value@ =~= chars@.skip(7));
            return Some(from_chars(&value));
        }
        if str_eq(&args[i], "--path") {
            if i + 1 < args.len() {
                assert(all.skip(i as int)[1] == args@[i + 1]@);
                return Some(args[i + 1].clone());
            }
            return None;
        }
        if chars.len() == 0 || chars[0] != '-' {
            return Some(args[i].clone());
        }
    }
    assert(all.skip(args@.len() as int) =~= seq![]);
    None
}

/// The location to open: the requested folder if it is one, else "This PC".
pub fn start_location(requested: Option<WinPath>, is_dir: bool) -> (r: Location)
    ensures
        r == (match requested {
            Some(p) => if is_dir {
                Location::Path(p)
            } else {
                Location::ThisPc
            },
            None => Location::ThisPc,
        }),
{
    match requested {
        Some(p) => {
            if is_dir {
                Location::Path(p)
            } else {
                Location::ThisPc
            }
        },
        None => Location::ThisPc,
    }
}

/// Which argument counts: a flag other than `--path` is passed over; `--path` takes the next
/// argument, or what stands behind its equals sign; and an argument that is no flag is the path
/// itself. What comes after does not matter.
pub proof fn law_first_path_counts(arg: Seq<char>, rest: Seq<Seq<char>>, value: Seq<char>)
    ensures
        path_asked(seq![]) is None,
        arg.len() > 0 && arg[0] == '-' && !begins_with(arg, "--path"@) ==> path_asked(
            seq![arg] + rest,
        ) == path_asked(rest),
        arg.len() == 0 || arg[0] != '-' ==> path_asked(seq![arg] + rest) == Some(arg),
        path_asked(seq!["--path="@ + value] + rest) == Some(value),
        path_asked(seq!["--path"@, value] + rest) == Some(value),
        path_asked(seq!["--path"@]) is None,
{
    reveal_strlit("--path=");
    reveal_strlit("--path");
    let all = seq![arg] + rest;
    assert(all[0] == arg);
    assert(all.drop_first() =~= rest);
    if arg.len() > 0 && arg[0] == '-' && !begins_with(arg, "--path"@) {
        assert(!begins_with(arg, "--path="@)) by {
            if begins_with(arg, "--path="@) {
                assert(arg.take(6) =~= arg.take(7).take(6));
                assert("--path="@.take(6) =~= "--path"@);
            }
        }
        assert(arg != "--path"@) by {
            if arg == "--path"@ {
                assert(arg.take(6) =~= "--path"@);
            }
        }
    }
    if arg.len() == 0 || arg[0] != '-' {
        assert(!begins_with(arg, "--path="@)) by {
            if begins_with(arg, "--path="@) {
                assert(arg[0] == arg.take(7)[0]);
            }
        }
        assert(arg != "--path"@) by {
            assert("--path"@[0] == '-');
        }
    }
    let eq = "--path="@ + value;
    assert(eq.take(7) =~= "--path="@);
    assert(eq.skip(7) =~= value);
    assert((seq![eq] + rest)[0] == eq);
    let two = seq!["--path"@, value] + rest;
    assert(two[0] == "--path"@ && two[1] == value);
    assert("--path"@.len() == 6 && "--path="@.len() == 7);
    assert(seq!["--path"@][0] == "--path"@);
}

} // verus!
