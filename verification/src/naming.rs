//! Names for new folders.

use crate::text::{answered, decimal, decimal_string};
use vstd::prelude::*;

verus! {

/// The highest number that is tried.
pub const LAST: u64 = 2147483647;

/// The name of the `n`th new folder in a directory.
pub open spec fn folder_name(n: int) -> Seq<char> {
    if n <= 1 {
        "New folder"@
    } else {
        "New folder"@ + " ("@ + decimal(n as nat) + seq![')']
    }
}

/// Whether `n` is the lowest number whose name is free: the names before it are taken.
pub open spec fn first_free<F: Fn(&str) -> bool>(taken: F, n: int) -> bool {
    &&& 1 <= n <= LAST
    &&& answered(taken, folder_name(n), false)
    &&& forall|k: int| 1 <= k < n ==> answered(taken, #[trigger] folder_name(k), true)
}

fn numbered_name(n: u64) -> (r: String)
    ensures
        r@ == folder_name(n as int),
{
    let mut s = "New folder".to_string();
    if n > 1 {
        s.append(" (");
        s.append(&decimal_string(n));
        s.push(')');
        assert(s@ =~= folder_name(n as int));
    }
    s
}

/// A name for a new folder that is not taken: "New folder", else the first of
/// "New folder (2)", "New folder (3)" and so on that is free.
pub fn unique_folder_name<F: Fn(&str) -> bool>(taken: F) -> (r: String)
    requires
        forall|s: &str| #[trigger] call_requires(taken, (s,)),
    ensures
        (exists|n: int| #[trigger] first_free(taken, n) && r@ == folder_name(n)) || (r@
            == folder_name(1) && forall|k: int|
            1 <= k <= LAST ==> answered(taken, #[trigger] folder_name(k), true)),
{
    let mut n: u64 = 1;
    while n <= LAST
        invariant
            forall|s: &str| #[trigger] call_requires(taken, (s,)),
            1 <= n <= LAST + 1,
            forall|k: int| 1 <= k < n ==> answered(taken, #[trigger] folder_name(k), true),
        decreases LAST + 1 - n,
    {
        let name = numbered_name(n);
        let s = name.as_str();
        let is_taken: bool = taken(s);
        if !is_taken {
            assert(answered(taken, folder_name(n as int), false));
            assert(first_free(taken, n as int));
            return name;
        }
        assert(answered(taken, folder_name(n as int), true));
        n += 1;
    }
    numbered_name(1)
}

/// Where it is settled which names are taken, no two answers differ: the name is the one
/// with the lowest free number.
pub proof fn law_new_folder_name_is_the_first_free<F: Fn(&str) -> bool>(taken: F, m: int, n: int)
    requires
        forall|t: Seq<char>| !(#[trigger] answered(taken, t, true) && answered(taken, t, false)),
        first_free(taken, m),
        first_free(taken, n),
    ensures
        m == n,
{
    if m < n {
        assert(answered(taken, folder_name(m), true));
    } else if n < m {
        assert(answered(taken, folder_name(n), true));
    }
}

/// New folders have names of their own: different numbers give different names.
pub proof fn law_folder_names_differ(m: u64, n: u64)
    requires
        1 <= m < n,
    ensures
        folder_name(m as int) != folder_name(n as int),
        folder_name(1) == "New folder"@,
        folder_name(n as int) == "New folder"@ + " ("@ + decimal(n as nat) + seq![')'],
{
    let a = folder_name(m as int);
    let b = folder_name(n as int);
    reveal_strlit("New folder");
    reveal_strlit(" (");
    if m > 1 && a == b {
        let (x, y) = (decimal(m as nat), decimal(n as nat));
        assert(a.len() == 12 + x.len() + 1 && b.len() == 12 + y.len() + 1);
        assert(a.subrange(12, 12 + x.len() as int) =~= x);
        assert(b.subrange(12, 12 + y.len() as int) =~= y);
        crate::text::law_decimal_reads_back(m, n);
    } else if m == 1 {
        assert(a.len() == 10 && b.len() > 12);
    }
}

} // verus!
