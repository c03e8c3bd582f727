//! WSL distributions for the "Linux" group.

use crate::order::{by_index, covers, sorted_by, the_order};
use crate::path::WinPath;
use crate::sort::{names_le, order_names};
use crate::text::{strings, to_chars};
use crate::wide::{decoded, until_nul, wide_to_string};
use vstd::prelude::*;

verus! {

/// An installed distribution.
#[derive(Debug)]
pub struct WslDistro {
    /// The registered name, which is also the share name.
    pub name: String,
}

impl Clone for WslDistro {
    fn clone(&self) -> (r: WslDistro)
        ensures
            r == *self,
    {
        WslDistro { name: self.name.clone() }
    }
}

/// The root of a distribution's file system as a text.
pub open spec fn distro_root(name: Seq<char>) -> Seq<char> {
    "\\\\wsl.localhost\\"@ + name
}

/// The `\\wsl.localhost\<name>` root of a distribution's file system.
pub fn distro_unc_path(name: &str) -> (r: WinPath)
    ensures
        r@ == distro_root(name@),
{
    let mut s = "\\\\wsl.localhost\\".to_string();
    s.append(name);
    WinPath { text: s }
}

/// The name that a registry value holds: `None` when it is missing or empty.
pub open spec fn registered_name(value: Option<Seq<u16>>) -> Option<Seq<char>> {
    match value {
        Some(b) => if decoded(until_nul(b)).len() > 0 {
            Some(decoded(until_nul(b)))
        } else {
            None
        },
        None => None,
    }
}

/// The view of a registry value.
pub open spec fn value_view(v: Option<Vec<u16>>) -> Option<Seq<u16>> {
    match v {
        Some(b) => Some(b@),
        None => None,
    }
}

/// Read a distribution's name from its registry value, a NUL-terminated buffer.
pub fn read_distribution_name(value: &Option<Vec<u16>>) -> (r: Option<String>)
    ensures
        match r {
            Some(s) => registered_name(value_view(*value)) == Some(s@),
            None => registered_name(value_view(*value)) is None,
        },
{
    match value {
        Some(b) => {
            let name = wide_to_string(b.as_slice());
            if to_chars(&name).len() == 0 {
                None
            } else {
                Some(name)
            }
        },
        None => None,
    }
}

/// The names that a list of registry values holds.
pub open spec fn registered_names(values: Seq<Option<Vec<u16>>>) -> Seq<Seq<char>>
    decreases values.len(),
{
    if values.len() == 0 {
        seq![]
    } else {
        let before = registered_names(values.drop_last());
        match registered_name(value_view(values.last())) {
            Some(n) => before.push(n),
            None => before,
        }
    }
}

/// The names of a list of distributions.
pub open spec fn distro_names(v: Seq<WslDistro>) -> Seq<Seq<char>> {
    v.map_values(|d: WslDistro| d.name@)
}

/// The installed distributions, sorted by name, from the name values in the registry.
pub fn list_wsl_distros(values: &Vec<Option<Vec<u16>>>) -> (r: Vec<WslDistro>)
    ensures
        distro_names(r@) == sorted_by(registered_names(values@), names_le()),
        forall|i: int| 0 <= i < r@.len() ==> (#[trigger] r@[i]).name@.len() > 0,
{
    let mut names: Vec<String> = Vec::new();
    assert(values@.take(0) =~= seq![]);
    assert(strings(names@) =~= seq![]);
    for i in 0..values.len()
        invariant
            strings(names@) == registered_names(values@.take(i as int)),
            forall|k: int| 0 <= k < names@.len() ==> (#[trigger] names@[k])@.len() > 0,
    {
        assert(values@.take(i + 1).drop_last() =~= values@.take(i as int));
        assert(values@.take(i + 1).last() == values@[i as int]);
        if let Some(name) = read_distribution_name(&values[i]) {
            let ghost prev = strings(names@);
            names.push(name);
            assert(strings(names@) =~= prev.push(name@));
        }
    }
    assert(values@.take(values@.len() as int) =~= values@);
    let p = order_names(&names);
    let ghost sorted = sorted_by(strings(names@), names_le());
    let mut out: Vec<WslDistro> = Vec::new();
    for k in 0..names.len()
        invariant
            covers(p@, 0, names@.len() as int),
            p@ == the_order(by_index(strings(names@), names_le()), names@.len() as int),
            sorted == sorted_by(strings(names@), names_le()),
            forall|i: int| 0 <= i < names@.len() ==> (#[trigger] names@[i])@.len() > 0,
            out@.len() == k,
            forall|a: int|
                0 <= a < k ==> (#[trigger] out@[a]).name@ == sorted[a] && out@[a].name@.len() > 0,
    {
        assert(strings(names@)[p@[k as int] as int] == names@[p@[k as int] as int]@);
        out.push(WslDistro { name: names[p[k]].clone() });
    }
    assert(distro_names(out@) =~= sorted);
    out
}

/// The root of a distribution is recognised as one, so that "Up" leads from it to the
/// "Linux" group, whatever single component its name is.
pub proof fn law_distro_root_leads_up_to_the_group(name: Seq<char>)
    requires
        crate::path::plain_name(name),
    ensures
        crate::model::parent_place(crate::model::Place::Path(distro_root(name))) == Some(
            crate::model::Place::Wsl,
        ),
        crate::tree::wsl_path(distro_root(name)),
{
    let t = distro_root(name);
    reveal_strlit("\\\\wsl.localhost\\");
    reveal_strlit("wsl.localhost");
    let host = "wsl.localhost"@;
    assert(t.len() == 16 + name.len());
    assert(t[0] == '\\' && t[1] == '\\' && t[2] == 'w' && t[15] == '\\');
    assert forall|k: int| 2 <= k < 15 implies !crate::path::is_sep(#[trigger] t[k]) && t[k]
        == host[k - 2] by {}
    assert forall|k: int| 16 <= k < t.len() implies !crate::path::is_sep(#[trigger] t[k]) by {
        assert(t[k] == name[k - 16]);
    }
    lemma_sep_at(t, 2, 15);
    lemma_sep_at(t, 16, t.len() as int);
    assert(t.subrange(2, 15) =~= host);
    assert(crate::path::head(t).len == t.len());
    assert(crate::path::pieces(t) =~= seq![]);
    assert(crate::path::comps(t) =~= crate::path::lead(t));
    assert(crate::path::comps(t).len() == 2);
}

proof fn lemma_sep_at(t: Seq<char>, from: int, to: int)
    requires
        0 <= from <= to <= t.len(),
        forall|k: int| from <= k < to ==> !crate::path::is_sep(#[trigger] t[k]),
        to < t.len() ==> crate::path::is_sep(t[to]),
    ensures
        crate::path::next_sep(t, from, false) == to,
    decreases to - from,
{
    if from < to {
        lemma_sep_at(t, from + 1, to);
    }
}

/// The distributions that are listed are those whose registry value holds a name, each under
/// that name, in the order of the names, ignoring case.
pub proof fn law_distributions_are_listed_by_name(values: Seq<Option<Vec<u16>>>)
    requires
        values.len() <= usize::MAX,
    ensures
        ({
            let now = sorted_by(registered_names(values), names_le());
            &&& forall|a: int, b: int|
                #![trigger now[a], now[b]]
                0 <= a < b < now.len() ==> crate::sort::names_in_order(now[a], now[b])
            &&& now.to_multiset() == registered_names(values).to_multiset()
            &&& forall|i: int|
                0 <= i < values.len() && registered_name(value_view(#[trigger] values[i])) is Some
                    ==> now.contains(registered_name(value_view(values[i]))->0)
            &&& now.len() <= values.len()
        }),
{
    lemma_registered(values);
    let p = crate::sort::law_sorted_names_are_in_order(registered_names(values));
    let all = registered_names(values);
    let now = sorted_by(all, names_le());
    assert forall|i: int|
        0 <= i < values.len() && registered_name(value_view(#[trigger] values[i])) is Some implies now.contains(
    registered_name(value_view(values[i]))->0) by {
        broadcast use vstd::seq_lib::group_to_multiset_ensures;
        let name = registered_name(value_view(values[i]))->0;
        assert(all.contains(name));
        assert(all.to_multiset().count(name) > 0);
    }
}

proof fn lemma_registered(values: Seq<Option<Vec<u16>>>)
    ensures
        registered_names(values).len() <= values.len(),
        forall|i: int|
            0 <= i < values.len() && registered_name(value_view(#[trigger] values[i])) is Some
                ==> registered_names(values).contains(registered_name(value_view(values[i]))->0),
    decreases values.len(),
{
    if values.len() > 0 {
        let t = values.drop_last();
        lemma_registered(t);
        let before = registered_names(t);
        let all = registered_names(values);
        assert forall|i: int|
            0 <= i < values.len() && registered_name(value_view(#[trigger] values[i])) is Some implies all.contains(
        registered_name(value_view(values[i]))->0) by {
            let name = registered_name(value_view(values[i]))->0;
            if i < t.len() {
                assert(t[i] == values[i]);
                assert(before.contains(name));
                let k = choose|k: int| 0 <= k < before.len() && before[k] == name;
                assert(all[k] == name);
            } else {
                assert(all[before.len() as int] == name);
            }
        }
    }
}

} // verus!
