//! Wording: titles and status lines.

use crate::model::{parse_place, place_label, same_place, Location, Place};
use crate::text::{decimal, decimal_string, same_ignoring_case, trim};
use vstd::prelude::*;

verus! {

/// What the address bar says of a place.
pub open spec fn address_of(p: Place) -> Seq<char> {
    match p {
        Place::ThisPc => "This PC"@,
        Place::Wsl => "Linux"@,
        Place::Path(t) => t,
    }
}

/// The address-bar text for a location.
pub fn address_text(location: &Location) -> (r: String)
    ensures
        r@ == address_of(location@),
{
    match location {
        Location::ThisPc => "This PC".to_string(),
        Location::Wsl => "Linux".to_string(),
        Location::Path(p) => p.text.clone(),
    }
}

/// The title of a tab: the folder's own name, or the whole path where it has none.
pub fn tab_title(location: &Location) -> (r: String)
    ensures
        r@ == place_label(location@),
{
    location.label()
}

/// Submitting the address bar as it stands leads back to where one is, unless the path
/// has white space at its ends, is empty, or is spelled like one of the landing pages.
pub proof fn law_address_leads_back(p: Place)
    requires
        p matches Place::Path(t) ==> trim(t) == t && t.len() > 0 && !same_ignoring_case(
            t,
            "This PC"@,
        ) && !same_ignoring_case(t, "Linux"@) && !same_ignoring_case(t, "WSL"@),
    ensures
        same_place(parse_place(address_of(p)), p),
{
    reveal_strlit("This PC");
    reveal_strlit("Linux");
    reveal_strlit("WSL");
    crate::text::lemma_trim_fixed("This PC"@);
    crate::text::lemma_trim_fixed("Linux"@);
    assert(crate::text::ascii_lower_all("Linux"@).len() == 5);
    assert(crate::text::ascii_lower_all("This PC"@).len() == 7);
}

/// The ending of a noun for a count.
pub open spec fn ending(n: int) -> Seq<char> {
    if n == 1 {
        ""@
    } else {
        "s"@
    }
}

/// The ending of a noun for a count: nothing for one, "s" otherwise.
pub fn plural(count: usize) -> (r: &'static str)
    ensures
        r@ == ending(count as int),
{
    if count == 1 {
        ""
    } else {
        "s"
    }
}

/// How many items a listing has.
pub open spec fn items_text(n: int) -> Seq<char> {
    decimal(n as nat) + " items"@
}

/// How many items a listing has.
pub fn items_status(n: usize) -> (r: String)
    ensures
        r@ == items_text(n as int),
{
    let mut s = decimal_string(n as u64);
    s.append(" items");
    s
}

/// What a running search has found so far.
pub open spec fn found_text(n: int) -> Seq<char> {
    "Searching… "@ + decimal(n as nat) + " found"@
}

/// What a running search has found so far.
pub fn found_status(n: usize) -> (r: String)
    ensures
        r@ == found_text(n as int),
{
    let mut s = "Searching… ".to_string();
    s.append(&decimal_string(n as u64));
    s.append(" found");
    s
}

/// What a finished search has found.
pub open spec fn results_text(n: int, capped: bool) -> Seq<char> {
    let d = decimal(n as nat);
    if n == 0 {
        "No results"@
    } else if capped {
        d + " results (showing the first "@ + d + "; refine to narrow)"@
    } else {
        d + " result"@ + ending(n)
    }
}

/// What a finished search has found.
pub fn results_status(n: usize, capped: bool) -> (r: String)
    ensures
        r@ == results_text(n as int, capped),
{
    if n == 0 {
        "No results".to_string()
    } else {
        let d = decimal_string(n as u64);
        let mut s = d.clone();
        if capped {
            s.append(" results (showing the first ");
            s.append(&d);
            s.append("; refine to narrow)");
        } else {
            s.append(" result");
            s.append(plural(n));
        }
        s
    }
}

/// What is done to a number of items.
pub open spec fn counted(verb: Seq<char>, n: int) -> Seq<char> {
    verb + seq![' '] + decimal(n as nat) + " item"@ + ending(n)
}

/// What is done to a number of items.
pub fn counted_items(verb: &str, n: usize) -> (r: String)
    ensures
        r@ == counted(verb@, n as int),
{
    let mut s = verb.to_string();
    s.push(' ');
    s.append(&decimal_string(n as u64));
    s.append(" item");
    s.append(plural(n));
    assert(s@ =~= counted(verb@, n as int));
    s
}

} // verus!
