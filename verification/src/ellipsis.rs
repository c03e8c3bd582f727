//! Truncating text to the width that it has, with an ellipsis at the end.

use crate::text::{answered, from_chars, sub_chars, to_chars};
use vstd::prelude::*;

verus! {

/// The first `m` characters of `content`, with an ellipsis behind them.
pub open spec fn shortened(content: Seq<char>, m: int) -> Seq<char> {
    content.take(m).push('…')
}

/// Whether `m` characters are as many as fit: those fit and one more does not. When not
/// even the ellipsis fits, it stands alone.
pub open spec fn best_length<F: Fn(&str) -> bool>(fits: F, content: Seq<char>, m: int) -> bool {
    &&& 0 <= m <= content.len()
    &&& {
        ||| answered(fits, shortened(content, m), true) && (m < content.len() ==> answered(
            fits,
            shortened(content, m + 1),
            false,
        ))
        ||| m == 0 && answered(fits, shortened(content, 0), false)
    }
}

fn candidate(chars: &Vec<char>, m: usize) -> (r: String)
    requires
        m <= chars@.len(),
    ensures
        r@ == shortened(chars@, m as int),
{
    let mut s = from_chars(&sub_chars(chars, 0, m));
    s.push('…');
    s
}

/// The longest prefix of `content` that fits once an ellipsis is appended, where `fits`
/// measures. A longer prefix is taken to be wider, so the length is found by halving. At
/// least the ellipsis comes back.
pub fn ellipsize<F: Fn(&str) -> bool>(content: &str, fits: F) -> (r: String)
    requires
        forall|s: &str| #[trigger] call_requires(fits, (s,)),
    ensures
        exists|m: int| #[trigger] best_length(fits, content@, m) && r@ == shortened(content@, m),
{
    let chars = to_chars(content);
    let n: usize = chars.len();
    let mut lo: usize = 0;
    let mut hi: usize = n;
    let mut best: usize = 0;
    while lo <= hi
        invariant_except_break
            lo <= hi + 1,
            lo > 0 ==> best == lo - 1 && answered(fits, shortened(content@, best as int), true),
            lo == 0 ==> best == 0,
            hi < n ==> answered(fits, shortened(content@, hi + 1), false),
        invariant
            forall|s: &str| #[trigger] call_requires(fits, (s,)),
            chars@ == content@,
            n == content@.len(),
            hi <= n,
        ensures
            best <= n,
            best_length(fits, content@, best as int),
        decreases hi + 1 - lo,
    {
        let mid: usize = lo + (hi - lo) / 2;
        let text = candidate(&chars, mid);
        let s = text.as_str();
        if fits(s) {
            best = mid;
            assert(answered(fits, shortened(content@, best as int), true));
            if mid == n {
                break;
            }
            lo = mid + 1;
        } else {
            assert(answered(fits, shortened(content@, mid as int), false));
            if mid == 0 {
                break;
            }
            hi = mid - 1;
        }
    }
    candidate(&chars, best)
}

/// Where a wider text never fits in less room than a narrower one, the result is the
/// longest prefix that fits.
pub proof fn law_longest_prefix_is_kept<F: Fn(&str) -> bool>(
    fits: F,
    wide: spec_fn(Seq<char>) -> bool,
    content: Seq<char>,
    m: int,
    k: int,
)
    requires
        best_length(fits, content, m),
        forall|t: Seq<char>, b: bool| #[trigger] answered(fits, t, b) ==> b == !wide(t),
        forall|i: int, j: int|
            0 <= i <= j <= content.len() && #[trigger] wide(shortened(content, i)) ==> #[trigger] wide(
                shortened(content, j),
            ),
        m < k <= content.len(),
    ensures
        wide(shortened(content, k)),
{
    if m == 0 && answered(fits, shortened(content, 0), false) {
        assert(wide(shortened(content, 0)));
    } else {
        assert(wide(shortened(content, m + 1)));
    }
}

/// A text that is cut ends in an ellipsis, and before it stands what the text begins with.
pub proof fn law_cut_text_begins_as_it_did(content: Seq<char>, m: int)
    requires
        0 <= m <= content.len(),
    ensures
        shortened(content, m).len() == m + 1,
        shortened(content, m).last() == '…',
        forall|i: int| 0 <= i < m ==> #[trigger] shortened(content, m)[i] == content[i],
{
}

} // verus!
