//! UTF-16 text as Windows calls take and give it.

use crate::text::{from_chars, to_chars};
use vstd::prelude::*;

verus! {

/// Whether `n` is the number of a character: a code point that is no surrogate.
pub open spec fn is_scalar(n: int) -> bool {
    0 <= n < 0xd800 || 0xe000 <= n <= 0x10ffff
}

/// `char::from_u32`: the character with the given number, if there is one.
pub assume_specification[ char::from_u32 ](i: u32) -> (r: Option<char>)
    ensures
        r == (if is_scalar(i as int) {
            Some(i as char)
        } else {
            None
        }),
;

/// Every character has such a number.
pub proof fn lemma_char_is_scalar(c: char)
    ensures
        is_scalar(c as int),
{
}

/// The UTF-16 units of one character.
pub open spec fn units(c: char) -> Seq<u16> {
    let n = c as int;
    if n < 0x10000 {
        seq![n as u16]
    } else {
        seq![(0xd800 + (n - 0x10000) / 0x400) as u16, (0xdc00 + (n - 0x10000) % 0x400) as u16]
    }
}

/// The UTF-16 units of a text.
pub open spec fn utf16(s: Seq<char>) -> Seq<u16>
    decreases s.len(),
{
    if s.len() == 0 {
        seq![]
    } else {
        units(s[0]) + utf16(s.drop_first())
    }
}

/// Whether a unit is the first half of a surrogate pair.
pub open spec fn is_high(u: u16) -> bool {
    0xd800 <= u < 0xdc00
}

/// Whether a unit is the second half of a surrogate pair.
pub open spec fn is_low(u: u16) -> bool {
    0xdc00 <= u < 0xe000
}

/// The text that UTF-16 units write; a stray surrogate reads as U+FFFD.
pub open spec fn decoded(b: Seq<u16>) -> Seq<char>
    decreases b.len(),
{
    if b.len() == 0 {
        seq![]
    } else if !is_high(b[0]) && !is_low(b[0]) {
        seq![b[0] as char] + decoded(b.skip(1))
    } else if is_high(b[0]) && b.len() > 1 && is_low(b[1]) {
        seq![(0x10000 + (b[0] - 0xd800) * 0x400 + (b[1] - 0xdc00)) as char] + decoded(b.skip(2))
    } else {
        seq!['\u{fffd}'] + decoded(b.skip(1))
    }
}

/// The units before the first NUL.
pub open spec fn until_nul(b: Seq<u16>) -> Seq<u16>
    decreases b.len(),
{
    if b.len() == 0 || b[0] == 0 {
        seq![]
    } else {
        seq![b[0]] + until_nul(b.skip(1))
    }
}

/// Encode a string as a NUL-terminated UTF-16 buffer.
pub fn to_wide(s: &str) -> (r: Vec<u16>)
    ensures
        r@ == utf16(s@).push(0),
{
    let chars = to_chars(s);
    let mut out: Vec<u16> = Vec::new();
    assert(chars@.skip(0) =~= chars@);
    for i in 0..chars.len()
        invariant
            out@ + utf16(chars@.skip(i as int)) == utf16(chars@),
    {
        let ghost prev = out@;
        let ghost rest = chars@.skip(i as int);
        let c: char = chars[i];
        proof {
            lemma_char_is_scalar(c);
        }
        let n: u32 = c as u32;
        if n < 0x10000 {
            out.push(n as u16);
        } else {
            out.push((0xd800 + (n - 0x10000) / 0x400) as u16);
            out.push((0xdc00 + (n - 0x10000) % 0x400) as u16);
        }
        proof {
            assert(rest.drop_first() =~= chars@.skip(i + 1));
            assert(out@ =~= prev + units(c));
            assert(out@ + utf16(chars@.skip(i + 1)) =~= prev + (units(c) + utf16(
                rest.drop_first(),
            )));
        }
    }
    assert(chars@.skip(chars@.len() as int) =~= Seq::<char>::empty());
    assert(out@ =~= utf16(chars@));
    out.push(0);
    out
}

/// Decode a (possibly NUL-terminated) UTF-16 buffer, stopping at the first NUL.
pub fn wide_to_string(buf: &[u16]) -> (r: String)
    ensures
        r@ == decoded(until_nul(buf@)),
{
    let mut end: usize = 0;
    assert(buf@.skip(0) =~= buf@);
    assert(buf@.take(0) + until_nul(buf@) =~= until_nul(buf@));
    while end < buf.len() && buf[end] != 0
        invariant
            end <= buf@.len(),
            buf@.take(end as int) + until_nul(buf@.skip(end as int)) == until_nul(buf@),
        decreases buf@.len() - end,
    {
        proof {
            let rest = buf@.skip(end as int);
            assert(rest.skip(1) =~= buf@.skip(end + 1));
            assert(buf@.take(end + 1) + until_nul(rest.skip(1)) =~= buf@.take(end as int) + (
            seq![rest[0]] + until_nul(rest.skip(1))));
        }
        end += 1;
    }
    let ghost text = buf@.take(end as int);
    assert(until_nul(buf@) =~= text);
    let mut out: Vec<char> = Vec::new();
    let mut i: usize = 0;
    assert(text.skip(0) =~= text);
    while i < end
        invariant
            i <= end <= buf@.len(),
            text == buf@.take(end as int),
            out@ + decoded(text.skip(i as int)) == decoded(text),
        decreases end - i,
    {
        let ghost rest = text.skip(i as int);
        let ghost prev = out@;
        let u: u16 = buf[i];
        assert(rest[0] == u);
        if !(0xd800 <= u && u < 0xe000) {
            match char::from_u32(u as u32) {
                Some(c) => {
                    out.push(c);
                    assert(c == u as char);
                },
                None => {},
            }
            proof {
                assert(rest.skip(1) =~= text.skip(i + 1));
                assert(out@ + decoded(rest.skip(1)) =~= prev + (seq![u as char] + decoded(
                    rest.skip(1),
                )));
            }
            i += 1;
        } else if u < 0xdc00 && i + 1 < end && 0xdc00 <= buf[i + 1] && buf[i + 1] < 0xe000 {
            let v: u16 = buf[i + 1];
            assert(rest[1] == v);
            let n: u32 = 0x10000 + (u as u32 - 0xd800) * 0x400 + (v as u32 - 0xdc00);
            match char::from_u32(n) {
                Some(c) => {
                    out.push(c);
                },
                None => {},
            }
            proof {
                assert(rest.skip(2) =~= text.skip(i + 2));
                assert(out@ + decoded(rest.skip(2)) =~= prev + (seq![n as char] + decoded(
                    rest.skip(2),
                )));
            }
            i += 2;
        } else {
            out.push('\u{fffd}');
            proof {
                assert(rest.skip(1) =~= text.skip(i + 1));
                assert(out@ + decoded(rest.skip(1)) =~= prev + (seq!['\u{fffd}'] + decoded(
                    rest.skip(1),
                )));
            }
            i += 1;
        }
    }
    assert(text.skip(i as int) =~= Seq::<u16>::empty());
    assert(out@ =~= decoded(text));
    from_chars(&out)
}

/// Text without NUL comes back unchanged from a UTF-16 buffer: from its own, whatever the
/// buffer holds behind the terminating NUL, and also where no NUL ends it.
pub proof fn law_wide_round_trip(s: Seq<char>, tail: Seq<u16>)
    requires
        forall|i: int| 0 <= i < s.len() ==> #[trigger] s[i] != '\0',
    ensures
        decoded(until_nul(utf16(s).push(0))) == s,
        decoded(until_nul(utf16(s).push(0) + tail)) == s,
        decoded(until_nul(utf16(s))) == s,
{
    lemma_no_nul(s, seq![0u16]);
    lemma_no_nul(s, seq![0u16] + tail);
    lemma_no_nul(s, seq![]);
    assert(utf16(s) + seq![0u16] =~= utf16(s).push(0));
    assert(utf16(s) + (seq![0u16] + tail) =~= utf16(s).push(0) + tail);
    assert(utf16(s) + seq![] =~= utf16(s));
    lemma_decode_encode(s);
}

/// Reading a text without NUL goes on to what ends it.
proof fn lemma_no_nul(s: Seq<char>, end: Seq<u16>)
    requires
        forall|i: int| 0 <= i < s.len() ==> #[trigger] s[i] != '\0',
        end.len() > 0 ==> end[0] == 0,
    ensures
        until_nul(utf16(s) + end) == utf16(s),
    decreases s.len(),
{
    let b = utf16(s) + end;
    if s.len() == 0 {
        assert(b =~= end);
    } else {
        let t = s.drop_first();
        assert forall|i: int| 0 <= i < t.len() implies #[trigger] t[i] != '\0' by {
            assert(t[i] == s[i + 1]);
        }
        lemma_no_nul(t, end);
        let u = units(s[0]);
        lemma_char_is_scalar(s[0]);
        assert(s[0] != '\0');
        let rest = utf16(t) + end;
        assert(b =~= u + rest);
        if u.len() == 1 {
            assert(b.skip(1) =~= rest);
            assert(until_nul(b) =~= u + utf16(t));
        } else {
            assert(b.skip(1).skip(1) =~= rest);
            assert(b.skip(1)[0] == u[1]);
            assert(until_nul(b.skip(1)) =~= seq![u[1]] + utf16(t));
            assert(until_nul(b) =~= u + utf16(t));
        }
    }
}

proof fn lemma_decode_encode(s: Seq<char>)
    ensures
        decoded(utf16(s)) == s,
    decreases s.len(),
{
    if s.len() > 0 {
        let t = s.drop_first();
        lemma_decode_encode(t);
        let u = units(s[0]);
        lemma_char_is_scalar(s[0]);
        let b = utf16(s);
        let n = s[0] as int;
        if u.len() == 1 {
            assert(b.skip(1) =~= utf16(t));
            assert(b[0] == n as u16);
            assert(decoded(b) =~= seq![s[0]] + t);
        } else {
            assert(b.skip(2) =~= utf16(t));
            let m = n - 0x10000;
            assert(b[0] == 0xd800 + m / 0x400);
            assert(b[1] == 0xdc00 + m % 0x400);
            assert((m / 0x400) * 0x400 + m % 0x400 == m);
            assert(decoded(b) =~= seq![s[0]] + t);
        }
        assert(seq![s[0]] + t =~= s);
    }
}

} // verus!
