//! Text helpers over strings seen as sequences of characters.

use vstd::prelude::*;

verus! {

/// `String::push`: the string is what it was, with `c` appended.
pub assume_specification[ String::push ](s: &mut String, c: char)
    ensures
        final(s)@ == old(s)@.push(c),
;

/// Whether `f` may answer `b` when asked about the text `t`.
pub open spec fn answered<F: Fn(&str) -> bool>(f: F, t: Seq<char>, b: bool) -> bool {
    exists|s: &str| s@ == t && #[trigger] call_ensures(f, (s,), b)
}

/// The characters of `s`.
pub fn to_chars(s: &str) -> (r: Vec<char>)
    ensures
        r@ == s@,
{
    let mut out: Vec<char> = Vec::new();
    for c in it: s.chars()
        invariant
            out@ == s@.take(it.index() as int),
            it.seq() == s@,
    {
        out.push(c);
    }
    assert(s@.take(s@.len() as int) =~= s@);
    out
}

/// The string made of `chars`.
pub fn from_chars(chars: &Vec<char>) -> (r: String)
    ensures
        r@ == chars@,
{
    let mut out = String::new();
    for i in 0..chars.len()
        invariant
            out@ == chars@.take(i as int),
    {
        out.push(chars[i]);
    }
    assert(chars@.take(chars@.len() as int) =~= chars@);
    out
}

/// The characters from `from` up to (not including) `to`.
pub fn sub_chars(chars: &Vec<char>, from: usize, to: usize) -> (r: Vec<char>)
    requires
        from <= to <= chars@.len(),
    ensures
        r@ == chars@.subrange(from as int, to as int),
{
    let mut out: Vec<char> = Vec::new();
    for i in from..to
        invariant
            from <= to <= chars@.len(),
            out@ == chars@.subrange(from as int, i as int),
    {
        out.push(chars[i]);
    }
    out
}

/// Whether two character vectors hold the same text.
pub fn chars_eq(a: &Vec<char>, b: &Vec<char>) -> (r: bool)
    ensures
        r == (a@ == b@),
{
    if a.len() != b.len() {
        return false;
    }
    for i in 0..a.len()
        invariant
            a@.len() == b@.len(),
            forall|j: int| 0 <= j < i ==> a@[j] == b@[j],
    {
        if a[i] != b[i] {
            assert(a@[i as int] != b@[i as int]);
            return false;
        }
    }
    assert(a@ =~= b@);
    true
}

/// Whether two strings hold the same text.
pub fn str_eq(a: &str, b: &str) -> (r: bool)
    ensures
        r == (a@ == b@),
{
    chars_eq(&to_chars(a), &to_chars(b))
}

// ---------------------------------------------------------------- searching

/// Index of the first `c` in `s`, or the length of `s` when there is none.
pub open spec fn first_of(s: Seq<char>, c: char) -> int
    decreases s.len(),
{
    if s.len() == 0 || s[0] == c {
        0
    } else {
        1 + first_of(s.drop_first(), c)
    }
}

/// Index of the last `c` in `s`, or `-1` when there is none.
pub open spec fn last_of(s: Seq<char>, c: char) -> int
    decreases s.len(),
{
    if s.len() == 0 {
        -1
    } else if s.last() == c {
        s.len() - 1
    } else {
        last_of(s.drop_last(), c)
    }
}

/// `first_of` is the one index with `c` at it (or the end) and no `c` before it.
pub proof fn lemma_first_of(s: Seq<char>, c: char, i: int)
    requires
        0 <= i <= s.len(),
        forall|j: int| 0 <= j < i ==> s[j] != c,
        i < s.len() ==> s[i] == c,
    ensures
        first_of(s, c) == i,
    decreases s.len(),
{
    if s.len() > 0 && i > 0 {
        assert(s[0] != c);
        let t = s.drop_first();
        assert forall|j: int| 0 <= j < i - 1 implies t[j] != c by {
            assert(t[j] == s[j + 1]);
        }
        lemma_first_of(t, c, i - 1);
    }
}

/// What `first_of` means.
pub proof fn lemma_first_of_props(s: Seq<char>, c: char)
    ensures
        0 <= first_of(s, c) <= s.len(),
        forall|j: int| 0 <= j < first_of(s, c) ==> s[j] != c,
        first_of(s, c) < s.len() ==> s[first_of(s, c)] == c,
    decreases s.len(),
{
    if s.len() > 0 && s[0] != c {
        let t = s.drop_first();
        lemma_first_of_props(t, c);
        assert forall|j: int| 0 <= j < first_of(s, c) implies s[j] != c by {
            if j > 0 {
                assert(t[j - 1] == s[j]);
            }
        }
    }
}

/// `last_of` is the one index with `c` at it (or `-1`) and no `c` after it.
pub proof fn lemma_last_of(s: Seq<char>, c: char, i: int)
    requires
        -1 <= i < s.len(),
        forall|j: int| i < j < s.len() ==> s[j] != c,
        i >= 0 ==> s[i] == c,
    ensures
        last_of(s, c) == i,
    decreases s.len(),
{
    if s.len() > 0 && i < s.len() - 1 {
        assert(s.last() != c);
        lemma_last_of(s.drop_last(), c, i);
    }
}

/// Index of the first `c` at or after `from`, or the length when there is none.
pub fn find_from(s: &Vec<char>, c: char, from: usize) -> (r: usize)
    requires
        from <= s@.len(),
    ensures
        from <= r <= s@.len(),
        r == from + first_of(s@.skip(from as int), c),
        forall|j: int| from <= j < r ==> s@[j] != c,
        r < s@.len() ==> s@[r as int] == c,
{
    let mut i: usize = from;
    while i < s.len() && s[i] != c
        invariant
            from <= i <= s@.len(),
            forall|j: int| from <= j < i ==> s@[j] != c,
        decreases s@.len() - i,
    {
        i += 1;
    }
    proof {
        lemma_first_of(s@.skip(from as int), c, i - from);
    }
    i
}

/// The text before and after the first `c`.
pub open spec fn split_once(s: Seq<char>, c: char) -> Option<(Seq<char>, Seq<char>)> {
    let i = first_of(s, c);
    if i < s.len() {
        Some((s.take(i), s.skip(i + 1)))
    } else {
        None
    }
}

/// The text before and after the last `c`.
pub open spec fn rsplit_once(s: Seq<char>, c: char) -> Option<(Seq<char>, Seq<char>)> {
    let i = last_of(s, c);
    if i >= 0 {
        Some((s.take(i), s.skip(i + 1)))
    } else {
        None
    }
}

/// Split at the first `c`.
pub fn split_at_first(s: &Vec<char>, c: char) -> (r: Option<(Vec<char>, Vec<char>)>)
    ensures
        match r {
            Some((a, b)) => split_once(s@, c) == Some((a@, b@)),
            None => split_once(s@, c) is None,
        },
{
    let i: usize = find_from(s, c, 0);
    assert(s@.skip(0) =~= s@);
    if i < s.len() {
        let a = sub_chars(s, 0, i);
        let b = sub_chars(s, i + 1, s.len());
        assert(a@ =~= s@.take(i as int));
        assert(b@ =~= s@.skip(i + 1));
        Some((a, b))
    } else {
        None
    }
}

/// Split at the last `c`.
pub fn split_at_last(s: &Vec<char>, c: char) -> (r: Option<(Vec<char>, Vec<char>)>)
    ensures
        match r {
            Some((a, b)) => rsplit_once(s@, c) == Some((a@, b@)),
            None => rsplit_once(s@, c) is None,
        },
{
    let mut i: usize = s.len();
    while i > 0 && s[i - 1] != c
        invariant
            0 <= i <= s@.len(),
            forall|j: int| i <= j < s@.len() ==> s@[j] != c,
        decreases i,
    {
        i -= 1;
    }
    proof {
        lemma_last_of(s@, c, i - 1);
    }
    if i > 0 {
        let a = sub_chars(s, 0, i - 1);
        let b = sub_chars(s, i, s.len());
        assert(a@ =~= s@.take(i - 1));
        assert(b@ =~= s@.skip(i as int));
        Some((a, b))
    } else {
        None
    }
}

/// Every `c`-separated field of `s`: one more than there are separators.
pub open spec fn split_all(s: Seq<char>, c: char) -> Seq<Seq<char>>
    decreases s.len(),
{
    let i = first_of(s, c);
    if 0 <= i < s.len() {
        seq![s.take(i)] + split_all(s.skip(i + 1), c)
    } else {
        seq![s]
    }
}

/// The views of a vector of character vectors.
pub open spec fn texts(v: Seq<Vec<char>>) -> Seq<Seq<char>> {
    v.map_values(|x: Vec<char>| x@)
}

/// The views of a vector of strings.
pub open spec fn strings(v: Seq<String>) -> Seq<Seq<char>> {
    v.map_values(|x: String| x@)
}

/// Split `s` into its `c`-separated fields.
pub fn split_fields(s: &Vec<char>, c: char) -> (r: Vec<Vec<char>>)
    ensures
        texts(r@) == split_all(s@, c),
        r@.len() > 0,
{
    let mut out: Vec<Vec<char>> = Vec::new();
    let mut from: usize = 0;
    assert(s@.skip(0) =~= s@);
    assert(texts(out@) + split_all(s@, c) =~= split_all(s@, c));
    loop
        invariant
            from <= s@.len(),
            texts(out@) + split_all(s@.skip(from as int), c) == split_all(s@, c),
        decreases s@.len() - from,
    {
        let i: usize = find_from(s, c, from);
        let ghost rest = s@.skip(from as int);
        let ghost before = texts(out@);
        let piece = sub_chars(s, from, i);
        assert(piece@ =~= rest.take(i - from));
        if i < s.len() {
            out.push(piece);
            assert(rest.skip(i - from + 1) =~= s@.skip(i + 1));
            assert(texts(out@) =~= before + seq![piece@]);
            assert(before + (seq![piece@] + split_all(s@.skip(i + 1), c)) =~= (before + seq![piece@])
                + split_all(s@.skip(i + 1), c));
            from = i + 1;
        } else {
            out.push(piece);
            assert(piece@ =~= rest);
            assert(texts(out@) =~= before + seq![piece@]);
            return out;
        }
    }
}

/// A line without the carriage return that precedes its line feed.
pub open spec fn drop_cr(s: Seq<char>) -> Seq<char> {
    if s.len() > 0 && s.last() == '\r' {
        s.drop_last()
    } else {
        s
    }
}

/// The lines of `s`: each ends at a line feed (or a carriage return and a line
/// feed), and the last one may lack it.
pub open spec fn lines(s: Seq<char>) -> Seq<Seq<char>>
    decreases s.len(),
{
    let i = first_of(s, '\n');
    if s.len() == 0 {
        seq![]
    } else if 0 <= i < s.len() {
        seq![drop_cr(s.take(i))] + lines(s.skip(i + 1))
    } else {
        seq![s]
    }
}

/// Split `s` into lines.
pub fn split_lines(s: &Vec<char>) -> (r: Vec<Vec<char>>)
    ensures
        texts(r@) == lines(s@),
{
    let mut out: Vec<Vec<char>> = Vec::new();
    let mut from: usize = 0;
    assert(s@.skip(0) =~= s@);
    assert(texts(out@) + lines(s@) =~= lines(s@));
    while from < s.len()
        invariant
            from <= s@.len(),
            texts(out@) + lines(s@.skip(from as int)) == lines(s@),
        decreases s@.len() - from,
    {
        let i: usize = find_from(s, '\n', from);
        let ghost rest = s@.skip(from as int);
        let ghost before = texts(out@);
        if i < s.len() {
            let mut to: usize = i;
            if to > from && s[to - 1] == '\r' {
                to -= 1;
            }
            let piece = sub_chars(s, from, to);
            assert(rest.take(i - from) =~= s@.subrange(from as int, i as int));
            assert(piece@ =~= drop_cr(rest.take(i - from)));
            out.push(piece);
            assert(rest.skip(i - from + 1) =~= s@.skip(i + 1));
            assert(texts(out@) =~= before + seq![piece@]);
            assert(before + (seq![piece@] + lines(s@.skip(i + 1))) =~= (before + seq![piece@])
                + lines(s@.skip(i + 1)));
            from = i + 1;
        } else {
            let piece = sub_chars(s, from, i);
            assert(piece@ =~= rest);
            out.push(piece);
            assert(texts(out@) =~= before + seq![piece@]);
            assert(s@.skip(i as int) =~= Seq::<char>::empty());
            assert(texts(out@) + lines(s@.skip(i as int)) =~= texts(out@));
            from = i;
        }
    }
    assert(s@.skip(from as int) =~= Seq::<char>::empty());
    assert(texts(out@) + lines(s@.skip(from as int)) =~= texts(out@));
    out
}

// ---------------------------------------------------------------- whitespace

/// The characters with the Unicode property White_Space.
pub open spec fn is_space(c: char) -> bool {
    let n = c as u32;
    ||| 0x9 <= n <= 0xd
    ||| n == 0x20
    ||| n == 0x85
    ||| n == 0xa0
    ||| n == 0x1680
    ||| 0x2000 <= n <= 0x200a
    ||| n == 0x2028
    ||| n == 0x2029
    ||| n == 0x202f
    ||| n == 0x205f
    ||| n == 0x3000
}

/// Whether `c` is white space.
pub fn is_space_char(c: char) -> (r: bool)
    ensures
        r == is_space(c),
{
    let n: u32 = c as u32;
    (0x9 <= n && n <= 0xd) || n == 0x20 || n == 0x85 || n == 0xa0 || n == 0x1680 || (0x2000 <= n
        && n <= 0x200a) || n == 0x2028 || n == 0x2029 || n == 0x202f || n == 0x205f || n == 0x3000
}

/// `s` without its leading white space.
pub open spec fn trim_start(s: Seq<char>) -> Seq<char>
    decreases s.len(),
{
    if s.len() > 0 && is_space(s[0]) {
        trim_start(s.drop_first())
    } else {
        s
    }
}

/// `s` without its trailing white space.
pub open spec fn trim_end(s: Seq<char>) -> Seq<char>
    decreases s.len(),
{
    if s.len() > 0 && is_space(s.last()) {
        trim_end(s.drop_last())
    } else {
        s
    }
}

/// `s` without its leading and trailing white space.
pub open spec fn trim(s: Seq<char>) -> Seq<char> {
    trim_end(trim_start(s))
}

/// Text that begins and ends with something else than white space is kept whole.
pub proof fn lemma_trim_fixed(s: Seq<char>)
    requires
        s.len() > 0 ==> !is_space(s[0]) && !is_space(s.last()),
    ensures
        trim(s) == s,
{
}

/// Trim white space off both ends.
pub fn trim_chars(s: &Vec<char>) -> (r: Vec<char>)
    ensures
        r@ == trim(s@),
{
    let mut lo: usize = 0;
    assert(s@.skip(0) =~= s@);
    while lo < s.len() && is_space_char(s[lo])
        invariant
            lo <= s@.len(),
            trim_start(s@) == trim_start(s@.skip(lo as int)),
        decreases s@.len() - lo,
    {
        assert(s@.skip(lo as int).drop_first() =~= s@.skip(lo + 1));
        lo += 1;
    }
    let ghost t = s@.skip(lo as int);
    assert(trim_start(s@) == t);
    let mut hi: usize = s.len();
    assert(t.take(hi - lo) =~= t);
    while hi > lo && is_space_char(s[hi - 1])
        invariant
            lo <= hi <= s@.len(),
            t == s@.skip(lo as int),
            trim_end(t) == trim_end(t.take(hi - lo)),
        decreases hi,
    {
        assert(t.take(hi - lo).drop_last() =~= t.take(hi - lo - 1));
        hi -= 1;
    }
    let out = sub_chars(s, lo, hi);
    assert(out@ =~= t.take(hi - lo));
    out
}

// ---------------------------------------------------------------- ASCII case

/// `c`, with `A` to `Z` turned into `a` to `z`.
pub open spec fn ascii_lower(c: char) -> char {
    if 'A' <= c <= 'Z' {
        ((c as u8) + 32) as char
    } else {
        c
    }
}

/// `s`, with `A` to `Z` turned into `a` to `z`.
pub open spec fn ascii_lower_all(s: Seq<char>) -> Seq<char> {
    s.map_values(|c: char| ascii_lower(c))
}

/// Turn `A` to `Z` into `a` to `z`.
pub fn ascii_lower_char(c: char) -> (r: char)
    ensures
        r == ascii_lower(c),
{
    if 'A' <= c && c <= 'Z' {
        ((c as u8) + 32) as char
    } else {
        c
    }
}

/// Turn `A` to `Z` into `a` to `z` throughout.
pub fn ascii_lower_chars(s: &Vec<char>) -> (r: Vec<char>)
    ensures
        r@ == ascii_lower_all(s@),
{
    let mut out: Vec<char> = Vec::new();
    for i in 0..s.len()
        invariant
            out@ == ascii_lower_all(s@.take(i as int)),
    {
        out.push(ascii_lower_char(s[i]));
        assert(ascii_lower_all(s@.take(i + 1)) =~= ascii_lower_all(s@.take(i as int)).push(
            ascii_lower(s@[i as int]),
        ));
    }
    assert(s@.take(s@.len() as int) =~= s@);
    out
}

/// Whether two texts agree up to the case of ASCII letters.
pub open spec fn same_ignoring_case(a: Seq<char>, b: Seq<char>) -> bool {
    ascii_lower_all(a) == ascii_lower_all(b)
}

/// Compare ignoring the case of ASCII letters.
pub fn eq_ignore_case(a: &Vec<char>, b: &str) -> (r: bool)
    ensures
        r == same_ignoring_case(a@, b@),
{
    chars_eq(&ascii_lower_chars(a), &ascii_lower_chars(&to_chars(b)))
}

// ---------------------------------------------------------------- numbers

/// The decimal digit of `d`, for `d` below ten.
pub open spec fn digit(d: nat) -> char {
    (48 + d) as char
}

/// `n` in decimal.
pub open spec fn decimal(n: nat) -> Seq<char>
    decreases n,
{
    if n < 10 {
        seq![digit(n)]
    } else {
        decimal(n / 10).push(digit(n % 10))
    }
}

/// Whether `c` is one of `0` to `9`.
pub open spec fn is_digit(c: char) -> bool {
    '0' <= c <= '9'
}

/// The number that a run of decimal digits writes.
pub open spec fn digits_value(s: Seq<char>) -> nat
    decreases s.len(),
{
    if s.len() == 0 {
        0
    } else {
        digits_value(s.drop_last()) * 10 + ((s.last() as nat) - 48) as nat
    }
}

/// Whether `s` is one or more decimal digits and nothing else.
pub open spec fn all_digits(s: Seq<char>) -> bool {
    &&& s.len() > 0
    &&& forall|i: int| 0 <= i < s.len() ==> is_digit(#[trigger] s[i])
}

/// The unsigned 64-bit number that `s` writes in decimal, with an optional plus
/// sign; `None` for anything else, and for a number that is too large.
pub open spec fn parse_number(s: Seq<char>) -> Option<u64> {
    let d = if s.len() > 0 && s[0] == '+' {
        s.skip(1)
    } else {
        s
    };
    if all_digits(d) && digits_value(d) <= u64::MAX {
        Some(digits_value(d) as u64)
    } else {
        None
    }
}

/// Decimal text is all digits, and reads back as the number it was made from.
pub proof fn lemma_decimal(n: nat)
    ensures
        all_digits(decimal(n)),
        digits_value(decimal(n)) == n,
    decreases n,
{
    if n < 10 {
        let s = seq![digit(n)];
        assert(s.drop_last() =~= Seq::<char>::empty());
        assert(digits_value(s.drop_last()) == 0);
    } else {
        lemma_decimal(n / 10);
        let s = decimal(n);
        assert(s.drop_last() =~= decimal(n / 10));
        assert(s.last() == digit(n % 10));
        assert forall|i: int| 0 <= i < s.len() implies is_digit(#[trigger] s[i]) by {
            if i < s.len() - 1 {
                assert(s[i] == decimal(n / 10)[i]);
            }
        }
    }
}

/// The number that the first digits write is no larger than the whole.
proof fn lemma_value_monotone(s: Seq<char>, i: int)
    requires
        all_digits(s),
        0 <= i <= s.len(),
    ensures
        digits_value(s.take(i)) <= digits_value(s),
    decreases s.len(),
{
    if i == s.len() {
        assert(s.take(i) =~= s);
    } else if s.len() == 1 {
        assert(s.take(i) =~= Seq::<char>::empty());
    } else {
        let t = s.drop_last();
        assert forall|j: int| 0 <= j < t.len() implies is_digit(#[trigger] t[j]) by {
            assert(t[j] == s[j]);
        }
        lemma_value_monotone(t, i);
        assert(t.take(i) =~= s.take(i));
    }
}

/// Read an unsigned decimal number.
pub fn parse_number_chars(s: &Vec<char>) -> (r: Option<u64>)
    ensures
        r == parse_number(s@),
{
    let start: usize = if s.len() > 0 && s[0] == '+' {
        1
    } else {
        0
    };
    let ghost d = if s@.len() > 0 && s@[0] == '+' {
        s@.skip(1)
    } else {
        s@
    };
    assert(d =~= s@.skip(start as int));
    if start == s.len() {
        return None;
    }
    let mut value: u64 = 0;
    let mut i: usize = start;
    assert(d.take(0) =~= Seq::<char>::empty());
    while i < s.len()
        invariant
            start <= i <= s@.len(),
            start < s@.len(),
            d == s@.skip(start as int),
            parse_number(s@) == (if all_digits(d) && digits_value(d) <= u64::MAX {
                Some(digits_value(d) as u64)
            } else {
                None
            }),
            forall|j: int| 0 <= j < i - start ==> is_digit(#[trigger] d[j]),
            value == digits_value(d.take(i - start)),
        decreases s@.len() - i,
    {
        let c: char = s[i];
        assert(d[i - start] == c);
        if !('0' <= c && c <= '9') {
            return None;
        }
        let digit: u64 = (c as u32 - 48) as u64;
        assert(d.take(i - start + 1).drop_last() =~= d.take(i - start));
        assert(d.take(i - start + 1).last() == c);
        if value > 1844674407370955161 || (value == 1844674407370955161 && digit > 5) {
            proof {
                assert(digits_value(d.take(i - start + 1)) > u64::MAX);
                if all_digits(d) {
                    lemma_value_monotone(d, i - start + 1);
                }
            }
            return None;
        }
        value = value * 10 + digit;
        i += 1;
    }
    assert(d.take(d.len() as int) =~= d);
    Some(value)
}

/// Write `n` in decimal.
pub fn decimal_chars(n: u64) -> (r: Vec<char>)
    ensures
        r@ == decimal(n as nat),
    decreases n,
{
    let last: char = (48 + (n % 10) as u8) as char;
    if n < 10 {
        let mut out: Vec<char> = Vec::new();
        out.push(last);
        assert(out@ =~= seq![digit(n as nat)]);
        out
    } else {
        let mut out = decimal_chars(n / 10);
        out.push(last);
        out
    }
}

/// Write `n` in decimal.
pub fn decimal_string(n: u64) -> (r: String)
    ensures
        r@ == decimal(n as nat),
{
    from_chars(&decimal_chars(n))
}

// ---------------------------------------------------------------- substrings

/// Whether `needle` stands in `text` at `at`.
pub open spec fn occurs_at(text: Seq<char>, needle: Seq<char>, at: int) -> bool {
    &&& 0 <= at
    &&& at + needle.len() <= text.len()
    &&& text.subrange(at, at + needle.len()) == needle
}

/// Whether `needle` stands somewhere in `text`.
pub open spec fn contains_text(text: Seq<char>, needle: Seq<char>) -> bool {
    exists|at: int| occurs_at(text, needle, at)
}

/// Whether `text` has `needle` at `at`.
fn matches_at(text: &Vec<char>, needle: &Vec<char>, at: usize) -> (r: bool)
    requires
        at + needle@.len() <= text@.len(),
    ensures
        r == occurs_at(text@, needle@, at as int),
{
    for j in 0..needle.len()
        invariant
            at + needle.len() <= text.len(),
            forall|k: int| 0 <= k < j ==> text@[at + k] == needle@[k],
    {
        if text[at + j] != needle[j] {
            assert(text@.subrange(at as int, at + needle@.len())[j as int] != needle@[j as int]);
            return false;
        }
    }
    assert(text@.subrange(at as int, at + needle@.len()) =~= needle@);
    true
}

/// Whether `needle` stands somewhere in `text`.
pub fn contains_chars(text: &Vec<char>, needle: &Vec<char>) -> (r: bool)
    ensures
        r == contains_text(text@, needle@),
{
    if needle.len() > text.len() {
        return false;
    }
    let last: usize = text.len() - needle.len();
    for at in 0..last
        invariant
            last + needle@.len() == text@.len(),
            forall|k: int| 0 <= k < at ==> !occurs_at(text@, needle@, k),
    {
        if matches_at(text, needle, at) {
            return true;
        }
    }
    matches_at(text, needle, last)
}

/// Whether `s` begins with `prefix`.
pub open spec fn begins_with(s: Seq<char>, prefix: Seq<char>) -> bool {
    prefix.len() <= s.len() && s.take(prefix.len() as int) == prefix
}

/// Whether `s` begins with `prefix`.
pub fn begins_with_chars(s: &Vec<char>, prefix: &str) -> (r: bool)
    ensures
        r == begins_with(s@, prefix@),
{
    let p = to_chars(prefix);
    if p.len() > s.len() {
        return false;
    }
    let head = sub_chars(s, 0, p.len());
    assert(head@ =~= s@.take(p@.len() as int));
    chars_eq(&head, &p)
}

// ---------------------------------------------------------------- ordering

/// The outcome of a comparison.
#[derive(Debug, Clone, Copy, PartialEq, Eq, Structural)]
pub enum Rank {
    Less,
    Equal,
    Greater,
}

/// The opposite outcome.
pub open spec fn flipped(r: Rank) -> Rank {
    match r {
        Rank::Less => Rank::Greater,
        Rank::Equal => Rank::Equal,
        Rank::Greater => Rank::Less,
    }
}

/// The opposite outcome.
pub fn flip(r: Rank) -> (o: Rank)
    ensures
        o == flipped(r),
{
    match r {
        Rank::Less => Rank::Greater,
        Rank::Equal => Rank::Equal,
        Rank::Greater => Rank::Less,
    }
}

/// Compare two numbers.
pub open spec fn rank_int(a: int, b: int) -> Rank {
    if a < b {
        Rank::Less
    } else if a == b {
        Rank::Equal
    } else {
        Rank::Greater
    }
}

/// Lexicographic comparison by code point.
pub open spec fn rank_text(a: Seq<char>, b: Seq<char>) -> Rank
    decreases a.len(),
{
    if a.len() == 0 || b.len() == 0 {
        rank_int(a.len() as int, b.len() as int)
    } else if a[0] != b[0] {
        rank_int(a[0] as int, b[0] as int)
    } else {
        rank_text(a.drop_first(), b.drop_first())
    }
}

/// Swapping the operands flips a text comparison, and only equal texts tie.
pub proof fn lemma_rank_text(a: Seq<char>, b: Seq<char>)
    ensures
        rank_text(b, a) == flipped(rank_text(a, b)),
        rank_text(a, b) == Rank::Equal <==> a == b,
    decreases a.len(),
{
    if a.len() == 0 || b.len() == 0 {
        if a.len() == b.len() {
            assert(a =~= b);
        }
    } else if a[0] == b[0] {
        lemma_rank_text(a.drop_first(), b.drop_first());
        if rank_text(a, b) == Rank::Equal {
            assert(a =~= seq![a[0]] + a.drop_first());
            assert(b =~= seq![b[0]] + b.drop_first());
        }
    }
}

/// Text comparison is transitive.
pub proof fn lemma_rank_text_transitive(a: Seq<char>, b: Seq<char>, c: Seq<char>)
    requires
        rank_text(a, b) != Rank::Greater,
        rank_text(b, c) != Rank::Greater,
    ensures
        rank_text(a, c) != Rank::Greater,
        rank_text(a, c) == Rank::Equal ==> rank_text(a, b) == Rank::Equal && rank_text(b, c)
            == Rank::Equal,
    decreases a.len(),
{
    if a.len() > 0 && b.len() > 0 && c.len() > 0 && a[0] == b[0] && b[0] == c[0] {
        lemma_rank_text_transitive(a.drop_first(), b.drop_first(), c.drop_first());
    }
}

/// Compare two texts by code point.
pub fn rank_chars(a: &Vec<char>, b: &Vec<char>) -> (r: Rank)
    ensures
        r == rank_text(a@, b@),
{
    let mut i: usize = 0;
    assert(a@.skip(0) =~= a@);
    assert(b@.skip(0) =~= b@);
    while i < a.len() && i < b.len()
        invariant
            i <= a@.len(),
            i <= b@.len(),
            rank_text(a@, b@) == rank_text(a@.skip(i as int), b@.skip(i as int)),
        decreases a@.len() - i,
    {
        let x: char = a[i];
        let y: char = b[i];
        assert(a@.skip(i as int)[0] == x);
        assert(b@.skip(i as int)[0] == y);
        if x != y {
            return if x < y {
                Rank::Less
            } else {
                Rank::Greater
            };
        }
        assert(a@.skip(i as int).drop_first() =~= a@.skip(i + 1));
        assert(b@.skip(i as int).drop_first() =~= b@.skip(i + 1));
        i += 1;
    }
    if a.len() < b.len() {
        Rank::Less
    } else if a.len() == b.len() {
        Rank::Equal
    } else {
        Rank::Greater
    }
}

/// Whether two texts agree up to `k`, and from there the first is over or has the smaller
/// character.
pub open spec fn parts_at(a: Seq<char>, b: Seq<char>, k: int) -> bool {
    &&& 0 <= k <= a.len()
    &&& k <= b.len()
    &&& forall|i: int| 0 <= i < k ==> #[trigger] a[i] == b[i]
    &&& k == a.len() || (k < b.len() && a[k] < b[k])
}

/// Whether `a` comes no later than `b` in a dictionary: at the first place where they differ,
/// `a` is over or has the smaller character.
pub open spec fn no_later(a: Seq<char>, b: Seq<char>) -> bool {
    exists|k: int| parts_at(a, b, k)
}

/// Texts are compared as in a dictionary.
pub proof fn law_texts_rank_as_in_a_dictionary(a: Seq<char>, b: Seq<char>)
    ensures
        rank_text(a, b) != Rank::Greater <==> no_later(a, b),
        rank_text(a, b) == Rank::Equal <==> a == b,
    decreases a.len(),
{
    lemma_rank_text(a, b);
    if a.len() == 0 {
        assert(parts_at(a, b, 0));
    } else if b.len() == 0 {
        assert forall|k: int| !parts_at(a, b, k) by {}
    } else if a[0] != b[0] {
        if a[0] < b[0] {
            assert(parts_at(a, b, 0));
        } else {
            assert forall|k: int| !parts_at(a, b, k) by {
                if k > 0 && k <= a.len() && k <= b.len() {
                    assert(a[0] != b[0]);
                }
            }
        }
    } else {
        let (x, y) = (a.drop_first(), b.drop_first());
        law_texts_rank_as_in_a_dictionary(x, y);
        if no_later(x, y) {
            let k = choose|k: int| parts_at(x, y, k);
            assert forall|i: int| 0 <= i < k + 1 implies #[trigger] a[i] == b[i] by {
                if i > 0 {
                    assert(x[i - 1] == y[i - 1]);
                }
            }
            if k < x.len() {
                assert(x[k] == a[k + 1] && y[k] == b[k + 1]);
            }
            assert(parts_at(a, b, k + 1));
        }
        if no_later(a, b) {
            let k = choose|k: int| parts_at(a, b, k);
            assert(k > 0);
            assert forall|i: int| 0 <= i < k - 1 implies #[trigger] x[i] == y[i] by {
                assert(a[i + 1] == b[i + 1]);
            }
            if k < a.len() {
                assert(x[k - 1] == a[k] && y[k - 1] == b[k]);
            }
            assert(parts_at(x, y, k - 1));
        }
    }
}

/// Trimming takes white space off both ends and nothing else, and leaves none there.
pub proof fn law_trimming_takes_only_white_space(s: Seq<char>) -> (r: (int, int))
    ensures
        0 <= r.0 <= r.1 <= s.len(),
        trim(s) == s.subrange(r.0, r.1),
        forall|i: int| 0 <= i < r.0 ==> is_space(#[trigger] s[i]),
        forall|i: int| r.1 <= i < s.len() ==> is_space(#[trigger] s[i]),
        r.0 < r.1 ==> !is_space(s[r.0]) && !is_space(s[r.1 - 1]),
        trim(trim(s)) == trim(s),
{
    let lo = lemma_trim_start(s);
    let rest = trim_start(s);
    let n = lemma_trim_end(rest);
    let hi = lo + n;
    assert(rest =~= s.skip(lo));
    assert(trim(s) =~= s.subrange(lo, hi));
    assert forall|i: int| hi <= i < s.len() implies is_space(#[trigger] s[i]) by {
        assert(rest[i - lo] == s[i]);
    }
    if n > 0 {
        assert(rest[n - 1] == s[hi - 1]);
        assert(rest[0] == s[lo]);
    }
    let t = trim(s);
    if t.len() > 0 {
        assert(t[0] == s[lo] && t.last() == s[hi - 1]);
    }
    lemma_trim_fixed(t);
    (lo, hi)
}

proof fn lemma_trim_start(s: Seq<char>) -> (k: int)
    ensures
        0 <= k <= s.len(),
        trim_start(s) == s.skip(k),
        forall|i: int| 0 <= i < k ==> is_space(#[trigger] s[i]),
        k < s.len() ==> !is_space(s[k]),
    decreases s.len(),
{
    if s.len() > 0 && is_space(s[0]) {
        let t = s.drop_first();
        let k = lemma_trim_start(t);
        assert(t.skip(k) =~= s.skip(k + 1));
        assert forall|i: int| 0 <= i < k + 1 implies is_space(#[trigger] s[i]) by {
            if i > 0 {
                assert(t[i - 1] == s[i]);
            }
        }
        if k < t.len() {
            assert(t[k] == s[k + 1]);
        }
        k + 1
    } else {
        assert(s.skip(0) =~= s);
        0
    }
}

proof fn lemma_trim_end(s: Seq<char>) -> (k: int)
    ensures
        0 <= k <= s.len(),
        trim_end(s) == s.take(k),
        forall|i: int| k <= i < s.len() ==> is_space(#[trigger] s[i]),
        k > 0 ==> !is_space(s[k - 1]),
    decreases s.len(),
{
    if s.len() > 0 && is_space(s.last()) {
        let t = s.drop_last();
        let k = lemma_trim_end(t);
        assert(t.take(k) =~= s.take(k));
        assert forall|i: int| k <= i < s.len() implies is_space(#[trigger] s[i]) by {
            if i < t.len() {
                assert(t[i] == s[i]);
            }
        }
        if k > 0 {
            assert(t[k - 1] == s[k - 1]);
        }
        k
    } else {
        assert(s.take(s.len() as int) =~= s);
        s.len() as int
    }
}

/// A number in decimal is read as that number, so that different numbers are written
/// differently; a written number has no leading zero.
pub proof fn law_decimal_reads_back(n: u64, m: u64)
    ensures
        parse_number(decimal(n as nat)) == Some(n),
        decimal(n as nat) == decimal(m as nat) ==> n == m,
        n > 0 ==> decimal(n as nat)[0] != '0',
{
    lemma_decimal(n as nat);
    lemma_decimal(m as nat);
    lemma_no_leading_zero(n as nat);
    assert(is_digit(decimal(n as nat)[0]));
}

proof fn lemma_no_leading_zero(n: nat)
    ensures
        decimal(n).len() > 0,
        n > 0 ==> decimal(n)[0] != '0',
    decreases n,
{
    if n >= 10 {
        lemma_no_leading_zero(n / 10);
        assert(decimal(n)[0] == decimal(n / 10)[0]);
    }
}

/// A line ends at a line feed, with or without a carriage return before it, and the next one
/// begins behind it.
pub proof fn law_line_ends_either_way(a: Seq<char>, b: Seq<char>)
    requires
        forall|i: int| 0 <= i < a.len() ==> #[trigger] a[i] != '\n',
        a.len() > 0 ==> a.last() != '\r',
    ensures
        lines(a + seq!['\n'] + b) == seq![a] + lines(b),
        lines(a + seq!['\r', '\n'] + b) == seq![a] + lines(b),
        lines(seq![]).len() == 0,
        a.len() > 0 ==> lines(a) == seq![a],
{
    let s = a + seq!['\n'] + b;
    let n = a.len() as int;
    assert forall|j: int| 0 <= j < n implies s[j] != '\n' by {
        assert(s[j] == a[j]);
    }
    lemma_first_of(s, '\n', n);
    assert(s.take(n) =~= a);
    assert(s.skip(n + 1) =~= b);
    let u = a + seq!['\r', '\n'] + b;
    assert forall|j: int| 0 <= j < n + 1 implies u[j] != '\n' by {
        if j < n {
            assert(u[j] == a[j]);
        }
    }
    lemma_first_of(u, '\n', n + 1);
    assert(u.take(n + 1).last() == '\r');
    assert(u.take(n + 1).drop_last() =~= a);
    assert(u.skip(n + 2) =~= b);
    lemma_first_of(a, '\n', n);
}

/// Splitting at a separator gives the parts between: the first ends at the first separator, and
/// the rest is split on.
pub proof fn law_fields_stand_between_separators(a: Seq<char>, rest: Seq<char>, c: char)
    requires
        forall|i: int| 0 <= i < a.len() ==> #[trigger] a[i] != c,
    ensures
        split_all(a + seq![c] + rest, c) == seq![a] + split_all(rest, c),
        split_all(a, c) == seq![a],
        split_once(a + seq![c] + rest, c) == Some((a, rest)),
        split_once(a, c) is None,
        rsplit_once(rest + seq![c] + a, c) == Some((rest, a)),
{
    crate::columns::lemma_split_head(a, rest, c);
    crate::columns::lemma_split_none(a, c);
    let s = a + seq![c] + rest;
    let n = a.len() as int;
    assert forall|j: int| 0 <= j < n implies s[j] != c by {
        assert(s[j] == a[j]);
    }
    lemma_first_of(s, c, n);
    lemma_first_of(a, c, n);
    assert(s.take(n) =~= a);
    assert(s.skip(n + 1) =~= rest);
    let u = rest + seq![c] + a;
    let m = rest.len() as int;
    assert forall|j: int| m < j < u.len() implies u[j] != c by {
        assert(u[j] == a[j - m - 1]);
    }
    lemma_last_of(u, c, m);
    assert(u.take(m) =~= rest);
    assert(u.skip(m + 1) =~= a);
}

/// Only the letters `A` to `Z` have another ASCII case: each becomes the letter 32 places on, and
/// every other character stays. Texts that differ only in that case are the same ignoring it.
pub proof fn law_ascii_case(c: char, a: Seq<char>, b: Seq<char>)
    ensures
        65 <= c as u32 <= 90 ==> ascii_lower(c) as u32 == c as u32 + 32,
        !(65 <= c as u32 <= 90) ==> ascii_lower(c) == c,
        same_ignoring_case(a, b) <==> a.len() == b.len() && forall|i: int|
            0 <= i < a.len() ==> ascii_lower(#[trigger] a[i]) == ascii_lower(b[i]),
{
    let (x, y) = (ascii_lower_all(a), ascii_lower_all(b));
    if same_ignoring_case(a, b) {
        assert(x.len() == a.len() && y.len() == b.len());
        assert forall|i: int| 0 <= i < a.len() implies ascii_lower(#[trigger] a[i]) == ascii_lower(
            b[i],
        ) by {
            assert(x[i] == ascii_lower(a[i]) && y[i] == ascii_lower(b[i]));
        }
    }
    if a.len() == b.len() && forall|i: int|
        0 <= i < a.len() ==> ascii_lower(#[trigger] a[i]) == ascii_lower(b[i]) {
        assert(x =~= y);
    }
}

/// Blanks, tabs and line ends are white space; what can be seen of ASCII is not.
pub proof fn law_white_space(c: char)
    ensures
        c == ' ' || c == '\t' || c == '\n' || c == '\r' ==> is_space(c),
        33 <= c as u32 <= 126 ==> !is_space(c),
        c as u32 == 0xa0 || c as u32 == 0x3000 ==> is_space(c),
{
}

} // verus!
