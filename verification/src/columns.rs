//! The four columns of the details view, how each one's width is decided, and the text
//! encoding in which a folder's layout is kept.
//!
//! Widths are 32-bit floating-point numbers, carried as their bits. Whole numbers are read
//! here; what any other number reads as is handed in.

use crate::text::{
    all_digits, chars_eq, decimal, decimal_chars, digits_value, from_chars, parse_number_chars,
    split_all, split_fields, sub_chars, texts, to_chars,
};
use vstd::prelude::*;

verus! {

/// One of the four details columns.
#[derive(Debug, Clone, Copy, PartialEq, Eq, Structural)]
pub enum Column {
    Name,
    Modified,
    Type,
    Size,
}

/// How a single column's width is determined. Two pinned widths are equal as numbers are.
#[derive(Debug, Clone, Copy)]
pub enum ColRule {
    /// Absorb the pane's leftover width.
    Fill,
    /// Fit to the wider of the column's content or its header label.
    Auto,
    /// The bits of a width in logical pixels that the user pinned.
    Fixed(u32),
}

/// Whether two rules are the same.
pub open spec fn same_rule(a: ColRule, b: ColRule) -> bool {
    match (a, b) {
        (ColRule::Fill, ColRule::Fill) => true,
        (ColRule::Auto, ColRule::Auto) => true,
        (ColRule::Fixed(x), ColRule::Fixed(y)) => same_width(x, y),
        _ => false,
    }
}

impl vstd::std_specs::cmp::PartialEqSpecImpl for ColRule {
    open spec fn obeys_eq_spec() -> bool {
        true
    }

    open spec fn eq_spec(&self, other: &ColRule) -> bool {
        same_rule(*self, *other)
    }
}

impl PartialEq for ColRule {
    fn eq(&self, other: &ColRule) -> (r: bool) {
        match (self, other) {
            (ColRule::Fill, ColRule::Fill) => true,
            (ColRule::Auto, ColRule::Auto) => true,
            (ColRule::Fixed(x), ColRule::Fixed(y)) => widths_equal(*x, *y),
            _ => false,
        }
    }
}

/// The sizing rules for all four columns of one folder.
#[derive(Debug, Clone, Copy)]
pub struct ColumnLayout {
    pub name: ColRule,
    pub modified: ColRule,
    pub type_: ColRule,
    pub size: ColRule,
}

/// Whether two layouts have the same rule for every column.
pub open spec fn same_layout(a: ColumnLayout, b: ColumnLayout) -> bool {
    &&& same_rule(a.name, b.name)
    &&& same_rule(a.modified, b.modified)
    &&& same_rule(a.type_, b.type_)
    &&& same_rule(a.size, b.size)
}

impl vstd::std_specs::cmp::PartialEqSpecImpl for ColumnLayout {
    open spec fn obeys_eq_spec() -> bool {
        true
    }

    open spec fn eq_spec(&self, other: &ColumnLayout) -> bool {
        same_layout(*self, *other)
    }
}

impl PartialEq for ColumnLayout {
    fn eq(&self, other: &ColumnLayout) -> (r: bool) {
        self.name == other.name && self.modified == other.modified && self.type_ == other.type_
            && self.size == other.size
    }
}

/// The layout of a fresh folder: the name fills, the rest fit their content.
pub open spec fn fresh_layout() -> ColumnLayout {
    ColumnLayout {
        name: ColRule::Fill,
        modified: ColRule::Auto,
        type_: ColRule::Auto,
        size: ColRule::Auto,
    }
}

impl Default for ColumnLayout {
    fn default() -> (r: ColumnLayout)
        ensures
            r == fresh_layout(),
    {
        ColumnLayout {
            name: ColRule::Fill,
            modified: ColRule::Auto,
            type_: ColRule::Auto,
            size: ColRule::Auto,
        }
    }
}

impl ColumnLayout {
    /// The rule of a column.
    pub open spec fn rule_of(self, col: Column) -> ColRule {
        match col {
            Column::Name => self.name,
            Column::Modified => self.modified,
            Column::Type => self.type_,
            Column::Size => self.size,
        }
    }

    /// With the rule of one column replaced.
    pub open spec fn with(self, col: Column, rule: ColRule) -> ColumnLayout {
        match col {
            Column::Name => ColumnLayout { name: rule, ..self },
            Column::Modified => ColumnLayout { modified: rule, ..self },
            Column::Type => ColumnLayout { type_: rule, ..self },
            Column::Size => ColumnLayout { size: rule, ..self },
        }
    }

    /// Whether this is the untouched default, which need not be kept.
    pub fn is_default(&self) -> (r: bool)
        ensures
            r == (*self == fresh_layout()),
    {
        *self == ColumnLayout::default()
    }

    /// The rule of a column.
    pub fn rule(&self, col: Column) -> (r: ColRule)
        ensures
            r == self.rule_of(col),
    {
        match col {
            Column::Name => self.name,
            Column::Modified => self.modified,
            Column::Type => self.type_,
            Column::Size => self.size,
        }
    }

    /// Replace the rule of a column.
    pub fn set(&mut self, col: Column, rule: ColRule)
        ensures
            *final(self) == old(self).with(col, rule),
    {
        match col {
            Column::Name => self.name = rule,
            Column::Modified => self.modified = rule,
            Column::Type => self.type_ = rule,
            Column::Size => self.size = rule,
        }
    }
}

// ---------------------------------------------------------------- widths

/// The exponent field of a width.
pub open spec fn exponent(bits: u32) -> int {
    (bits as int / 0x80_0000) % 0x100
}

/// Whether a width is negative.
pub open spec fn is_negative(bits: u32) -> bool {
    bits >= 0x8000_0000
}

/// Whether a width is a number at all, and not infinite.
pub open spec fn is_finite(bits: u32) -> bool {
    exponent(bits) != 255
}

/// The fraction field of a width.
pub open spec fn fraction(bits: u32) -> int {
    bits as int % 0x80_0000
}

/// Whether a width is not a number.
pub open spec fn is_nan(bits: u32) -> bool {
    exponent(bits) == 255 && fraction(bits) != 0
}

/// Whether a width is zero, of either sign.
pub open spec fn is_zero(bits: u32) -> bool {
    bits == 0 || bits == 0x8000_0000
}

/// Whether two widths are equal as numbers: the zeros are, and what is not a number equals
/// nothing.
pub open spec fn same_width(a: u32, b: u32) -> bool {
    !is_nan(a) && !is_nan(b) && (a == b || (is_zero(a) && is_zero(b)))
}

fn widths_equal(a: u32, b: u32) -> (r: bool)
    ensures
        r == same_width(a, b),
{
    let a_nan: bool = (a / 0x80_0000) % 0x100 == 255 && a % 0x80_0000 != 0;
    let b_nan: bool = (b / 0x80_0000) % 0x100 == 255 && b % 0x80_0000 != 0;
    let a_zero: bool = a == 0 || a == 0x8000_0000;
    let b_zero: bool = b == 0 || b == 0x8000_0000;
    !a_nan && !b_nan && (a == b || (a_zero && b_zero))
}

/// Two to the power `k`.
pub open spec fn power(k: int) -> int
    decreases k,
{
    if k <= 0 {
        1
    } else {
        2 * power(k - 1)
    }
}

/// The size of a width without its sign, rounded to a whole number with halves going up
/// and cut off at `limit`. A width is `m` times two to the power `e`.
pub open spec fn whole(m: int, e: int, limit: int) -> int {
    let n = if e >= 40 {
        if m == 0 {
            0
        } else {
            limit
        }
    } else if e >= 0 {
        m * power(e)
    } else if e < -24 {
        0
    } else {
        (m + power(-e - 1)) / power(-e)
    };
    if n > limit {
        limit
    } else {
        n
    }
}

/// A width rounded to whole pixels, halves away from zero, as a 64-bit number; not a
/// number reads as zero, and what does not fit is cut off.
pub open spec fn pixels(bits: u32) -> i64 {
    let e = exponent(bits);
    let limit = if is_negative(bits) {
        0x8000_0000_0000_0000int
    } else {
        0x7fff_ffff_ffff_ffffint
    };
    let n = if e == 255 {
        if fraction(bits) == 0 {
            limit
        } else {
            0
        }
    } else if e == 0 {
        whole(fraction(bits), -149, limit)
    } else {
        whole(fraction(bits) + 0x80_0000, e - 150, limit)
    };
    if is_negative(bits) {
        -n as i64
    } else {
        n as i64
    }
}

fn power_of_two(k: u32) -> (r: u64)
    requires
        k <= 39,
    ensures
        r == power(k as int),
        r <= 549755813888,
{
    let mut i: u32 = 0;
    let mut p: u64 = 1;
    while i < k
        invariant
            i <= k <= 39,
            p == power(i as int),
            p <= 549755813888,
            i < 39 ==> p <= 274877906944,
            i < 38 ==> p <= 137438953472,
            p <= power(i as int),
        decreases k - i,
    {
        proof {
            lemma_power_bound(i as int);
        }
        p = p * 2;
        i += 1;
        proof {
            lemma_power_bound(i as int);
        }
    }
    p
}

proof fn lemma_power_bound(i: int)
    requires
        0 <= i <= 39,
    ensures
        1 <= power(i) <= 549755813888,
        i < 39 ==> power(i) <= 274877906944,
        i < 38 ==> power(i) <= 137438953472,
    decreases i,
{
    reveal_with_fuel(power, 41);
    if i > 0 {
        lemma_power_bound(i - 1);
    }
}

fn whole_size(m: u64, e: i32, limit: u64) -> (r: u64)
    requires
        m <= 0xff_ffff,
        limit == 0x7fff_ffff_ffff_ffff || limit == 0x8000_0000_0000_0000,
    ensures
        r == whole(m as int, e as int, limit as int),
        r <= limit,
{
    if e >= 40 {
        if m == 0 {
            0
        } else {
            limit
        }
    } else if e >= 0 {
        let p: u64 = power_of_two(e as u32);
        assert(m * p <= 0xff_ffff * 549755813888) by (nonlinear_arith)
            requires
                0 <= m <= 0xff_ffff,
                0 <= p <= 549755813888,
        ;
        m * p
    } else if e < -24 {
        0
    } else {
        let k: u32 = (-e) as u32;
        let half: u64 = power_of_two(k - 1);
        let one: u64 = power_of_two(k);
        proof {
            lemma_power_bound(k as int);
        }
        let sum: u64 = m + half;
        assert(sum / one <= sum) by (nonlinear_arith)
            requires
                one >= 1,
                sum >= 0,
        ;
        sum / one
    }
}

/// A width in whole pixels.
pub fn round_width(bits: u32) -> (r: i64)
    ensures
        r == pixels(bits),
{
    let negative: bool = bits >= 0x8000_0000;
    let e: u32 = (bits / 0x80_0000) % 0x100;
    let f: u32 = bits % 0x80_0000;
    let limit: u64 = if negative {
        0x8000_0000_0000_0000
    } else {
        0x7fff_ffff_ffff_ffff
    };
    let n: u64 = if e == 255 {
        if f == 0 {
            limit
        } else {
            0
        }
    } else if e == 0 {
        whole_size(f as u64, -149, limit)
    } else {
        whole_size(f as u64 + 0x80_0000, e as i32 - 150, limit)
    };
    if negative {
        if n == 0x8000_0000_0000_0000 {
            i64::MIN
        } else {
            -(n as i64)
        }
    } else {
        n as i64
    }
}

/// A whole number in decimal, with a minus sign when it is negative.
pub open spec fn signed_decimal(n: int) -> Seq<char> {
    if n < 0 {
        seq!['-'] + decimal((-n) as nat)
    } else {
        decimal(n as nat)
    }
}

fn signed_chars(n: i64) -> (r: Vec<char>)
    ensures
        r@ == signed_decimal(n as int),
{
    if n >= 0 {
        decimal_chars(n as u64)
    } else {
        let size: u64 = if n == i64::MIN {
            0x8000_0000_0000_0000
        } else {
            (-n) as u64
        };
        let mut out: Vec<char> = Vec::new();
        out.push('-');
        let mut digits = decimal_chars(size);
        out.append(&mut digits);
        assert(out@ =~= seq!['-'] + decimal((-(n as int)) as nat));
        out
    }
}

// ---------------------------------------------------------------- whole widths

/// Whole numbers below this are widths without rounding: two to the power 24.
pub const WHOLE_LIMIT: u32 = 0x100_0000;

/// How often a whole number is doubled until it takes up all 24 bits of a width's
/// significand.
pub open spec fn doublings(n: int) -> int
    decreases 0x100_0000 - n,
{
    if n <= 0 || n >= 0x80_0000 {
        0
    } else {
        1 + doublings(2 * n)
    }
}

/// The bits of the width of `n` whole pixels, `n` below the limit.
pub open spec fn whole_bits(negative: bool, n: int) -> u32 {
    let sign = if negative {
        0x8000_0000int
    } else {
        0
    };
    let size = if n == 0 {
        0
    } else {
        (149 - doublings(n)) * 0x80_0000 + n * power(doublings(n))
    };
    (sign + size) as u32
}

/// Whether a width is a whole number of pixels below the limit: no fraction is left of its
/// significand.
pub open spec fn is_whole(bits: u32) -> bool {
    let e = exponent(bits) - 150;
    is_zero(bits) || (-23 <= e <= 0 && (fraction(bits) + 0x80_0000) % power(-e) == 0)
}

proof fn lemma_power_grows(i: int, j: int)
    requires
        0 <= i <= j,
    ensures
        1 <= power(i) <= power(j),
    decreases j,
{
    if i < j {
        lemma_power_grows(i, j - 1);
    } else if i > 0 {
        lemma_power_grows(i - 1, i - 1);
    }
}

/// A whole number is doubled into the range of significands.
proof fn lemma_doublings(n: int)
    requires
        1 <= n < 0x100_0000,
    ensures
        0 <= doublings(n) <= 23,
        0x80_0000 <= n * power(doublings(n)) < 0x100_0000,
    decreases 0x100_0000 - n,
{
    let j = doublings(n);
    if n < 0x80_0000 {
        lemma_doublings(2 * n);
        assert(j >= 1);
        assert(n * power(j) == 2 * n * power(j - 1)) by (nonlinear_arith)
            requires
                power(j) == 2 * power(j - 1),
        ;
        if j >= 24 {
            lemma_power_grows(24, j);
            lemma_power_of_24();
            assert(n * power(j) >= power(j)) by (nonlinear_arith)
                requires
                    n >= 1,
                    power(j) >= 1,
            ;
        }
    } else {
        assert(n * power(0) == n) by (nonlinear_arith)
            requires
                power(0) == 1,
        ;
    }
}

proof fn lemma_power_of_24()
    ensures
        power(24) == 0x100_0000,
{
    reveal_with_fuel(power, 26);
}

/// Only one number of doublings leads into that range.
proof fn lemma_doublings_at(n: int, j: int)
    requires
        n >= 1,
        j >= 0,
        0x80_0000 <= n * power(j) < 0x100_0000,
    ensures
        doublings(n) == j,
    decreases j,
{
    if j == 0 {
        assert(n * power(0) == n) by (nonlinear_arith)
            requires
                power(0) == 1,
        ;
    } else {
        lemma_power_grows(0, j - 1);
        let p = power(j - 1);
        assert(n * power(j) == 2 * n * p) by (nonlinear_arith)
            requires
                power(j) == 2 * p,
        ;
        assert(2 * n * p >= 2 * n) by (nonlinear_arith)
            requires
                n >= 1,
                p >= 1,
        ;
        lemma_doublings_at(2 * n, j - 1);
    }
}

/// The bits of the width of `n` whole pixels.
pub fn whole_width(negative: bool, n: u32) -> (r: u32)
    requires
        n < WHOLE_LIMIT,
    ensures
        r == whole_bits(negative, n as int),
{
    let sign: u32 = if negative {
        0x8000_0000
    } else {
        0
    };
    if n == 0 {
        return sign;
    }
    let mut m: u32 = n;
    let mut j: u32 = 0;
    proof {
        lemma_doublings(n as int);
        assert(n * power(0) == n) by (nonlinear_arith)
            requires
                power(0) == 1,
        ;
    }
    while m < 0x80_0000
        invariant
            1 <= n < 0x100_0000,
            1 <= m < 0x100_0000,
            m == n * power(j as int),
            doublings(n as int) == j + doublings(m as int),
            doublings(n as int) <= 23,
        decreases 0x100_0000 - m,
    {
        proof {
            lemma_doublings(2 * m);
            let k = j as int;
            assert(2 * (n * power(k)) == n * power(k + 1)) by (nonlinear_arith)
                requires
                    power(k + 1) == 2 * power(k),
            ;
        }
        m = 2 * m;
        j += 1;
    }
    sign + (149 - j) * 0x80_0000 + m
}

/// A whole width reads as the pixels it was made from.
pub proof fn law_whole_width_in_pixels(negative: bool, n: int)
    requires
        0 <= n < WHOLE_LIMIT,
    ensures
        is_whole(whole_bits(negative, n)),
        is_finite(whole_bits(negative, n)),
        pixels(whole_bits(negative, n)) == (if negative {
            -n
        } else {
            n
        }),
{
    let bits = whole_bits(negative, n);
    if n == 0 {
        lemma_power_grows(0, 1);
        assert(whole(0, -149, 0x8000_0000_0000_0000) == 0);
    } else {
        let j = doublings(n);
        lemma_doublings(n);
        let m = n * power(j);
        assert(exponent(bits) == 150 - j);
        assert(fraction(bits) == m - 0x80_0000);
        lemma_power_grows(0, j);
        lemma_unscaled(n, j);
        assert(whole(m, -j, 0x8000_0000_0000_0000) == n);
        assert(whole(m, -j, 0x7fff_ffff_ffff_ffff) == n);
    }
}

/// A significand that was doubled `j` times halves back to the whole number.
proof fn lemma_unscaled(n: int, j: int)
    requires
        0 <= j <= 23,
        1 <= n < 0x100_0000,
    ensures
        (n * power(j)) % power(j) == 0,
        forall|limit: int|
            limit >= 0x100_0000 ==> #[trigger] whole(n * power(j), -j, limit) == n,
{
    let p = power(j);
    lemma_power_grows(0, j);
    vstd::arithmetic::div_mod::lemma_mod_multiples_basic(n, p);
    if j == 0 {
        assert(n * p == n) by (nonlinear_arith)
            requires
                p == 1,
        ;
        assert(forall|limit: int|
            limit >= 0x100_0000 ==> #[trigger] whole(n * power(j), -j, limit) == n) by {
            assert(n * p * power(0) == n) by (nonlinear_arith)
                requires
                    n * p == n,
                    power(0) == 1,
            ;
        }
    } else {
        lemma_power_grows(0, j - 1);
        let h = power(j - 1);
        vstd::arithmetic::div_mod::lemma_fundamental_div_mod_converse(n * p + h, p, n, h);
    }
}

/// A whole width is the width of its pixels; a negative zero is equal to the zero that comes
/// back.
pub proof fn law_whole_width_is_its_pixels(bits: u32)
    requires
        is_whole(bits),
    ensures
        -WHOLE_LIMIT < pixels(bits) < WHOLE_LIMIT,
        same_width(bits_of_pixels(pixels(bits) as int), bits),
{
    let e = exponent(bits) - 150;
    let m = fraction(bits) + 0x80_0000;
    if is_zero(bits) {
        assert(exponent(bits) == 0 && fraction(bits) == 0);
        lemma_power_grows(0, 1);
        assert(pixels(bits) == 0);
        assert(whole_bits(false, 0) == 0);
    } else {
        let j = -e;
        let p = power(j);
        lemma_power_grows(0, j);
        let n = m / p;
        vstd::arithmetic::div_mod::lemma_fundamental_div_mod(m, p);
        assert(m == n * p) by (nonlinear_arith)
            requires
                m == p * n + 0,
        ;
        assert(1 <= n <= m) by (nonlinear_arith)
            requires
                m == n * p,
                m >= 1,
                p >= 1,
        ;
        lemma_unscaled(n, j);
        lemma_doublings_at(n, j);
        assert(whole(n * power(j), -j, 0x8000_0000_0000_0000) == n);
        assert(whole(n * power(j), -j, 0x7fff_ffff_ffff_ffff) == n);
        assert(pixels(bits) == (if is_negative(bits) {
            -n
        } else {
            n
        }));
        assert(bits as int == (if is_negative(bits) {
            0x8000_0000int
        } else {
            0
        }) + exponent(bits) * 0x80_0000 + fraction(bits));
        assert(whole_bits(is_negative(bits), n) == bits);
    }
}

/// The bits of the width of a whole number of pixels.
pub open spec fn bits_of_pixels(n: int) -> u32 {
    if n < 0 {
        whole_bits(true, -n)
    } else {
        whole_bits(false, n)
    }
}

/// The width that a field writes as a whole number below the limit; a minus sign may stand
/// before its digits.
pub open spec fn whole_field(field: Seq<char>) -> Option<u32> {
    let negative = field.len() > 0 && field[0] == '-';
    let digits = if negative {
        field.skip(1)
    } else {
        field
    };
    if all_digits(digits) && digits_value(digits) < WHOLE_LIMIT {
        Some(whole_bits(negative, digits_value(digits) as int))
    } else {
        None
    }
}

fn read_whole(field: &Vec<char>) -> (r: Option<u32>)
    ensures
        r == whole_field(field@),
{
    let negative: bool = field.len() > 0 && field[0] == '-';
    let digits: Vec<char> = if negative {
        sub_chars(field, 1, field.len())
    } else {
        sub_chars(field, 0, field.len())
    };
    proof {
        let d = if negative {
            field@.skip(1)
        } else {
            field@
        };
        assert(digits@ =~= d);
    }
    if digits.len() == 0 || digits[0] == '+' {
        return None;
    }
    match parse_number_chars(&digits) {
        Some(n) => if n < WHOLE_LIMIT as u64 {
            Some(whole_width(negative, n as u32))
        } else {
            None
        },
        None => None,
    }
}

// ---------------------------------------------------------------- encoding

/// How a rule is written.
pub open spec fn rule_text(rule: ColRule) -> Seq<char> {
    match rule {
        ColRule::Fill => "fill"@,
        ColRule::Auto => "auto"@,
        ColRule::Fixed(bits) => signed_decimal(pixels(bits) as int),
    }
}

/// How a layout is written: four fields in column order.
pub open spec fn layout_text(l: ColumnLayout) -> Seq<char> {
    rule_text(l.name) + seq![';'] + rule_text(l.modified) + seq![';'] + rule_text(l.type_) + seq![
        ';',
    ] + rule_text(l.size)
}

fn encode_rule(rule: ColRule) -> (r: String)
    ensures
        r@ == rule_text(rule),
{
    match rule {
        ColRule::Fill => "fill".to_string(),
        ColRule::Auto => "auto".to_string(),
        ColRule::Fixed(bits) => from_chars(&signed_chars(round_width(bits))),
    }
}

/// Encode a layout as four `;`-separated fields: `fill`, `auto`, or whole pixels.
pub fn encode_layout(layout: &ColumnLayout) -> (r: String)
    ensures
        r@ == layout_text(*layout),
{
    let mut s = encode_rule(layout.name);
    s.push(';');
    s.append(&encode_rule(layout.modified));
    s.push(';');
    s.append(&encode_rule(layout.type_));
    s.push(';');
    s.append(&encode_rule(layout.size));
    assert(s@ =~= layout_text(*layout));
    s
}

/// What a field says, given the width that it reads as, if it reads as a number. That width
/// counts only where the field is not simply a whole number below the limit.
pub open spec fn rule_from(field: Seq<char>, width: Option<u32>) -> Option<ColRule> {
    if field == "fill"@ {
        Some(ColRule::Fill)
    } else if field == "auto"@ {
        Some(ColRule::Auto)
    } else if whole_field(field) is Some {
        Some(ColRule::Fixed(whole_field(field)->0))
    } else {
        match width {
            Some(bits) => if is_finite(bits) {
                Some(ColRule::Fixed(bits))
            } else {
                None
            },
            None => None,
        }
    }
}

/// What an encoded layout says, given the width that each of its fields reads as.
pub open spec fn layout_from(text: Seq<char>, widths: Seq<Option<u32>>) -> Option<ColumnLayout> {
    let f = split_all(text, ';');
    if f.len() != 4 {
        None
    } else {
        match (
            rule_from(f[0], widths[0]),
            rule_from(f[1], widths[1]),
            rule_from(f[2], widths[2]),
            rule_from(f[3], widths[3]),
        ) {
            (Some(name), Some(modified), Some(type_), Some(size)) => Some(
                ColumnLayout { name, modified, type_, size },
            ),
            _ => None,
        }
    }
}

/// Read one field of a layout. A width that is no finite number is refused.
pub fn decode_rule(field: &str, width: Option<u32>) -> (r: Option<ColRule>)
    ensures
        r == rule_from(field@, width),
{
    let chars = to_chars(field);
    if chars_eq(&chars, &to_chars("fill")) {
        Some(ColRule::Fill)
    } else if chars_eq(&chars, &to_chars("auto")) {
        Some(ColRule::Auto)
    } else if let Some(bits) = read_whole(&chars) {
        Some(ColRule::Fixed(bits))
    } else {
        match width {
            Some(bits) => if (bits / 0x80_0000) % 0x100 != 255 {
                Some(ColRule::Fixed(bits))
            } else {
                None
            },
            None => None,
        }
    }
}

/// The fields of an encoded layout, whose widths [`decode_layout`] needs.
pub fn layout_fields(text: &str) -> (r: Vec<String>)
    ensures
        crate::text::strings(r@) == split_all(text@, ';'),
{
    let fields = split_fields(&to_chars(text), ';');
    let mut out: Vec<String> = Vec::new();
    assert(crate::text::strings(out@) =~= texts(fields@).take(0));
    for i in 0..fields.len()
        invariant
            crate::text::strings(out@) == texts(fields@).take(i as int),
    {
        let ghost prev = crate::text::strings(out@);
        out.push(from_chars(&fields[i]));
        assert(crate::text::strings(out@) =~= prev.push(fields@[i as int]@));
        assert(texts(fields@).take(i + 1) =~= texts(fields@).take(i as int).push(
            fields@[i as int]@,
        ));
    }
    assert(texts(fields@).take(fields@.len() as int) =~= texts(fields@));
    out
}

/// Read an encoded layout, given the width that each of its fields reads as. The wrong
/// number of fields and an unknown field are refused.
pub fn decode_layout(text: &str, widths: &Vec<Option<u32>>) -> (r: Option<ColumnLayout>)
    requires
        widths@.len() == split_all(text@, ';').len(),
    ensures
        r == layout_from(text@, widths@),
{
    let f = layout_fields(text);
    assert(crate::text::strings(f@).len() == f@.len());
    if f.len() != 4 {
        return None;
    }
    proof {
        assert(crate::text::strings(f@)[0] == f@[0]@);
        assert(crate::text::strings(f@)[1] == f@[1]@);
        assert(crate::text::strings(f@)[2] == f@[2]@);
        assert(crate::text::strings(f@)[3] == f@[3]@);
    }
    match (
        decode_rule(&f[0], widths[0]),
        decode_rule(&f[1], widths[1]),
        decode_rule(&f[2], widths[2]),
        decode_rule(&f[3], widths[3]),
    ) {
        (Some(name), Some(modified), Some(type_), Some(size)) => Some(
            ColumnLayout { name, modified, type_, size },
        ),
        _ => None,
    }
}

/// Setting a column's rule is seen in that column and in no other.
pub proof fn law_set_addresses_one_column(l: ColumnLayout, col: Column, other: Column, rule: ColRule)
    ensures
        l.with(col, rule).rule_of(col) == rule,
        other != col ==> l.with(col, rule).rule_of(other) == l.rule_of(other),
{
}

/// Whether a rule is written as a number that reads back: a pinned width has to round to
/// whole pixels below the limit.
pub open spec fn is_narrow(rule: ColRule) -> bool {
    rule matches ColRule::Fixed(bits) ==> -WHOLE_LIMIT < pixels(bits) < WHOLE_LIMIT
}

/// A rule with its pinned width rounded to whole pixels.
pub open spec fn rounded_rule(rule: ColRule) -> ColRule {
    match rule {
        ColRule::Fixed(bits) => ColRule::Fixed(bits_of_pixels(pixels(bits) as int)),
        _ => rule,
    }
}

/// A layout with its pinned widths rounded to whole pixels.
pub open spec fn rounded(l: ColumnLayout) -> ColumnLayout {
    ColumnLayout {
        name: rounded_rule(l.name),
        modified: rounded_rule(l.modified),
        type_: rounded_rule(l.type_),
        size: rounded_rule(l.size),
    }
}

/// Whether every pinned width of a layout rounds to whole pixels below the limit.
pub open spec fn all_narrow(l: ColumnLayout) -> bool {
    is_narrow(l.name) && is_narrow(l.modified) && is_narrow(l.type_) && is_narrow(l.size)
}

/// Whether every pinned width of a layout is a whole number of pixels below the limit.
pub open spec fn all_whole(l: ColumnLayout) -> bool {
    &&& l.name matches ColRule::Fixed(bits) ==> is_whole(bits)
    &&& l.modified matches ColRule::Fixed(bits) ==> is_whole(bits)
    &&& l.type_ matches ColRule::Fixed(bits) ==> is_whole(bits)
    &&& l.size matches ColRule::Fixed(bits) ==> is_whole(bits)
}

/// A layout of whole widths comes back equal from its encoding, whatever the fields would
/// read as otherwise.
pub proof fn law_layout_round_trip(l: ColumnLayout, widths: Seq<Option<u32>>)
    requires
        all_whole(l),
        widths.len() == 4,
    ensures
        layout_from(layout_text(l), widths) is Some,
        same_layout(layout_from(layout_text(l), widths)->0, l),
{
    lemma_rounded_is_same(l);
    law_layout_comes_back_rounded(l, widths);
}

/// Whole widths are not changed by rounding.
pub proof fn lemma_rounded_is_same(l: ColumnLayout)
    requires
        all_whole(l),
    ensures
        all_narrow(l),
        same_layout(rounded(l), l),
{
    lemma_rule_rounded(l.name);
    lemma_rule_rounded(l.modified);
    lemma_rule_rounded(l.type_);
    lemma_rule_rounded(l.size);
}

proof fn lemma_rule_rounded(rule: ColRule)
    requires
        rule matches ColRule::Fixed(bits) ==> is_whole(bits),
    ensures
        is_narrow(rule),
        same_rule(rounded_rule(rule), rule),
{
    if let ColRule::Fixed(bits) = rule {
        law_whole_width_is_its_pixels(bits);
    }
}

/// The fields of an encoded layout are its written rules.
proof fn lemma_layout_fields(l: ColumnLayout)
    ensures
        split_all(layout_text(l), ';') == seq![
            rule_text(l.name),
            rule_text(l.modified),
            rule_text(l.type_),
            rule_text(l.size),
        ],
{
    let a = rule_text(l.name);
    let b = rule_text(l.modified);
    let c = rule_text(l.type_);
    let d = rule_text(l.size);
    lemma_rule_text(l.name);
    lemma_rule_text(l.modified);
    lemma_rule_text(l.type_);
    lemma_rule_text(l.size);
    let cd = c + seq![';'] + d;
    let bcd = b + seq![';'] + cd;
    lemma_split_none(d, ';');
    lemma_split_head(c, d, ';');
    lemma_split_head(b, cd, ';');
    lemma_split_head(a, bcd, ';');
    assert(layout_text(l) =~= a + seq![';'] + bcd);
    assert(split_all(layout_text(l), ';') =~= seq![a, b, c, d]);
}

/// Any layout comes back from its encoding with its pinned widths rounded to whole pixels, as
/// long as these are below the limit.
pub proof fn law_layout_comes_back_rounded(l: ColumnLayout, widths: Seq<Option<u32>>)
    requires
        widths.len() == 4,
        all_narrow(l),
    ensures
        layout_from(layout_text(l), widths) == Some(rounded(l)),
{
    lemma_layout_fields(l);
    lemma_rule_read(l.name, widths[0]);
    lemma_rule_read(l.modified, widths[1]);
    lemma_rule_read(l.type_, widths[2]);
    lemma_rule_read(l.size, widths[3]);
}

/// A written rule holds no separator, no bar, no line end and no white space, and is not
/// empty.
pub proof fn lemma_rule_text(rule: ColRule)
    ensures
        rule_text(rule).len() > 0,
        forall|i: int|
            0 <= i < rule_text(rule).len() ==> {
                let c = #[trigger] rule_text(rule)[i];
                c != ';' && c != '|' && c != '\n' && c != '\r' && !crate::text::is_space(c)
            },
{
    reveal_strlit("fill");
    reveal_strlit("auto");
    if let ColRule::Fixed(bits) = rule {
        let n = pixels(bits) as int;
        let m = if n < 0 {
            (-n) as nat
        } else {
            n as nat
        };
        crate::text::lemma_decimal(m);
        assert forall|i: int| 0 <= i < rule_text(rule).len() implies {
            let c = #[trigger] rule_text(rule)[i];
            c != ';' && c != '|' && c != '\n' && c != '\r' && !crate::text::is_space(c)
        } by {
            let c = rule_text(rule)[i];
            if n < 0 {
                if i > 0 {
                    assert(c == decimal(m)[i - 1]);
                }
            } else {
                assert(c == decimal(m)[i]);
            }
        }
    }
}

proof fn lemma_rule_read(rule: ColRule, width: Option<u32>)
    requires
        is_narrow(rule),
    ensures
        rule_from(rule_text(rule), width) == Some(rounded_rule(rule)),
{
    reveal_strlit("fill");
    reveal_strlit("auto");
    assert("fill"@[0] == 'f');
    assert("auto"@[0] == 'a');
    if let ColRule::Fixed(bits) = rule {
        let n = pixels(bits) as int;
        let m = if n < 0 {
            (-n) as nat
        } else {
            n as nat
        };
        let t = rule_text(rule);
        crate::text::lemma_decimal(m);
        if n < 0 {
            assert(t[0] == '-');
            assert(t.skip(1) =~= decimal(m));
        } else {
            assert(crate::text::is_digit(decimal(m)[0]));
            assert(t[0] != '-');
        }
        assert(whole_field(t) == Some(bits_of_pixels(n)));
    }
}

/// Text without the separator is one field.
pub proof fn lemma_split_none(s: Seq<char>, c: char)
    requires
        forall|i: int| 0 <= i < s.len() ==> #[trigger] s[i] != c,
    ensures
        split_all(s, c) == seq![s],
{
    crate::text::lemma_first_of(s, c, s.len() as int);
}

/// The first field ends at the first separator.
pub proof fn lemma_split_head(a: Seq<char>, rest: Seq<char>, c: char)
    requires
        forall|i: int| 0 <= i < a.len() ==> #[trigger] a[i] != c,
    ensures
        split_all(a + seq![c] + rest, c) == seq![a] + split_all(rest, c),
{
    let s = a + seq![c] + rest;
    assert forall|j: int| 0 <= j < a.len() implies s[j] != c by {
        assert(s[j] == a[j]);
    }
    crate::text::lemma_first_of(s, c, a.len() as int);
    assert(s.take(a.len() as int) =~= a);
    assert(s.skip(a.len() as int + 1) =~= rest);
}

/// A width is rounded to the nearest whole pixel, halves away from zero: the significand `m` of
/// a finite width, times two to the power `e`, lies within half a pixel.
pub proof fn law_width_is_rounded_to_the_nearest_pixel(m: int, e: int, limit: int)
    requires
        0 <= m < 0x100_0000,
        -24 <= e < 0,
        limit >= 0x100_0000,
    ensures
        ({
            let n = whole(m, e, limit);
            let p = power(-e);
            &&& 2 * m < (2 * n + 1) * p
            &&& 2 * m >= (2 * n - 1) * p
        }),
{
    let k = -e;
    let p = power(k);
    let h = power(k - 1);
    assert(p == 2 * h);
    lemma_power_grows(0, k - 1);
    let n = (m + h) / p;
    assert(n * p <= m + h && m + h < (n + 1) * p && n <= m + h) by (nonlinear_arith)
        requires
            n == (m + h) / p,
            p >= 1,
            m + h >= 0,
    ;
    assert(n <= 0x100_0000) by (nonlinear_arith)
        requires
            n * p <= m + h,
            m < 0x100_0000,
            p == 2 * h,
            h >= 1,
    ;
    assert((2 * n + 1) * p == 2 * ((n + 1) * p) - p) by (nonlinear_arith);
    assert((2 * n - 1) * p == 2 * (n * p) - p) by (nonlinear_arith);
}

/// A layout is read only from four fields, each a word or a finite width: anything else is
/// refused as a whole.
pub proof fn law_malformed_layout_is_refused(
    text: Seq<char>,
    widths: Seq<Option<u32>>,
    field: Seq<char>,
    width: Option<u32>,
)
    ensures
        split_all(text, ';').len() != 4 ==> layout_from(text, widths) is None,
        layout_from(text, widths) matches Some(l) ==> {
            let f = split_all(text, ';');
            &&& rule_from(f[0], widths[0]) == Some(l.name)
            &&& rule_from(f[1], widths[1]) == Some(l.modified)
            &&& rule_from(f[2], widths[2]) == Some(l.type_)
            &&& rule_from(f[3], widths[3]) == Some(l.size)
        },
        rule_from("fill"@, width) == Some(ColRule::Fill),
        rule_from("auto"@, width) == Some(ColRule::Auto),
        rule_from(field, width) matches Some(ColRule::Fill) ==> field == "fill"@,
        rule_from(field, width) matches Some(ColRule::Auto) ==> field == "auto"@,
        rule_from(field, width) matches Some(ColRule::Fixed(bits)) ==> width == Some(bits)
            || whole_field(field) == Some(bits),
        whole_field(field) is None && (width is None || !is_finite(width->0)) && field != "fill"@
            && field != "auto"@ ==> rule_from(field, width) is None,
{
    reveal_strlit("fill");
    reveal_strlit("auto");
    assert("fill"@[0] == 'f' && "auto"@[0] == 'a');
}

} // verus!
