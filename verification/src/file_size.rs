use vstd::prelude::*;

use crate::text::{chars_to_string, dec_digit_char, dec_digit_val, dec_digits, dec_val,
    is_dec_digit, lemma_dec_digits_are_digits, lemma_dec_val_of_digits, lower_char, str_concat,
    str_to_chars, u64_to_dec_chars};

verus! {

pub const KB: u64 = 1024;

pub const MB: u64 = 1024 * 1024;

pub const GB: u64 = 1024 * 1024 * 1024;

// ---------------------------------------------------------------------------
// Formatting byte counts
// ---------------------------------------------------------------------------

/// Hundredths of a unit, rounded to nearest with ties going to the even
/// hundredth.
pub open spec fn hundredths(bytes: int, unit: int) -> int {
    let q = (bytes * 100) / unit;
    let r = (bytes * 100) % unit;
    if 2 * r > unit {
        q + 1
    } else if 2 * r == unit {
        if q % 2 == 0 {
            q
        } else {
            q + 1
        }
    } else {
        q
    }
}

/// The two-decimal rendering "whole.fraction" of `bytes` in `unit`s.
pub open spec fn scaled_chars(bytes: int, unit: int) -> Seq<char> {
    let h = hundredths(bytes, unit);
    dec_digits((h / 100) as nat) + seq!['.', dec_digit_char(((h / 10) % 10) as nat), dec_digit_char(
        (h % 10) as nat,
    )]
}

/// What `format_size` renders: a plain byte count below one KB, otherwise
/// two decimals of the largest binary unit the count reaches.
pub open spec fn format_size_spec(bytes: u64) -> Seq<char> {
    if bytes >= GB {
        scaled_chars(bytes as int, GB as int) + seq![' ', 'G', 'B']
    } else if bytes >= MB {
        scaled_chars(bytes as int, MB as int) + seq![' ', 'M', 'B']
    } else if bytes >= KB {
        scaled_chars(bytes as int, KB as int) + seq![' ', 'K', 'B']
    } else {
        dec_digits(bytes as nat) + seq![' ', 'b', 'y', 't', 'e', 's']
    }
}

/// Compute the rounded hundredths of `bytes / unit` for a binary unit.
fn hundredths_exec(bytes: u64, unit: u64) -> (h: u64)
    requires
        unit == KB || unit == MB || unit == GB,
    ensures
        h as int == hundredths(bytes as int, unit as int),
        h as int <= (bytes as int * 100) / (unit as int) + 1,
{
    let prod: u128 = bytes as u128 * 100;
    let u: u128 = unit as u128;
    let q: u128 = prod / u;
    let r: u128 = prod % u;
    proof {
        assert(q as int == (bytes as int * 100) / (unit as int));
        assert(r as int == (bytes as int * 100) % (unit as int));
        assert(prod <= 0xffff_ffff_ffff_ffff_u128 * 100);
        assert(q <= prod / 1024) by {
            vstd::arithmetic::div_mod::lemma_div_is_ordered_by_denominator(
                prod as int,
                1024,
                u as int,
            );
        }
        assert(q + 1 <= u64::MAX as u128);
    }
    let h: u128 = if 2 * r > u {
        q + 1
    } else if 2 * r == u {
        if q % 2 == 0 {
            q
        } else {
            q + 1
        }
    } else {
        q
    };
    h as u64
}

/// One decimal digit as a character.
fn digit_char(d: u64) -> (c: char)
    requires
        d < 10,
    ensures
        c == dec_digit_char(d as nat),
{
    let b: u8 = 48 + (d as u8);
    proof {
        assert((b as char) as u32 == b as u32);
    }
    b as char
}

/// Render a byte count for humans: `"{n} bytes"` below one KB, else two
/// decimals of KB, MB or GB, in binary (1024-based) units.
pub fn format_size(bytes: u64) -> (r: String)
    ensures
        r@ == format_size_spec(bytes),
{
    if bytes < KB {
        let mut v = u64_to_dec_chars(bytes);
        v.push(' ');
        v.push('b');
        v.push('y');
        v.push('t');
        v.push('e');
        v.push('s');
        let r = chars_to_string(&v);
        proof {
            assert(r@ =~= format_size_spec(bytes));
        }
        r
    } else {
        let unit: u64 = if bytes >= GB {
            GB
        } else if bytes >= MB {
            MB
        } else {
            KB
        };
        let h = hundredths_exec(bytes, unit);
        proof {
            vstd::arithmetic::div_mod::lemma_div_pos_is_pos(bytes as int * 100, unit as int);
        }
        let whole: u64 = h / 100;
        let f1: u64 = (h / 10) % 10;
        let f2: u64 = h % 10;
        let mut v = u64_to_dec_chars(whole);
        v.push('.');
        v.push(digit_char(f1));
        v.push(digit_char(f2));
        v.push(' ');
        if bytes >= GB {
            v.push('G');
        } else if bytes >= MB {
            v.push('M');
        } else {
            v.push('K');
        }
        v.push('B');
        let r = chars_to_string(&v);
        proof {
            assert(whole as int == hundredths(bytes as int, unit as int) / 100);
            assert(f1 as int == (hundredths(bytes as int, unit as int) / 10) % 10);
            assert(f2 as int == hundredths(bytes as int, unit as int) % 10);
            assert(r@ =~= format_size_spec(bytes));
        }
        r
    }
}

// ---------------------------------------------------------------------------
// Parsing size strings
// ---------------------------------------------------------------------------

/// The Unicode white-space characters: the ASCII spacing controls and
/// space, next line, no-break space, ogham space mark, the general
/// punctuation spaces, the line and paragraph separators, narrow no-break
/// space, medium mathematical space, and ideographic space.
pub open spec fn is_space_char(c: char) -> bool {
    let u = c as u32;
    (9 <= u <= 13) || u == 32 || u == 0x85 || u == 0xA0 || u == 0x1680 || (0x2000 <= u <= 0x200A)
        || u == 0x2028 || u == 0x2029 || u == 0x202F || u == 0x205F || u == 0x3000
}

/// The input with trailing white space removed.
pub open spec fn trim_end_spaces(s: Seq<char>) -> Seq<char>
    decreases s.len(),
{
    if s.len() > 0 && is_space_char(s.last()) {
        trim_end_spaces(s.drop_last())
    } else {
        s
    }
}

/// The input with leading white space removed.
pub open spec fn trim_start_spaces(s: Seq<char>) -> Seq<char>
    decreases s.len(),
{
    if s.len() > 0 && is_space_char(s.first()) {
        trim_start_spaces(s.drop_first())
    } else {
        s
    }
}

/// Each character ASCII-lowercased.
pub open spec fn lower_seq(s: Seq<char>) -> Seq<char>
    decreases s.len(),
{
    if s.len() == 0 {
        Seq::empty()
    } else {
        lower_seq(s.drop_last()).push(lower_char(s.last()))
    }
}

/// A size string as the parser normalizes it for reporting: trimmed of
/// surrounding white space, then lowercased — so inputs equal up to case
/// and padding are reported identically.
pub open spec fn normalized_input(s: Seq<char>) -> Seq<char> {
    lower_seq(trim_start_spaces(trim_end_spaces(s)))
}

/// The numeric characters of a size string: its digits and dots, in order.
pub open spec fn numeric_part(s: Seq<char>) -> Seq<char>
    decreases s.len(),
{
    if s.len() == 0 {
        Seq::empty()
    } else {
        let rest = numeric_part(s.drop_last());
        if is_dec_digit(s.last()) || s.last() == '.' {
            rest.push(s.last())
        } else {
            rest
        }
    }
}

/// The unit characters of a size string: everything that is neither numeric
/// nor whitespace, lowercased.
pub open spec fn unit_part(s: Seq<char>) -> Seq<char>
    decreases s.len(),
{
    if s.len() == 0 {
        Seq::empty()
    } else {
        let rest = unit_part(s.drop_last());
        if is_dec_digit(s.last()) || s.last() == '.' || is_space_char(s.last()) {
            rest
        } else {
            rest.push(lower_char(s.last()))
        }
    }
}

pub open spec fn dot_count(s: Seq<char>) -> int
    decreases s.len(),
{
    if s.len() == 0 {
        0
    } else {
        dot_count(s.drop_last()) + if s.last() == '.' {
            1int
        } else {
            0
        }
    }
}

pub open spec fn digit_count(s: Seq<char>) -> int
    decreases s.len(),
{
    if s.len() == 0 {
        0
    } else {
        digit_count(s.drop_last()) + if is_dec_digit(s.last()) {
            1int
        } else {
            0
        }
    }
}

/// A valid numeric part: at least one digit and at most one dot.
pub open spec fn numeric_valid(num: Seq<char>) -> bool {
    digit_count(num) >= 1 && dot_count(num) <= 1
}

/// The digits before the first dot.
pub open spec fn int_digits(num: Seq<char>) -> Seq<char>
    decreases num.len(),
{
    if num.len() == 0 {
        Seq::empty()
    } else if num[0] == '.' {
        Seq::empty()
    } else {
        seq![num[0]] + int_digits(num.drop_first())
    }
}

/// The digits after the first dot.
pub open spec fn frac_digits(num: Seq<char>) -> Seq<char>
    decreases num.len(),
{
    if num.len() == 0 {
        Seq::empty()
    } else if num[0] == '.' {
        num.drop_first()
    } else {
        frac_digits(num.drop_first())
    }
}

/// The multiplier of a (lowercased) unit: bytes, or binary KB, MB, GB.
pub open spec fn unit_mult(u: Seq<char>) -> Option<u64> {
    if u =~= Seq::<char>::empty() || u =~= seq!['b'] || u =~= seq!['b', 'y', 't', 'e', 's'] {
        Some(1u64)
    } else if u =~= seq!['k'] || u =~= seq!['k', 'b'] || u =~= seq!['k', 'i', 'b'] {
        Some(KB)
    } else if u =~= seq!['m'] || u =~= seq!['m', 'b'] || u =~= seq!['m', 'i', 'b'] {
        Some(MB)
    } else if u =~= seq!['g'] || u =~= seq!['g', 'b'] || u =~= seq!['g', 'i', 'b'] {
        Some(GB)
    } else {
        None
    }
}

pub open spec fn pow10(n: nat) -> int
    decreases n,
{
    if n == 0 {
        1
    } else {
        10 * pow10((n - 1) as nat)
    }
}

/// The value of the fractional digits, scaled to nine decimal places;
/// digits beyond the ninth are not read.
pub open spec fn frac_scaled9(frac: Seq<char>) -> int {
    if frac.len() >= 9 {
        dec_val(frac.subrange(0, 9)) as int
    } else {
        dec_val(frac) * pow10((9 - frac.len()) as nat)
    }
}

pub open spec fn min_int(a: int, b: int) -> int {
    if a < b {
        a
    } else {
        b
    }
}

/// Does the size string parse?
pub open spec fn parse_size_ok(s: Seq<char>) -> bool {
    numeric_valid(numeric_part(s)) && unit_mult(unit_part(s)) is Some
}

/// The parsed value: the numeric value (with up to nine fractional digits
/// read) times the unit, rounded down to whole bytes and stopping at the
/// largest representable count.
pub open spec fn parse_size_val(s: Seq<char>) -> int {
    let num = numeric_part(s);
    let m = unit_mult(unit_part(s)).unwrap() as int;
    let iv = dec_val(int_digits(num)) as int;
    let fv = frac_scaled9(frac_digits(num));
    min_int(iv * m + (fv * m) / pow10(9), u64::MAX as int)
}

pub open spec fn invalid_numeric_msg(s: Seq<char>) -> Seq<char> {
    "Invalid numeric value in size: "@ + normalized_input(s)
}

pub open spec fn unknown_unit_msg(s: Seq<char>) -> Seq<char> {
    "Unknown size unit: "@ + unit_part(s)
}

proof fn lemma_parts_space_prefix(s: Seq<char>)
    requires
        s.len() > 0,
        is_space_char(s.first()),
    ensures
        numeric_part(s.drop_first()) == numeric_part(s),
        unit_part(s.drop_first()) == unit_part(s),
    decreases s.len(),
{
    if s.len() == 1 {
        assert(s.drop_first() =~= Seq::<char>::empty());
        assert(s.drop_last() =~= Seq::<char>::empty());
        assert(s.last() == s.first());
    } else {
        assert(s.drop_last().first() == s.first());
        lemma_parts_space_prefix(s.drop_last());
        assert(s.drop_first().drop_last() =~= s.drop_last().drop_first());
        assert(s.drop_first().last() == s.last());
    }
}

proof fn lemma_parts_trim_end(s: Seq<char>)
    ensures
        numeric_part(trim_end_spaces(s)) == numeric_part(s),
        unit_part(trim_end_spaces(s)) == unit_part(s),
    decreases s.len(),
{
    if s.len() > 0 && is_space_char(s.last()) {
        lemma_parts_trim_end(s.drop_last());
    }
}

proof fn lemma_parts_trim_start(s: Seq<char>)
    ensures
        numeric_part(trim_start_spaces(s)) == numeric_part(s),
        unit_part(trim_start_spaces(s)) == unit_part(s),
    decreases s.len(),
{
    if s.len() > 0 && is_space_char(s.first()) {
        lemma_parts_space_prefix(s);
        lemma_parts_trim_start(s.drop_first());
    }
}

proof fn lemma_parts_lower(s: Seq<char>)
    ensures
        numeric_part(lower_seq(s)) == numeric_part(s),
        unit_part(lower_seq(s)) == unit_part(s),
    decreases s.len(),
{
    if s.len() > 0 {
        lemma_parts_lower(s.drop_last());
        let c = s.last();
        let lc = lower_char(c);
        if 65 <= c as u32 <= 90 {
            assert(((c as u32 + 32) as char) as u32 == c as u32 + 32);
        }
        assert(is_dec_digit(lc) == is_dec_digit(c));
        assert((lc == '.') == (c == '.'));
        assert(is_space_char(lc) == is_space_char(c));
        assert(lower_char(lc) == lc) by {
            if 65 <= lc as u32 <= 90 {
                assert(((lc as u32 + 32) as char) as u32 == lc as u32 + 32);
            }
        }
        assert(lower_seq(s).drop_last() =~= lower_seq(s.drop_last()));
        assert(lower_seq(s).last() == lc);
    }
}

/// Law: parsing a size ignores letter case and surrounding white space.
/// Two inputs with the same trimmed, lowercased form split into the same
/// numeric and unit parts, so they parse to the same value or fail with
/// the same error message.
pub proof fn lemma_parse_insensitive(s1: Seq<char>, s2: Seq<char>)
    requires
        normalized_input(s1) == normalized_input(s2),
    ensures
        numeric_part(s1) == numeric_part(s2),
        unit_part(s1) == unit_part(s2),
        parse_size_ok(s1) == parse_size_ok(s2),
        parse_size_ok(s1) ==> parse_size_val(s1) == parse_size_val(s2),
        invalid_numeric_msg(s1) == invalid_numeric_msg(s2),
        unknown_unit_msg(s1) == unknown_unit_msg(s2),
{
    lemma_parts_trim_end(s1);
    lemma_parts_trim_start(trim_end_spaces(s1));
    lemma_parts_lower(trim_start_spaces(trim_end_spaces(s1)));
    lemma_parts_trim_end(s2);
    lemma_parts_trim_start(trim_end_spaces(s2));
    lemma_parts_lower(trim_start_spaces(trim_end_spaces(s2)));
}

fn is_digit_exec(c: char) -> (r: bool)
    ensures
        r == is_dec_digit(c),
{
    let cu = c as u32;
    48 <= cu && cu <= 57
}

fn is_space_exec(c: char) -> (r: bool)
    ensures
        r == is_space_char(c),
{
    let cu = c as u32;
    (9 <= cu && cu <= 13) || cu == 32 || cu == 0x85 || cu == 0xA0 || cu == 0x1680 || (0x2000 <= cu
        && cu <= 0x200A) || cu == 0x2028 || cu == 0x2029 || cu == 0x202F || cu == 0x205F || cu
        == 0x3000
}

/// The trimmed, lowercased copy of a size string, for error reporting.
fn normalize_input(s: &str) -> (r: String)
    ensures
        r@ == normalized_input(s@),
{
    let mut t = str_to_chars(s);
    while t.len() > 0 && is_space_exec(t[t.len() - 1])
        invariant
            trim_end_spaces(t@) == trim_end_spaces(s@),
        decreases t@.len(),
    {
        proof {
            assert(t@.drop_last() =~= t@.subrange(0, t@.len() - 1));
        }
        t.pop();
    }
    proof {
        assert(trim_end_spaces(t@) == t@);
        assert(t@.skip(0) =~= t@);
    }
    let mut b: usize = 0;
    while b < t.len() && is_space_exec(t[b])
        invariant
            b <= t@.len(),
            trim_end_spaces(t@) == trim_end_spaces(s@),
            trim_end_spaces(t@) == t@,
            trim_start_spaces(t@.skip(b as int)) == trim_start_spaces(t@),
        decreases t@.len() - b,
    {
        proof {
            assert(t@.skip(b as int).first() == t@[b as int]);
            assert(t@.skip(b as int).drop_first() =~= t@.skip(b + 1));
        }
        b = b + 1;
    }
    proof {
        if b == t@.len() {
            assert(t@.skip(b as int).len() == 0);
        } else {
            assert(t@.skip(b as int).first() == t@[b as int]);
        }
        assert(trim_start_spaces(t@) == t@.skip(b as int));
        assert(t@.subrange(b as int, b as int) =~= Seq::<char>::empty());
    }
    let mut out: Vec<char> = Vec::new();
    let mut k = b;
    while k < t.len()
        invariant
            b <= k <= t@.len(),
            out@ == lower_seq(t@.subrange(b as int, k as int)),
        decreases t@.len() - k,
    {
        proof {
            assert(t@.subrange(b as int, k + 1 as int).drop_last() =~= t@.subrange(
                b as int,
                k as int,
            ));
            assert(t@.subrange(b as int, k + 1 as int).last() == t@[k as int]);
        }
        out.push(crate::text::lower_char_exec(t[k]));
        k = k + 1;
    }
    proof {
        assert(t@.subrange(b as int, t@.len() as int) =~= t@.skip(b as int));
    }
    chars_to_string(&out)
}

fn unit_mult_exec(u: &Vec<char>) -> (r: Option<u64>)
    ensures
        r == unit_mult(u@),
{
    if u.len() == 0 {
        proof {
            assert(u@ =~= Seq::<char>::empty());
        }
        return Some(1);
    }
    if u.len() == 1 {
        let c = u[0];
        proof {
            assert(u@ =~= seq![u@[0]]);
        }
        if c == 'b' {
            return Some(1);
        }
        if c == 'k' {
            return Some(KB);
        }
        if c == 'm' {
            return Some(MB);
        }
        if c == 'g' {
            return Some(GB);
        }
        return None;
    }
    if u.len() == 2 {
        let c = u[0];
        proof {
            assert(u@ =~= seq![u@[0], u@[1]]);
        }
        if u[1] == 'b' {
            if c == 'k' {
                return Some(KB);
            }
            if c == 'm' {
                return Some(MB);
            }
            if c == 'g' {
                return Some(GB);
            }
        }
        return None;
    }
    if u.len() == 3 {
        let c = u[0];
        proof {
            assert(u@ =~= seq![u@[0], u@[1], u@[2]]);
        }
        if u[1] == 'i' && u[2] == 'b' {
            if c == 'k' {
                return Some(KB);
            }
            if c == 'm' {
                return Some(MB);
            }
            if c == 'g' {
                return Some(GB);
            }
        }
        return None;
    }
    if u.len() == 5 {
        proof {
            assert(u@ =~= seq![u@[0], u@[1], u@[2], u@[3], u@[4]]);
        }
        if u[0] == 'b' && u[1] == 'y' && u[2] == 't' && u[3] == 'e' && u[4] == 's' {
            return Some(1);
        }
        return None;
    }
    None
}

proof fn lemma_split_at_dot(num: Seq<char>, d: int)
    requires
        0 <= d <= num.len(),
        forall|k: int| 0 <= k < d ==> num[k] != '.',
        d < num.len() ==> num[d] == '.',
    ensures
        int_digits(num) == num.subrange(0, d),
        frac_digits(num) == (if d < num.len() {
            num.subrange(d + 1, num.len() as int)
        } else {
            Seq::<char>::empty()
        }),
    decreases d,
{
    if num.len() == 0 {
        assert(num.subrange(0, d) =~= Seq::<char>::empty());
    } else if d == 0 {
        if num[0] == '.' {
            assert(num.subrange(0, 0) =~= Seq::<char>::empty());
            assert(num.drop_first() =~= num.subrange(1, num.len() as int));
        } else {
            assert(num.subrange(0, 0) =~= Seq::<char>::empty());
        }
    } else {
        lemma_split_at_dot(num.drop_first(), d - 1);
        assert(num.drop_first().subrange(0, d - 1) =~= num.subrange(1, d));
        assert(int_digits(num) =~= num.subrange(0, d));
        if d < num.len() {
            assert(num.drop_first().subrange(d, num.drop_first().len() as int) =~= num.subrange(
                d + 1,
                num.len() as int,
            ));
        }
    }
}

proof fn lemma_numeric_chars(s: Seq<char>)
    ensures
        forall|k: int|
            0 <= k < numeric_part(s).len() ==> is_dec_digit(#[trigger] numeric_part(s)[k])
                || numeric_part(s)[k] == '.',
    decreases s.len(),
{
    if s.len() > 0 {
        lemma_numeric_chars(s.drop_last());
        let rest = numeric_part(s.drop_last());
        if is_dec_digit(s.last()) || s.last() == '.' {
            assert forall|k: int| 0 <= k < numeric_part(s).len() implies is_dec_digit(
                #[trigger] numeric_part(s)[k],
            ) || numeric_part(s)[k] == '.' by {
                if k < rest.len() {
                    assert(numeric_part(s)[k] == rest[k]);
                } else {
                    assert(numeric_part(s)[k] == s.last());
                }
            }
        }
    }
}

proof fn lemma_digits_only(num: Seq<char>)
    requires
        forall|k: int| 0 <= k < num.len() ==> is_dec_digit(#[trigger] num[k]) || num[k] == '.',
        dot_count(num) <= 1,
    ensures
        forall|k: int| 0 <= k < int_digits(num).len() ==> is_dec_digit(#[trigger] int_digits(num)[k]),
        forall|k: int|
            0 <= k < frac_digits(num).len() ==> is_dec_digit(#[trigger] frac_digits(num)[k]),
    decreases num.len(),
{
    if num.len() > 0 {
        if num[0] == '.' {
            // the single dot is spent: the rest is all digits
            assert forall|k: int| 0 <= k < frac_digits(num).len() implies is_dec_digit(
                #[trigger] frac_digits(num)[k],
            ) by {
                assert(frac_digits(num) == num.drop_first());
                assert(num[k + 1] != '.') by {
                    if num[k + 1] == '.' {
                        lemma_dot_count_two(num, 0, k + 1);
                    }
                }
                assert(frac_digits(num)[k] == num[k + 1]);
            }
        } else {
            assert(forall|k: int|
                0 <= k < num.drop_first().len() ==> is_dec_digit(#[trigger] num.drop_first()[k])
                    || num.drop_first()[k] == '.');
            lemma_dot_count_drop_first(num);
            lemma_dot_count_nonneg(num.drop_first());
            lemma_digits_only(num.drop_first());
            assert forall|k: int| 0 <= k < int_digits(num).len() implies is_dec_digit(
                #[trigger] int_digits(num)[k],
            ) by {
                assert(int_digits(num) == seq![num[0]] + int_digits(num.drop_first()));
                if k > 0 {
                    assert(int_digits(num)[k] == int_digits(num.drop_first())[k - 1]);
                }
            }
            assert(frac_digits(num) == frac_digits(num.drop_first()));
        }
    }
}

proof fn lemma_dot_count_drop_first(s: Seq<char>)
    requires
        s.len() > 0,
    ensures
        dot_count(s) == dot_count(s.drop_first()) + (if s[0] == '.' {
            1int
        } else {
            0
        }),
    decreases s.len(),
{
    if s.len() == 1 {
        assert(s.drop_first() =~= Seq::<char>::empty());
        assert(s.drop_last() =~= Seq::<char>::empty());
        assert(s.last() == s[0]);
    } else {
        lemma_dot_count_drop_first(s.drop_last());
        assert(s.drop_last().drop_first() =~= s.drop_first().drop_last());
        assert(s.drop_first().last() == s.last());
        assert(s.drop_last()[0] == s[0]);
    }
}

proof fn lemma_dot_count_two(s: Seq<char>, a: int, b: int)
    requires
        0 <= a < b < s.len(),
        s[a] == '.',
        s[b] == '.',
    ensures
        dot_count(s) >= 2,
    decreases s.len(),
{
    lemma_dot_count_nonneg(s);
    if b == s.len() - 1 {
        assert(s.last() == '.');
        lemma_dot_count_one(s.drop_last(), a);
    } else {
        assert(s.drop_last()[a] == s[a]);
        assert(s.drop_last()[b] == s[b]);
        lemma_dot_count_two(s.drop_last(), a, b);
    }
}

proof fn lemma_dot_count_one(s: Seq<char>, a: int)
    requires
        0 <= a < s.len(),
        s[a] == '.',
    ensures
        dot_count(s) >= 1,
    decreases s.len(),
{
    lemma_dot_count_nonneg(s.drop_last());
    if a < s.len() - 1 {
        lemma_dot_count_one(s.drop_last(), a);
    }
}

proof fn lemma_dot_count_nonneg(s: Seq<char>)
    ensures
        dot_count(s) >= 0,
        digit_count(s) >= 0,
    decreases s.len(),
{
    if s.len() > 0 {
        lemma_dot_count_nonneg(s.drop_last());
    }
}

proof fn lemma_dec_val_bound(s: Seq<char>)
    requires
        forall|k: int| 0 <= k < s.len() ==> is_dec_digit(#[trigger] s[k]),
    ensures
        0 <= dec_val(s) < pow10(s.len()),
    decreases s.len(),
{
    if s.len() == 0 {
    } else {
        lemma_dec_val_bound(s.drop_last());
        assert(is_dec_digit(s.last()));
        assert(dec_digit_val(s.last()) <= 9);
        assert(dec_val(s) == dec_val(s.drop_last()) * 10 + dec_digit_val(s.last()));
        assert(pow10(s.len()) == 10 * pow10((s.len() - 1) as nat));
        assert(dec_val(s.drop_last()) * 10 + 9 < pow10(s.len())) by {
            assert(dec_val(s.drop_last()) as int <= pow10((s.len() - 1) as nat) - 1);
            assert((pow10((s.len() - 1) as nat) - 1) * 10 + 9 < 10 * pow10((s.len() - 1) as nat))
                by (nonlinear_arith)
                requires
                    pow10((s.len() - 1) as nat) >= 1,
            ;
            assert(dec_val(s.drop_last()) * 10 <= (pow10((s.len() - 1) as nat) - 1) * 10)
                by (nonlinear_arith)
                requires
                    dec_val(s.drop_last()) as int <= pow10((s.len() - 1) as nat) - 1,
            ;
        }
        lemma_pow10_pos(s.len());
    }
}

proof fn lemma_pow10_pos(n: nat)
    ensures
        pow10(n) >= 1,
    decreases n,
{
    if n > 0 {
        lemma_pow10_pos((n - 1) as nat);
    }
}

/// Read the value of a digit sequence, stopping at 2^64 (any count that
/// large is beyond every representable size anyway).
fn dec_val_capped(digits: &Vec<char>, from: usize, to: usize) -> (r: u128)
    requires
        from <= to <= digits@.len(),
        forall|k: int| from <= k < to ==> is_dec_digit(#[trigger] digits@[k]),
    ensures
        r as int == min_int(dec_val(digits@.subrange(from as int, to as int)) as int, 0x1_0000_0000_0000_0000),
{
    let cap: u128 = 0x1_0000_0000_0000_0000;
    let mut acc: u128 = 0;
    let mut i = from;
    proof {
        assert(digits@.subrange(from as int, from as int) =~= Seq::<char>::empty());
    }
    while i < to
        invariant
            from <= i <= to <= digits@.len(),
            cap == 0x1_0000_0000_0000_0000_u128,
            forall|k: int| from <= k < to ==> is_dec_digit(#[trigger] digits@[k]),
            acc as int == min_int(
                dec_val(digits@.subrange(from as int, i as int)) as int,
                0x1_0000_0000_0000_0000,
            ),
            acc <= 0x1_0000_0000_0000_0000,
        decreases to - i,
    {
        let c = digits[i];
        proof {
            assert(is_dec_digit(c));
        }
        let d: u128 = (c as u32 - 48) as u128;
        proof {
            assert(d as int == dec_digit_val(c));
            let pre = digits@.subrange(from as int, i as int);
            let post = digits@.subrange(from as int, i + 1 as int);
            assert(post.drop_last() =~= pre);
            assert(post.last() == c);
            assert(dec_val(post) == dec_val(pre) * 10 + dec_digit_val(c));
            if dec_val(pre) as int >= 0x1_0000_0000_0000_0000 {
                vstd::arithmetic::mul::lemma_mul_inequality(
                    0x1_0000_0000_0000_0000,
                    dec_val(pre) as int,
                    10,
                );
            }
        }
        let next = acc * 10 + d;
        acc = if next > cap {
            cap
        } else {
            next
        };
        i = i + 1;
    }
    acc
}

fn pow10_exec(n: u64) -> (r: u64)
    requires
        n <= 9,
    ensures
        r as int == pow10(n as nat),
{
    let mut r: u64 = 1;
    let mut k: u64 = 0;
    while k < n
        invariant
            k <= n <= 9,
            r as int == pow10(k as nat),
            r <= 1000000000,
        decreases n - k,
    {
        proof {
            lemma_pow10_pos(k as nat);
            assert(pow10((k + 1) as nat) == 10 * pow10(k as nat));
            lemma_pow10_le(k as nat);
        }
        r = r * 10;
        k = k + 1;
    }
    r
}

proof fn lemma_pow10_le(n: nat)
    requires
        n <= 8,
    ensures
        pow10(n) <= 100000000,
{
    assert(pow10(8) == 100000000) by {
        reveal_with_fuel(pow10, 9);
    }
    lemma_pow10_mono(n, 8);
}

/// Parse a size string: an optionally fractional number followed by an
/// optional unit (`b`/`bytes`, `k`/`kb`/`kib`, `m`/`mb`/`mib`,
/// `g`/`gb`/`gib`, any case; a bare number counts bytes). Whitespace is
/// ignored. A string without a readable number is reported back as an
/// error naming its trimmed, lowercased form; an unknown unit as an error
/// naming the unit — so inputs equal up to case and padding fail alike.
pub fn parse_size(size_str: &str) -> (r: Result<u64, String>)
    ensures
        parse_size_ok(size_str@) ==> (r matches Ok(v) && v as int == parse_size_val(size_str@)),
        !numeric_valid(numeric_part(size_str@)) ==> (r matches Err(m) && m@
            == invalid_numeric_msg(size_str@)),
        numeric_valid(numeric_part(size_str@)) && unit_mult(unit_part(size_str@)) is None ==> (
        r matches Err(m) && m@ == unknown_unit_msg(size_str@)),
{
    let chars = str_to_chars(size_str);
    let mut num: Vec<char> = Vec::new();
    let mut unit: Vec<char> = Vec::new();
    let mut i: usize = 0;
    proof {
        assert(chars@.subrange(0, 0) =~= Seq::<char>::empty());
    }
    while i < chars.len()
        invariant
            i <= chars@.len(),
            chars@ == size_str@,
            num@ == numeric_part(chars@.subrange(0, i as int)),
            unit@ == unit_part(chars@.subrange(0, i as int)),
        decreases chars@.len() - i,
    {
        let c = chars[i];
        proof {
            let pre = chars@.subrange(0, i as int);
            let post = chars@.subrange(0, i + 1 as int);
            assert(post.drop_last() =~= pre);
            assert(post.last() == c);
        }
        if is_digit_exec(c) || c == '.' {
            num.push(c);
        } else if !is_space_exec(c) {
            unit.push(crate::text::lower_char_exec(c));
        }
        i = i + 1;
    }
    proof {
        assert(chars@.subrange(0, chars@.len() as int) =~= chars@);
    }
    // validate the numeric part: at least one digit, at most one dot
    let mut dots: usize = 0;
    let mut digits: usize = 0;
    let mut k: usize = 0;
    proof {
        assert(num@.subrange(0, 0) =~= Seq::<char>::empty());
    }
    while k < num.len()
        invariant
            k <= num@.len(),
            dots as int == dot_count(num@.subrange(0, k as int)),
            digits as int == digit_count(num@.subrange(0, k as int)),
            dots <= k,
            digits <= k,
        decreases num@.len() - k,
    {
        let c = num[k];
        proof {
            let pre = num@.subrange(0, k as int);
            let post = num@.subrange(0, k + 1 as int);
            assert(post.drop_last() =~= pre);
            assert(post.last() == c);
        }
        if c == '.' {
            dots = dots + 1;
        }
        if is_digit_exec(c) {
            digits = digits + 1;
        }
        k = k + 1;
    }
    proof {
        assert(num@.subrange(0, num@.len() as int) =~= num@);
    }
    if digits == 0 || dots > 1 {
        let norm = normalize_input(size_str);
        let msg = str_concat("Invalid numeric value in size: ", norm.as_str());
        return Err(msg);
    }
    // the unit multiplier
    let m = match unit_mult_exec(&unit) {
        Some(m) => m,
        None => {
            let msg = str_concat("Unknown size unit: ", chars_to_string(&unit).as_str());
            return Err(msg);
        },
    };
    proof {
        assert(unit_mult(unit_part(size_str@)) == Some(m));
        assert(m == 1 || m == KB || m == MB || m == GB);
    }
    // split at the first dot
    let mut d: usize = 0;
    while d < num.len() && num[d] != '.'
        invariant
            d <= num@.len(),
            forall|k: int| 0 <= k < d ==> num@[k] != '.',
        decreases num@.len() - d,
    {
        d = d + 1;
    }
    proof {
        lemma_split_at_dot(num@, d as int);
        lemma_numeric_chars(size_str@);
        lemma_digits_only(num@);
        assert(int_digits(num@) == num@.subrange(0, d as int));
        assert forall|k: int| 0 <= k < d implies is_dec_digit(#[trigger] num@[k]) by {
            assert(num@[k] == int_digits(num@)[k]);
        }
    }
    let iv = dec_val_capped(&num, 0, d);
    // the fractional digits, scaled to nine places
    let fstart: usize = if d < num.len() {
        d + 1
    } else {
        num.len()
    };
    let flen: usize = num.len() - fstart;
    let ghost frac = frac_digits(num@);
    let fend: usize = if flen >= 9 {
        fstart + 9
    } else {
        num.len()
    };
    let ghost fseg = frac.subrange(0, (fend - fstart) as int);
    proof {
        if d < num@.len() {
            assert(frac == num@.subrange(d + 1, num@.len() as int));
        } else {
            assert(frac =~= num@.subrange(fstart as int, num@.len() as int));
        }
        assert(frac == num@.subrange(fstart as int, num@.len() as int));
        assert forall|k: int| fstart <= k < fend implies is_dec_digit(#[trigger] num@[k]) by {
            assert(num@[k] == frac[k - fstart]);
        }
        assert(fseg =~= num@.subrange(fstart as int, fend as int));
        assert forall|k: int| 0 <= k < fseg.len() implies is_dec_digit(#[trigger] fseg[k]) by {
            assert(fseg[k] == frac[k]);
        }
        lemma_dec_val_bound(fseg);
        lemma_pow10_le_full(fseg.len() as nat);
        lemma_pow10_le_full(9);
        if flen < 9 {
            assert(fseg =~= frac);
        }
    }
    let fv_read = dec_val_capped(&num, fstart, fend);
    proof {
        assert(fv_read as int == dec_val(fseg) as int);
        assert(fv_read < 1000000000);
    }
    let fv: u64;
    if flen >= 9 {
        fv = fv_read as u64;
        proof {
            assert(fseg =~= frac.subrange(0, 9));
            assert(fv as int == frac_scaled9(frac));
        }
    } else {
        let scale10 = pow10_exec(9 - (flen as u64));
        proof {
            lemma_pow10_pos((9 - flen) as nat);
            lemma_pow10_mul((flen) as nat, (9 - flen) as nat);
            assert(dec_val(frac) as int <= pow10(frac.len() as nat) - 1);
            vstd::arithmetic::mul::lemma_mul_inequality(
                dec_val(frac) as int,
                pow10(frac.len() as nat) - 1,
                pow10((9 - frac.len()) as nat),
            );
            vstd::arithmetic::mul::lemma_mul_is_distributive_sub_other_way(
                pow10((9 - frac.len()) as nat),
                pow10(frac.len() as nat),
                1,
            );
            vstd::arithmetic::mul::lemma_mul_nonnegative(
                dec_val(frac) as int,
                pow10((9 - frac.len()) as nat),
            );
            assert((dec_val(frac) * pow10((9 - frac.len()) as nat)) < pow10(9));
        }
        fv = (fv_read as u64) * scale10;
        proof {
            assert(fv as int == frac_scaled9(frac));
        }
    }
    proof {
        assert(fv as int == frac_scaled9(frac));
        assert(fv < 1000000000);
    }
    // combine: value * multiplier, fractional part rounded down
    let scale: u128 = 1000000000;
    proof {
        assert(iv <= 0x1_0000_0000_0000_0000_u128);
        assert(m as u128 <= 0x4000_0000_u128);
        vstd::arithmetic::mul::lemma_mul_upper_bound(
            iv as int,
            0x1_0000_0000_0000_0000,
            m as int,
            0x4000_0000,
        );
        vstd::arithmetic::mul::lemma_mul_upper_bound(fv as int, 1000000000, m as int, 0x4000_0000);
        vstd::arithmetic::mul::lemma_mul_nonnegative(fv as int, m as int);
        vstd::arithmetic::mul::lemma_mul_nonnegative(iv as int, m as int);
    }
    let total: u128 = iv * (m as u128) + ((fv as u128) * (m as u128)) / scale;
    let v: u64 = if total > u64::MAX as u128 {
        u64::MAX
    } else {
        total as u64
    };
    proof {
        lemma_pow10_le_full(9);
        let ivs = dec_val(int_digits(num@)) as int;
        let fvs = frac_scaled9(frac_digits(num@));
        let expected = min_int(ivs * (m as int) + (fvs * (m as int)) / pow10(9), u64::MAX as int);
        assert((fv as u128 * (m as u128)) as int == fvs * (m as int));
        assert((((fv as u128) * (m as u128)) as u128 / scale) as int == (fvs * (m as int)) / pow10(
            9,
        )) by {
            assert(((fv as u128) * (m as u128)) as int == fvs * (m as int));
            assert(scale as int == pow10(9));
        }
        if ivs < 0x1_0000_0000_0000_0000 {
            assert(iv as int == ivs);
            assert((iv * (m as u128)) as int == ivs * (m as int));
            assert(total as int == ivs * (m as int) + (fvs * (m as int)) / pow10(9));
            vstd::arithmetic::div_mod::lemma_div_pos_is_pos(fvs * (m as int), pow10(9));
            assert(v as int == expected);
        } else {
            // both sides stop at the largest representable count
            assert(iv == 0x1_0000_0000_0000_0000_u128);
            vstd::arithmetic::mul::lemma_mul_left_inequality(ivs, 1, m as int);
            assert(ivs * 1 == ivs);
            assert(ivs * (m as int) >= ivs);
            vstd::arithmetic::div_mod::lemma_div_pos_is_pos(fvs * (m as int), pow10(9));
            assert(expected == u64::MAX as int);
            vstd::arithmetic::mul::lemma_mul_left_inequality(iv as int, 1, m as int);
            assert(total >= 0x1_0000_0000_0000_0000_u128);
            assert(v as int == expected);
        }
    }
    Ok(v)
}

proof fn lemma_pow10_le_full(n: nat)
    requires
        n <= 9,
    ensures
        pow10(n) <= 1000000000,
        pow10(9) == 1000000000,
    decreases n,
{
    assert(pow10(9) == 1000000000) by {
        reveal_with_fuel(pow10, 10);
    }
    lemma_pow10_pos(n);
    if n < 9 {
        lemma_pow10_mono(n, 9);
    }
}

proof fn lemma_pow10_mono(a: nat, b: nat)
    requires
        a <= b,
    ensures
        pow10(a) <= pow10(b),
    decreases b,
{
    if a < b {
        lemma_pow10_mono(a, (b - 1) as nat);
        lemma_pow10_pos((b - 1) as nat);
    }
}

// ---------------------------------------------------------------------------
// The round trip: what format_size renders, parse_size reads back
// ---------------------------------------------------------------------------

proof fn lemma_parts_push(s: Seq<char>, c: char)
    ensures
        numeric_part(s.push(c)) == (if is_dec_digit(c) || c == '.' {
            numeric_part(s).push(c)
        } else {
            numeric_part(s)
        }),
        unit_part(s.push(c)) == (if is_dec_digit(c) || c == '.' || is_space_char(c) {
            unit_part(s)
        } else {
            unit_part(s).push(lower_char(c))
        }),
{
    assert(s.push(c).drop_last() =~= s);
    assert(s.push(c).last() == c);
}

proof fn lemma_counts_push(s: Seq<char>, c: char)
    ensures
        dot_count(s.push(c)) == dot_count(s) + (if c == '.' {
            1int
        } else {
            0
        }),
        digit_count(s.push(c)) == digit_count(s) + (if is_dec_digit(c) {
            1int
        } else {
            0
        }),
{
    assert(s.push(c).drop_last() =~= s);
    assert(s.push(c).last() == c);
}

proof fn lemma_all_digits_parts(s: Seq<char>)
    requires
        forall|k: int| 0 <= k < s.len() ==> is_dec_digit(#[trigger] s[k]),
    ensures
        numeric_part(s) == s,
        unit_part(s) == Seq::<char>::empty(),
        digit_count(s) == s.len(),
        dot_count(s) == 0,
    decreases s.len(),
{
    if s.len() > 0 {
        assert(is_dec_digit(s[s.len() - 1]));
        assert(is_dec_digit(s.last()));
        assert(forall|k: int|
            0 <= k < s.drop_last().len() ==> (#[trigger] s.drop_last()[k]) == s[k]);
        lemma_all_digits_parts(s.drop_last());
        assert(numeric_part(s) =~= s);
    }
}

/// Parse a rendering of the form "<digits>.00 <unit letter>B".
proof fn lemma_round_trip_scaled(n: u64, unit: u64, cu: char, cl: char)
    requires
        (unit == KB && cu == 'K' && cl == 'k') || (unit == MB && cu == 'M' && cl == 'm') || (unit
            == GB && cu == 'G' && cl == 'g'),
        n % unit == 0,
    ensures
        ({
            let s = scaled_chars(n as int, unit as int) + seq![' ', cu, 'B'];
            parse_size_ok(s) && parse_size_val(s) == n as int
        }),
{
    let w = n as int / unit as int;
    vstd::arithmetic::div_mod::lemma_fundamental_div_mod(n as int, unit as int);
    assert(n as int == unit as int * w);
    vstd::arithmetic::mul::lemma_mul_is_commutative(unit as int, w);
    assert(w >= 0) by {
        vstd::arithmetic::div_mod::lemma_div_pos_is_pos(n as int, unit as int);
    }
    // the rendering is "<digits of w>.00 <cu>B"
    assert(n as int * 100 == (w * 100) * (unit as int)) by {
        vstd::arithmetic::mul::lemma_mul_is_associative(w, 100, unit as int);
        vstd::arithmetic::mul::lemma_mul_is_commutative(w, unit as int);
        vstd::arithmetic::mul::lemma_mul_is_associative(unit as int, w, 100);
        vstd::arithmetic::mul::lemma_mul_is_commutative(unit as int, w * 100);
    }
    let h = hundredths(n as int, unit as int);
    assert(h == w * 100) by {
        vstd::arithmetic::div_mod::lemma_div_by_multiple(w * 100, unit as int);
        vstd::arithmetic::div_mod::lemma_mod_multiples_basic(w * 100, unit as int);
        vstd::arithmetic::mul::lemma_mul_nonnegative(w, 100);
    }
    assert(h / 100 == w) by {
        vstd::arithmetic::div_mod::lemma_div_by_multiple(w, 100);
    }
    assert(h / 10 == w * 10) by {
        assert(w * 100 == (w * 10) * 10) by {
            vstd::arithmetic::mul::lemma_mul_is_associative(w, 10, 10);
        }
        vstd::arithmetic::div_mod::lemma_div_by_multiple(w * 10, 10);
        vstd::arithmetic::mul::lemma_mul_nonnegative(w, 10);
    }
    assert((h / 10) % 10 == 0) by {
        vstd::arithmetic::div_mod::lemma_mod_multiples_basic(w, 10);
    }
    assert(h % 10 == 0) by {
        assert(w * 100 == (w * 10) * 10) by {
            vstd::arithmetic::mul::lemma_mul_is_associative(w, 10, 10);
        }
        vstd::arithmetic::div_mod::lemma_mod_multiples_basic(w * 10, 10);
    }
    assert(dec_digit_char(0) == '0');
    let wd = dec_digits(w as nat);
    let s = scaled_chars(n as int, unit as int) + seq![' ', cu, 'B'];
    assert(s =~= wd.push('.').push('0').push('0').push(' ').push(cu).push('B'));
    // split into numeric and unit parts, one character at a time
    lemma_dec_digits_are_digits(w as nat);
    lemma_all_digits_parts(wd);
    lemma_parts_push(wd, '.');
    lemma_parts_push(wd.push('.'), '0');
    lemma_parts_push(wd.push('.').push('0'), '0');
    lemma_parts_push(wd.push('.').push('0').push('0'), ' ');
    lemma_parts_push(wd.push('.').push('0').push('0').push(' '), cu);
    lemma_parts_push(wd.push('.').push('0').push('0').push(' ').push(cu), 'B');
    let num = numeric_part(s);
    assert(num == wd.push('.').push('0').push('0'));
    assert(lower_char(cu) == cl);
    assert(lower_char('B') == 'b');
    assert(unit_part(s) =~= seq![cl, 'b']);
    assert(unit_mult(unit_part(s)) == Some(unit));
    // the numeric part is valid: digits on both sides of one dot
    lemma_counts_push(wd, '.');
    lemma_counts_push(wd.push('.'), '0');
    lemma_counts_push(wd.push('.').push('0'), '0');
    assert(digit_count(num) == wd.len() + 2);
    assert(dot_count(num) == 1);
    assert(numeric_valid(num));
    assert(parse_size_ok(s));
    // the value: the whole digits before the dot, two zero decimals after
    assert(forall|k: int| 0 <= k < wd.len() ==> #[trigger] num[k] == wd[k]);
    assert(forall|k: int| 0 <= k < wd.len() ==> num[k] != '.');
    assert(num[wd.len() as int] == '.');
    lemma_split_at_dot(num, wd.len() as int);
    assert(int_digits(num) =~= wd);
    assert(frac_digits(num) =~= seq!['0', '0']);
    lemma_dec_val_of_digits(w as nat);
    assert(dec_val(frac_digits(num)) == 0) by {
        let z2 = seq!['0', '0'];
        assert(frac_digits(num) == z2);
        assert(z2.drop_last() =~= seq!['0']);
        assert(z2.last() == '0');
        assert(seq!['0'].drop_last() =~= Seq::<char>::empty());
        assert(seq!['0'].last() == '0');
        assert(dec_digit_val('0') == 0);
        assert(dec_val(Seq::<char>::empty()) == 0);
        assert(dec_val(seq!['0']) == 0);
        assert(dec_val(z2) == 0);
    }
    assert(frac_scaled9(frac_digits(num)) == 0) by {
        vstd::arithmetic::mul::lemma_mul_by_zero_is_zero(pow10(7));
    }
    assert((0 * unit as int) / pow10(9) == 0) by {
        lemma_pow10_pos(9);
        vstd::arithmetic::div_mod::lemma_div_of0(pow10(9));
    }
    assert(parse_size_val(s) == min_int(w * unit as int + 0, u64::MAX as int));
    assert(w * unit as int == n as int) by {
        vstd::arithmetic::mul::lemma_mul_is_commutative(unit as int, w);
    }
    assert(parse_size_val(s) == n as int);
}

/// Law: a rendered size parses back to exactly the byte count it came
/// from, whenever that count is a whole number of the unit shown: any
/// count below one KB, and any exact KB, MB or GB multiple within the
/// range where that unit is used.
pub proof fn lemma_parse_format_round_trip(n: u64)
    requires
        n < KB || (KB <= n < MB && n % KB == 0) || (MB <= n < GB && n % MB == 0) || (GB <= n && n
            % GB == 0),
    ensures
        parse_size_ok(format_size_spec(n)),
        parse_size_val(format_size_spec(n)) == n as int,
{
    if n < KB {
        let nd = dec_digits(n as nat);
        let s = format_size_spec(n);
        assert(s =~= nd.push(' ').push('b').push('y').push('t').push('e').push('s'));
        lemma_dec_digits_are_digits(n as nat);
        lemma_all_digits_parts(nd);
        lemma_parts_push(nd, ' ');
        lemma_parts_push(nd.push(' '), 'b');
        lemma_parts_push(nd.push(' ').push('b'), 'y');
        lemma_parts_push(nd.push(' ').push('b').push('y'), 't');
        lemma_parts_push(nd.push(' ').push('b').push('y').push('t'), 'e');
        lemma_parts_push(nd.push(' ').push('b').push('y').push('t').push('e'), 's');
        let num = numeric_part(s);
        assert(num == nd);
        assert(unit_part(s) =~= seq!['b', 'y', 't', 'e', 's']);
        assert(unit_mult(unit_part(s)) == Some(1u64));
        assert(digit_count(num) == nd.len() && dot_count(num) == 0);
        assert(numeric_valid(num));
        assert(forall|k: int| 0 <= k < num.len() ==> num[k] != '.');
        lemma_split_at_dot(num, num.len() as int);
        assert(int_digits(num) == num);
        assert(frac_digits(num) == Seq::<char>::empty());
        lemma_dec_val_of_digits(n as nat);
        assert(frac_scaled9(frac_digits(num)) == 0) by {
            vstd::arithmetic::mul::lemma_mul_by_zero_is_zero(pow10(9));
        }
        assert((0int * 1int) / pow10(9) == 0) by {
            lemma_pow10_pos(9);
            vstd::arithmetic::div_mod::lemma_div_of0(pow10(9));
        }
        assert(parse_size_val(s) == min_int(n as int * 1 + 0, u64::MAX as int));
        assert(parse_size_val(s) == n as int);
    } else if n < MB {
        lemma_round_trip_scaled(n, KB, 'K', 'k');
    } else if n < GB {
        lemma_round_trip_scaled(n, MB, 'M', 'm');
    } else {
        lemma_round_trip_scaled(n, GB, 'G', 'g');
    }
}

proof fn lemma_pow10_mul(a: nat, b: nat)
    ensures
        pow10(a) * pow10(b) == pow10(a + b),
    decreases a,
{
    if a == 0 {
    } else {
        lemma_pow10_mul((a - 1) as nat, b);
        assert(pow10(a) * pow10(b) == 10 * (pow10((a - 1) as nat) * pow10(b))) by (nonlinear_arith)
            requires
                pow10(a) == 10 * pow10((a - 1) as nat),
        ;
    }
}

} // verus!
