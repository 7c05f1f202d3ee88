//! Reading a 64-bit value from hexadecimal or decimal text, and writing it
//! back in its one canonical form.

use crate::chars::{
    char_digit_value, char_is_hex_digit, chars_of, digit_value, is_hex_digit, is_whitespace,
    trim_end, trim_range, trim_start, trimmed,
};
use vstd::arithmetic::power2::{lemma2_to64, lemma_pow2_adds, pow2};
use vstd::prelude::*;

verus! {

/// The numeral system in which the value is typed and shown.
#[derive(Clone, Copy, PartialEq, Eq, Structural, Debug)]
pub enum InputBase {
    Hex,
    Dec,
}

/// Hexadecimal text longer than this many digits loses its leading digits.
pub const HEX_DIGITS: usize = 16;

/// The radix of a base: 16 or 10.
pub open spec fn radix_of(base: InputBase) -> nat {
    match base {
        InputBase::Hex => 16,
        InputBase::Dec => 10,
    }
}

/// Whether `c` is a digit in the given radix.
pub open spec fn is_digit(c: char, radix: nat) -> bool {
    is_hex_digit(c) && digit_value(c) < radix
}

/// Whether `s` is made of digits of the given radix only.
pub open spec fn all_digits(s: Seq<char>, radix: nat) -> bool {
    forall|i: int| 0 <= i < s.len() ==> is_digit(#[trigger] s[i], radix)
}

/// The digits of the given radix in `s`, in order, everything else left out.
pub open spec fn digits_of(s: Seq<char>, radix: nat) -> Seq<char>
    decreases s.len(),
{
    if s.len() == 0 {
        s
    } else if is_digit(s.last(), radix) {
        digits_of(s.drop_last(), radix).push(s.last())
    } else {
        digits_of(s.drop_last(), radix)
    }
}

/// The number that a digit string writes in the given radix, most significant
/// digit first. The empty string writes 0.
pub open spec fn radix_value(digits: Seq<char>, radix: nat) -> nat
    decreases digits.len(),
{
    if digits.len() == 0 {
        0
    } else {
        radix_value(digits.drop_last(), radix) * radix + digit_value(digits.last())
    }
}

/// The last `n` items of `s`, or all of `s` where it has no more than `n`.
pub open spec fn last_items(s: Seq<char>, n: nat) -> Seq<char> {
    if s.len() > n {
        s.skip(s.len() - n)
    } else {
        s
    }
}

/// Whether `s` begins with `0x` or `0X`.
pub open spec fn has_hex_prefix(s: Seq<char>) -> bool {
    s.len() >= 2 && s[0] == '0' && (s[1] == 'x' || s[1] == 'X')
}

/// `s` without its `0x` or `0X` prefix, if it has one.
pub open spec fn without_hex_prefix(s: Seq<char>) -> Seq<char> {
    if has_hex_prefix(s) {
        s.skip(2)
    } else {
        s
    }
}

/// The hexadecimal digits that count in `s`: those of the trimmed text behind
/// its prefix, cut down to the last sixteen.
pub open spec fn hex_digits_read(s: Seq<char>) -> Seq<char> {
    last_items(digits_of(without_hex_prefix(trimmed(s)), 16), HEX_DIGITS as nat)
}

/// What hexadecimal text means: nothing where it holds no digit, else the
/// number written by its last sixteen digits.
pub open spec fn hex_meaning(s: Seq<char>) -> Option<u64> {
    let digits = hex_digits_read(s);
    if digits.len() == 0 {
        None
    } else {
        Some(radix_value(digits, 16) as u64)
    }
}

/// What decimal text means: nothing where it holds no digit or where its
/// digits write a number that 64 bits cannot hold, else that number.
pub open spec fn dec_meaning(s: Seq<char>) -> Option<u64> {
    let digits = digits_of(trimmed(s), 10);
    if digits.len() == 0 || radix_value(digits, 10) > u64::MAX {
        None
    } else {
        Some(radix_value(digits, 10) as u64)
    }
}

/// What text means in the given base.
pub open spec fn meaning(s: Seq<char>, base: InputBase) -> Option<u64> {
    match base {
        InputBase::Hex => hex_meaning(s),
        InputBase::Dec => dec_meaning(s),
    }
}

/// The character that writes the digit `d`: `0` to `9`, then `A` to `F`.
pub open spec fn digit_char(d: nat) -> char
    recommends
        d < 16,
{
    if d < 10 {
        ('0' as u32 + d) as char
    } else {
        ('A' as u32 + d - 10) as char
    }
}

/// The shortest way to write `v` in the given radix: no sign, no prefix, no
/// leading zero, and a single `0` for zero.
pub open spec fn radix_text(v: nat, radix: nat) -> Seq<char>
    recommends
        2 <= radix <= 16,
    decreases v,
    via radix_text_terminates
{
    if radix < 2 || v < radix {
        seq![digit_char(v)]
    } else {
        radix_text(v / radix, radix).push(digit_char(v % radix))
    }
}

#[via_fn]
proof fn radix_text_terminates(v: nat, radix: nat) {
    if radix >= 2 && v >= radix {
        vstd::arithmetic::div_mod::lemma_div_decreases(v as int, radix as int);
    }
}

/// The canonical text of a value in the given base.
pub open spec fn canonical_text(value: u64, base: InputBase) -> Seq<char> {
    radix_text(value as nat, radix_of(base))
}

/// Digits given least significant first, written most significant first.
pub open spec fn written_backwards(digits: Seq<u8>) -> Seq<char> {
    Seq::new(digits.len(), |k: int| digit_char(digits[digits.len() - 1 - k] as nat))
}

/// The digits of the given radix in `v[from..to]`.
pub fn collect_digits(v: &Vec<char>, from: usize, to: usize, radix: u8) -> (r: Vec<char>)
    requires
        from <= to <= v.len(),
        radix <= 16,
    ensures
        r@ == digits_of(v@.subrange(from as int, to as int), radix as nat),
        all_digits(r@, radix as nat),
{
    let mut out: Vec<char> = Vec::new();
    let mut i: usize = from;
    while i < to
        invariant
            from <= i <= to <= v.len(),
            out@ == digits_of(v@.subrange(from as int, i as int), radix as nat),
            all_digits(out@, radix as nat),
        decreases to - i,
    {
        let c: char = v[i];
        proof {
            let next = v@.subrange(from as int, i + 1);
            assert(next.drop_last() == v@.subrange(from as int, i as int));
            assert(next.last() == c);
        }
        if char_is_hex_digit(c) && char_digit_value(c) < radix {
            out.push(c);
        }
        i += 1;
    }
    out
}

/// The number written by the digits `d[from..]`, unless 64 bits cannot hold it.
pub fn digits_to_u64(d: &Vec<char>, from: usize, radix: u8) -> (r: Option<u64>)
    requires
        from <= d.len(),
        1 <= radix <= 16,
        all_digits(d@, radix as nat),
    ensures
        r is Some <==> radix_value(d@.skip(from as int), radix as nat) <= u64::MAX,
        r is Some ==> r->0 == radix_value(d@.skip(from as int), radix as nat),
{
    let ghost digits = d@.skip(from as int);
    let mut acc: u64 = 0;
    let mut i: usize = from;
    while i < d.len()
        invariant
            from <= i <= d.len(),
            1 <= radix <= 16,
            all_digits(d@, radix as nat),
            digits == d@.skip(from as int),
            acc == radix_value(digits.take(i - from), radix as nat),
        decreases d.len() - i,
    {
        let c: char = d[i];
        let digit: u64 = char_digit_value(c) as u64;
        proof {
            let next = digits.take(i + 1 - from);
            assert(next.drop_last() == digits.take(i - from));
            assert(next.last() == c);
            lemma_value_grows(digits, i + 1 - from, radix as nat);
        }
        if acc > (u64::MAX - digit) / (radix as u64) {
            assert(acc * radix + digit > u64::MAX) by (nonlinear_arith)
                requires
                    acc > (u64::MAX - digit) / (radix as int),
                    radix >= 1,
                    digit <= u64::MAX,
            ;
            return None;
        }
        assert(acc * radix + digit <= u64::MAX) by (nonlinear_arith)
            requires
                acc <= (u64::MAX - digit) / (radix as int),
                radix >= 1,
                digit <= u64::MAX,
        ;
        acc = acc * (radix as u64) + digit;
        i += 1;
    }
    assert(digits.take(d.len() - from) == digits);
    Some(acc)
}

/// Reads hexadecimal text. White space around the text, one `0x` or `0X` in
/// front of it and every character that is not a hexadecimal digit are passed
/// over; of more than sixteen digits the last sixteen count. Text without any
/// digit has no value.
pub fn parse_hex_to_u64(s: &str) -> (r: Option<u64>)
    ensures
        r == hex_meaning(s@),
        r is Some <==> hex_digits_read(s@).len() > 0,
{
    let v = chars_of(s);
    let (start, end) = trim_range(&v, 0, v.len());
    assert(v@.subrange(0, v.len() as int) == s@);
    let ghost text = trimmed(s@);
    let body: usize = if end - start >= 2 && v[start] == '0' && (v[start + 1] == 'x' || v[start
        + 1] == 'X') {
        start + 2
    } else {
        start
    };
    proof {
        assert(text.len() == end - start);
        assert(text[0] == v@[start as int] || text.len() == 0);
        if text.len() >= 2 {
            assert(text[1] == v@[start + 1]);
        }
        assert(without_hex_prefix(text) == v@.subrange(body as int, end as int));
    }
    let digits = collect_digits(&v, body, end, 16);
    if digits.len() == 0 {
        return None;
    }
    let from: usize = if digits.len() > HEX_DIGITS {
        digits.len() - HEX_DIGITS
    } else {
        0
    };
    proof {
        let kept = digits@.skip(from as int);
        assert(digits@.skip(0) == digits@);
        assert(kept == hex_digits_read(s@));
        lemma_hex_value_bound(kept);
        lemma2_to64();
        if kept.len() < 16 {
            vstd::arithmetic::power2::lemma_pow2_strictly_increases(4 * kept.len(), 64);
        }
    }
    digits_to_u64(&digits, from, 16)
}

/// Reads decimal text. White space and every other character that is not a
/// decimal digit are passed over. Text without any digit has no value, nor has
/// text whose digits write more than 64 bits hold.
pub fn parse_dec_to_u64(s: &str) -> (r: Option<u64>)
    ensures
        r == dec_meaning(s@),
{
    let v = chars_of(s);
    let (start, end) = trim_range(&v, 0, v.len());
    assert(v@.subrange(0, v.len() as int) == s@);
    if start == end {
        return None;
    }
    let digits = collect_digits(&v, start, end, 10);
    if digits.len() == 0 {
        return None;
    }
    assert(digits@.skip(0) == digits@);
    digits_to_u64(&digits, 0, 10)
}

/// Reads text in the given base.
pub fn parse_value(s: &str, base: InputBase) -> (r: Option<u64>)
    ensures
        r == meaning(s@, base),
{
    match base {
        InputBase::Hex => parse_hex_to_u64(s),
        InputBase::Dec => parse_dec_to_u64(s),
    }
}

/// The one-character string that writes the digit `d`.
pub fn digit_str(d: u8) -> (r: &'static str)
    requires
        d < 16,
    ensures
        r@ == seq![digit_char(d as nat)],
{
    proof {
        reveal_strlit("0");
        reveal_strlit("1");
        reveal_strlit("2");
        reveal_strlit("3");
        reveal_strlit("4");
        reveal_strlit("5");
        reveal_strlit("6");
        reveal_strlit("7");
        reveal_strlit("8");
        reveal_strlit("9");
        reveal_strlit("A");
        reveal_strlit("B");
        reveal_strlit("C");
        reveal_strlit("D");
        reveal_strlit("E");
        reveal_strlit("F");
    }
    let r = match d {
        0 => "0",
        1 => "1",
        2 => "2",
        3 => "3",
        4 => "4",
        5 => "5",
        6 => "6",
        7 => "7",
        8 => "8",
        9 => "9",
        10 => "A",
        11 => "B",
        12 => "C",
        13 => "D",
        14 => "E",
        _ => "F",
    };
    assert(r@ =~= seq![digit_char(d as nat)]);
    r
}

/// Writes `value` in the given radix, in the shortest form.
pub fn format_radix(value: u64, radix: u8) -> (r: String)
    requires
        2 <= radix <= 16,
    ensures
        r@ == radix_text(value as nat, radix as nat),
{
    let mut low: Vec<u8> = Vec::new();
    let mut rest: u64 = value;
    while rest >= radix as u64
        invariant
            2 <= radix <= 16,
            radix_text(value as nat, radix as nat) == radix_text(rest as nat, radix as nat)
                + written_backwards(low@),
            forall|k: int| 0 <= k < low.len() ==> low[k] < 16,
        decreases rest,
    {
        let ghost before = low@;
        low.push((rest % (radix as u64)) as u8);
        proof {
            let c = digit_char((rest % (radix as u64)) as nat);
            assert(written_backwards(low@) =~= seq![c] + written_backwards(before));
            assert(radix_text(rest as nat, radix as nat) == radix_text(
                (rest / (radix as u64)) as nat,
                radix as nat,
            ).push(c));
            assert(radix_text((rest / (radix as u64)) as nat, radix as nat).push(c)
                + written_backwards(before) =~= radix_text(
                (rest / (radix as u64)) as nat,
                radix as nat,
            ) + (seq![c] + written_backwards(before)));
        }
        rest = rest / (radix as u64);
    }
    let ghost before = low@;
    low.push(rest as u8);
    proof {
        assert(written_backwards(low@) =~= seq![digit_char(rest as nat)] + written_backwards(
            before,
        ));
        assert(radix_text(value as nat, radix as nat) =~= written_backwards(low@));
    }
    let mut out = String::new();
    let mut i: usize = low.len();
    while i > 0
        invariant
            i <= low.len(),
            forall|k: int| 0 <= k < low.len() ==> low[k] < 16,
            out@ == written_backwards(low@).take(low.len() - i),
        decreases i,
    {
        i -= 1;
        out.append(digit_str(low[i]));
        assert(out@ =~= written_backwards(low@).take(low.len() - i));
    }
    assert(written_backwards(low@).take(low.len() as int) == written_backwards(low@));
    out
}

/// Writes `value` in upper-case hexadecimal, without prefix or leading zeros.
pub fn format_hex(value: u64) -> (r: String)
    ensures
        r@ == canonical_text(value, InputBase::Hex),
{
    format_radix(value, 16)
}

/// Writes `value` in decimal, without separators or leading zeros.
pub fn format_dec(value: u64) -> (r: String)
    ensures
        r@ == canonical_text(value, InputBase::Dec),
{
    format_radix(value, 10)
}

/// Writes `value` in the given base.
pub fn format_value(value: u64, base: InputBase) -> (r: String)
    ensures
        r@ == canonical_text(value, base),
{
    match base {
        InputBase::Hex => format_hex(value),
        InputBase::Dec => format_dec(value),
    }
}

/// A digit string of `n` hexadecimal digits writes a number below `2^(4n)`.
pub proof fn lemma_hex_value_bound(digits: Seq<char>)
    requires
        all_digits(digits, 16),
    ensures
        radix_value(digits, 16) < pow2(4 * digits.len()),
    decreases digits.len(),
{
    if digits.len() == 0 {
        lemma2_to64();
    } else {
        let init = digits.drop_last();
        lemma_hex_value_bound(init);
        lemma_pow2_adds(4 * init.len(), 4);
        lemma2_to64();
        assert(digit_value(digits.last()) < 16);
        assert(4 * digits.len() == 4 * init.len() + 4);
        assert(radix_value(init, 16) * 16 + 16 <= pow2(4 * init.len()) * 16) by (nonlinear_arith)
            requires
                radix_value(init, 16) < pow2(4 * init.len()),
        ;
    }
}

/// A digit string writes no less than any string it begins with.
pub proof fn lemma_value_grows(digits: Seq<char>, n: int, radix: nat)
    requires
        0 <= n <= digits.len(),
        radix >= 1,
    ensures
        radix_value(digits.take(n), radix) <= radix_value(digits, radix),
    decreases digits.len(),
{
    if n == digits.len() {
        assert(digits.take(n) == digits);
    } else {
        let init = digits.drop_last();
        lemma_value_grows(init, n, radix);
        assert(init.take(n) == digits.take(n));
        assert(radix_value(init, radix) <= radix_value(init, radix) * radix) by (nonlinear_arith)
            requires
                radix >= 1,
        ;
    }
}

/// The digits picked out of text are no more than the text holds, and as
/// many only where the text is digits throughout.
pub proof fn lemma_digits_of_len(s: Seq<char>, radix: nat)
    ensures
        digits_of(s, radix).len() <= s.len(),
        digits_of(s, radix).len() == s.len() <==> all_digits(s, radix),
        all_digits(s, radix) ==> digits_of(s, radix) == s,
    decreases s.len(),
{
    if s.len() > 0 {
        let init = s.drop_last();
        lemma_digits_of_len(init, radix);
        if all_digits(s, radix) {
            assert forall|i: int| 0 <= i < init.len() implies is_digit(#[trigger] init[i], radix) by {
                assert(init[i] == s[i]);
            }
            assert(init.push(s.last()) =~= s);
        }
        if digits_of(s, radix).len() == s.len() {
            assert forall|i: int| 0 <= i < s.len() implies is_digit(#[trigger] s[i], radix) by {
                if i < init.len() {
                    assert(init[i] == s[i]);
                }
            }
        }
    }
}

/// The digits picked out of any text are digits.
pub proof fn lemma_digits_of_are_digits(s: Seq<char>, radix: nat)
    ensures
        all_digits(digits_of(s, radix), radix),
    decreases s.len(),
{
    if s.len() > 0 {
        lemma_digits_of_are_digits(s.drop_last(), radix);
    }
}

/// The digits of two texts joined are the digits of the one, then those of
/// the other.
pub proof fn lemma_digits_of_add(a: Seq<char>, b: Seq<char>, radix: nat)
    ensures
        digits_of(a + b, radix) == digits_of(a, radix) + digits_of(b, radix),
    decreases b.len(),
{
    if b.len() == 0 {
        assert(a + b =~= a);
        assert(digits_of(a, radix) + digits_of(b, radix) =~= digits_of(a, radix));
    } else {
        lemma_digits_of_add(a, b.drop_last(), radix);
        assert((a + b).drop_last() =~= a + b.drop_last());
        assert((a + b).last() == b.last());
        if is_digit(b.last(), radix) {
            assert((digits_of(a, radix) + digits_of(b.drop_last(), radix)).push(b.last())
                =~= digits_of(a, radix) + digits_of(b.drop_last(), radix).push(b.last()));
        }
    }
}

/// Text that neither begins nor ends with white space is its own trimmed form.
pub proof fn lemma_trimmed_is_fixed(s: Seq<char>)
    requires
        s.len() == 0 || (!is_whitespace(s[0]) && !is_whitespace(s.last())),
    ensures
        trimmed(s) == s,
{
}

/// Trimming the start takes no digit away.
pub proof fn lemma_trim_start_keeps_digits(s: Seq<char>, radix: nat)
    requires
        radix <= 16,
    ensures
        digits_of(trim_start(s), radix) == digits_of(s, radix),
    decreases s.len(),
{
    if s.len() > 0 && is_whitespace(s[0]) {
        let head = seq![s[0]];
        lemma_trim_start_keeps_digits(s.drop_first(), radix);
        lemma_digits_of_add(head, s.drop_first(), radix);
        assert(head + s.drop_first() =~= s);
        assert(head.drop_last() =~= Seq::<char>::empty());
        assert(digits_of(head.drop_last(), radix) =~= Seq::<char>::empty());
        assert(digits_of(head, radix) + digits_of(s.drop_first(), radix) =~= digits_of(
            s.drop_first(),
            radix,
        ));
    }
}

/// Trimming the end takes no digit away.
pub proof fn lemma_trim_end_keeps_digits(s: Seq<char>, radix: nat)
    requires
        radix <= 16,
    ensures
        digits_of(trim_end(s), radix) == digits_of(s, radix),
    decreases s.len(),
{
    if s.len() > 0 && is_whitespace(s.last()) {
        lemma_trim_end_keeps_digits(s.drop_last(), radix);
    }
}

/// Trimming takes no digit away.
pub proof fn lemma_trim_keeps_digits(s: Seq<char>, radix: nat)
    requires
        radix <= 16,
    ensures
        digits_of(trimmed(s), radix) == digits_of(s, radix),
{
    lemma_trim_start_keeps_digits(s, radix);
    lemma_trim_end_keeps_digits(trim_start(s), radix);
}

/// A string of digits is its own trimmed form and has no prefix.
pub proof fn lemma_digits_are_bare(d: Seq<char>, radix: nat)
    requires
        radix <= 16,
        all_digits(d, radix),
    ensures
        trimmed(d) == d,
        !has_hex_prefix(d),
        digits_of(d, radix) == d,
{
    lemma_digits_of_len(d, radix);
    if d.len() > 0 {
        assert(is_digit(d[0], radix));
        assert(is_digit(d.last(), radix));
        lemma_trimmed_is_fixed(d);
    }
    if d.len() >= 2 {
        assert(is_digit(d[1], radix));
    }
}

/// Characters that are no digits do not count: text means what its digits
/// alone mean. In hexadecimal this holds of text without a prefix; behind a
/// prefix at least one digit has to follow, which the prefix's own `0` is not.
pub proof fn lemma_noise_is_ignored(s: Seq<char>, base: InputBase)
    requires
        base == InputBase::Hex ==> !has_hex_prefix(trimmed(s)),
    ensures
        meaning(s, base) == meaning(digits_of(s, radix_of(base)), base),
{
    let radix = radix_of(base);
    let d = digits_of(s, radix);
    lemma_trim_keeps_digits(s, radix);
    lemma_digits_of_are_digits(s, radix);
    lemma_digits_are_bare(d, radix);
}

/// Hexadecimal digits, at least one, have a value with or without a prefix
/// in front of them, and the same value either way.
pub proof fn lemma_hex_text_has_value(digits: Seq<char>, letter: char)
    requires
        digits.len() >= 1,
        all_digits(digits, 16),
        letter == 'x' || letter == 'X',
    ensures
        hex_meaning(digits) == Some(radix_value(last_items(digits, 16), 16) as u64),
        hex_meaning(seq!['0', letter] + digits) == hex_meaning(digits),
{
    let prefixed = seq!['0', letter] + digits;
    lemma_digits_are_bare(digits, 16);
    assert(prefixed[0] == '0' && prefixed[1] == letter);
    assert(prefixed.last() == digits.last());
    assert(is_digit(digits.last(), 16));
    lemma_trimmed_is_fixed(prefixed);
    assert(prefixed.skip(2) =~= digits);
}

/// The last `n` hexadecimal digits of a string write the low `4n` bits of the
/// number that the whole string writes.
pub proof fn lemma_last_digits_are_low_bits(digits: Seq<char>, n: nat)
    requires
        all_digits(digits, 16),
    ensures
        radix_value(last_items(digits, n), 16) == radix_value(digits, 16) % pow2(4 * n),
    decreases digits.len(),
{
    lemma2_to64();
    vstd::arithmetic::power2::lemma_pow2_pos(4 * n);
    if digits.len() <= n {
        lemma_hex_value_bound(digits);
        if digits.len() < n {
            vstd::arithmetic::power2::lemma_pow2_strictly_increases(4 * digits.len(), 4 * n);
        }
        vstd::arithmetic::div_mod::lemma_small_mod(radix_value(digits, 16), pow2(4 * n));
    } else if n == 0 {
        assert(last_items(digits, n) =~= Seq::<char>::empty());
    } else {
        let init = digits.drop_last();
        let m = (n - 1) as nat;
        let low = pow2(4 * m);
        let c = digit_value(digits.last());
        let a = radix_value(init, 16);
        lemma_last_digits_are_low_bits(init, m);
        assert(last_items(digits, n).drop_last() =~= last_items(init, m));
        assert(last_items(digits, n).last() == digits.last());
        assert(radix_value(last_items(digits, n), 16) == (a % low) * 16 + c);
        lemma_pow2_adds(4 * m, 4);
        assert(4 * m + 4 == 4 * n);
        vstd::arithmetic::power2::lemma_pow2_pos(4 * m);
        vstd::arithmetic::div_mod::lemma_fundamental_div_mod(a as int, low as int);
        vstd::arithmetic::div_mod::lemma_mod_bound(a as int, low as int);
        assert(is_digit(digits.last(), 16));
        let q = a / low;
        let r = a % low;
        assert(a * 16 + c == q * (low * 16) + (r * 16 + c)) by (nonlinear_arith)
            requires
                a == low * q + r,
        ;
        assert(r * 16 + c < low * 16) by (nonlinear_arith)
            requires
                r < low,
                c < 16,
        ;
        vstd::arithmetic::div_mod::lemma_fundamental_div_mod_converse(
            (a * 16 + c) as int,
            (low * 16) as int,
            q as int,
            (r * 16 + c) as int,
        );
    }
}

/// Of hexadecimal text with any number of digits, the value read is the low
/// 64 bits of the number that all its digits write.
pub proof fn lemma_hex_keeps_low_bits(s: Seq<char>)
    requires
        hex_meaning(s) is Some,
    ensures
        hex_meaning(s)->0 == radix_value(digits_of(without_hex_prefix(trimmed(s)), 16), 16)
            % 0x1_0000_0000_0000_0000,
{
    let all = digits_of(without_hex_prefix(trimmed(s)), 16);
    lemma_digits_of_are_digits(without_hex_prefix(trimmed(s)), 16);
    lemma_last_digits_are_low_bits(all, 16);
    lemma2_to64();
    assert(4 * 16 == 64);
    vstd::arithmetic::div_mod::lemma_mod_bound(
        radix_value(all, 16) as int,
        0x1_0000_0000_0000_0000,
    );
}

/// A digit's character is a digit of every radix above it, counts for that
/// digit, and is neither white space nor the letter of a prefix.
pub proof fn lemma_digit_char(d: nat, radix: nat)
    requires
        d < radix <= 16,
    ensures
        is_digit(digit_char(d), radix),
        digit_value(digit_char(d)) == d,
        !is_whitespace(digit_char(d)),
        digit_char(d) != 'x',
        digit_char(d) != 'X',
{
}

/// The canonical text of a number holds at least one character, digits of
/// the radix only, none of them white space or the letter of a prefix, and
/// it writes that number.
pub proof fn lemma_radix_text(v: nat, radix: nat)
    requires
        2 <= radix <= 16,
    ensures
        radix_text(v, radix).len() >= 1,
        all_digits(radix_text(v, radix), radix),
        radix_value(radix_text(v, radix), radix) == v,
        forall|i: int|
            0 <= i < radix_text(v, radix).len() ==> !is_whitespace(
                #[trigger] radix_text(v, radix)[i],
            ) && radix_text(v, radix)[i] != 'x' && radix_text(v, radix)[i] != 'X',
    decreases v,
{
    let text = radix_text(v, radix);
    if v < radix {
        lemma_digit_char(v, radix);
        assert(text.drop_last() =~= Seq::<char>::empty());
        assert(radix_value(text.drop_last(), radix) == 0);
    } else {
        let init = radix_text(v / radix, radix);
        let d = v % radix;
        vstd::arithmetic::div_mod::lemma_div_decreases(v as int, radix as int);
        vstd::arithmetic::div_mod::lemma_fundamental_div_mod(v as int, radix as int);
        vstd::arithmetic::div_mod::lemma_mod_bound(v as int, radix as int);
        lemma_radix_text(v / radix, radix);
        lemma_digit_char(d, radix);
        assert(text == init.push(digit_char(d)));
        assert(text.drop_last() =~= init);
        assert(radix_value(text, radix) == (v / radix) * radix + d);
        assert((v / radix) * radix == radix * (v / radix)) by (nonlinear_arith);
        assert forall|i: int| 0 <= i < text.len() implies is_digit(#[trigger] text[i], radix)
            && !is_whitespace(text[i]) && text[i] != 'x' && text[i] != 'X' by {
            if i < init.len() {
                assert(text[i] == init[i]);
            }
        }
    }
}

/// A number below `2^(4n)` takes at most `n` hexadecimal digits, so a 64-bit
/// value takes at most sixteen.
pub proof fn lemma_hex_text_len(v: nat, n: nat)
    requires
        n >= 1,
        v < pow2(4 * n),
    ensures
        radix_text(v, 16).len() <= n,
    decreases n,
{
    if v >= 16 {
        lemma2_to64();
        let m = (n - 1) as nat;
        lemma_pow2_adds(4 * m, 4);
        assert(4 * m + 4 == 4 * n);
        assert(m >= 1);
        assert(v / 16 < pow2(4 * m));
        lemma_hex_text_len(v / 16, m);
    }
}

/// Reading back what the formatter wrote gives the value that was written, in
/// either base.
pub proof fn lemma_format_then_parse(value: u64, base: InputBase)
    ensures
        meaning(canonical_text(value, base), base) == Some(value),
{
    let radix = radix_of(base);
    let text = canonical_text(value, base);
    lemma_radix_text(value as nat, radix);
    lemma_trimmed_is_fixed(text);
    lemma_digits_of_len(text, radix);
    match base {
        InputBase::Hex => {
            lemma2_to64();
            assert(4 * 16 == 64);
            lemma_hex_text_len(value as nat, 16);
            assert(!has_hex_prefix(text));
        },
        InputBase::Dec => {},
    }
}

/// Normalising twice changes nothing: text that has a value, written out in
/// canonical form and read again, has the same value.
pub proof fn lemma_normal_form_is_stable(s: Seq<char>, base: InputBase)
    requires
        meaning(s, base) is Some,
    ensures
        meaning(canonical_text(meaning(s, base)->0, base), base) == meaning(s, base),
{
    lemma_format_then_parse(meaning(s, base)->0, base);
}

} // verus!
