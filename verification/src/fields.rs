//! Cutting the low bits of a value into fields by a list of widths.
//!
//! The list is text such as `4:20:8`. Its widths are placed side by side from
//! the most significant field down, inside a window of at most
//! [`FIELD_WINDOW_BITS`] bits that ends at bit 0.

use crate::bits::{field_mask, lemma_low_mask, mask_of};
use crate::chars::{chars_of, trim_range, trimmed};
use crate::numeral::{
    all_digits, collect_digits, digits_to_u64, format_dec, format_hex, lemma_digits_of_len,
    radix_text, radix_value,
};
use vstd::arithmetic::power2::pow2;
use vstd::prelude::*;

verus! {

/// The fields of one layout take no more bits than this, all told.
pub const FIELD_WINDOW_BITS: u32 = 32;

/// One field: a run of `width` bits from `high_bit` down to `low_bit`, and the
/// number that the value holds there.
#[derive(Clone, Copy, PartialEq, Eq, Structural, Debug)]
pub struct FieldSlice {
    pub width: u32,
    pub high_bit: u32,
    pub low_bit: u32,
    pub masked_value: u64,
}

/// Whether `c` parts two widths of a configuration.
pub open spec fn is_separator(c: char) -> bool {
    c == ':' || c == ',' || c == ' '
}

/// The pieces into which the separators cut `s`. Each separator ends one piece
/// and begins the next, so there is one piece more than there are separators,
/// and a piece may be empty.
pub open spec fn tokens(s: Seq<char>) -> Seq<Seq<char>>
    decreases s.len(),
{
    if s.len() == 0 {
        seq![Seq::<char>::empty()]
    } else {
        let before = tokens(s.drop_last());
        if is_separator(s.last()) {
            before.push(Seq::<char>::empty())
        } else {
            before.drop_last().push(before.last().push(s.last()))
        }
    }
}

/// The digits of a trimmed token: all of it behind one optional `+`.
pub open spec fn token_digits(token: Seq<char>) -> Seq<char> {
    let text = trimmed(token);
    if text.len() > 0 && text[0] == '+' {
        text.skip(1)
    } else {
        text
    }
}

/// The width that a token names, if it names one: surrounded by any white
/// space, an optional `+` and then decimal digits only, at least one, that
/// write a number of at most 32 bits.
pub open spec fn token_width(token: Seq<char>) -> Option<u32> {
    let digits = token_digits(token);
    if digits.len() > 0 && all_digits(digits, 10) && radix_value(digits, 10) <= u32::MAX {
        Some(radix_value(digits, 10) as u32)
    } else {
        None
    }
}

/// The widths named by a run of tokens, in order. A token that names none is
/// passed over.
pub open spec fn widths_named(toks: Seq<Seq<char>>) -> Seq<u32>
    decreases toks.len(),
{
    if toks.len() == 0 {
        Seq::<u32>::empty()
    } else {
        let before = widths_named(toks.drop_last());
        match token_width(toks.last()) {
            Some(w) => before.push(w),
            None => before,
        }
    }
}

/// The widths that a configuration text names.
pub open spec fn config_widths(s: Seq<char>) -> Seq<u32> {
    widths_named(tokens(s))
}

/// The sum of the widths.
pub open spec fn total_width(widths: Seq<u32>) -> nat
    decreases widths.len(),
{
    if widths.len() == 0 {
        0
    } else {
        widths[0] as nat + total_width(widths.drop_first())
    }
}

/// The widths that are given room, `used` bits being taken already. A zero is
/// passed over. The first width that no longer fits in the window ends the
/// walk: neither it nor any width behind it is given room.
pub open spec fn accepted_from(raw: Seq<u32>, used: nat) -> Seq<u32>
    decreases raw.len(),
{
    if raw.len() == 0 {
        raw
    } else if raw[0] == 0 {
        accepted_from(raw.drop_first(), used)
    } else if used + raw[0] > FIELD_WINDOW_BITS {
        Seq::<u32>::empty()
    } else {
        seq![raw[0]] + accepted_from(raw.drop_first(), (used + raw[0]) as nat)
    }
}

/// The widths that are given room in an empty window.
pub open spec fn accepted(raw: Seq<u32>) -> Seq<u32> {
    accepted_from(raw, 0)
}

/// The widths without the zeros among them.
pub open spec fn without_zeros(raw: Seq<u32>) -> Seq<u32>
    decreases raw.len(),
{
    if raw.len() == 0 {
        raw
    } else if raw[0] == 0 {
        without_zeros(raw.drop_first())
    } else {
        seq![raw[0]] + without_zeros(raw.drop_first())
    }
}

/// Whether the widths can be laid out: none is zero, and together they fit in
/// the window.
pub open spec fn fits_window(widths: Seq<u32>) -> bool {
    &&& total_width(widths) <= FIELD_WINDOW_BITS
    &&& forall|i: int| 0 <= i < widths.len() ==> #[trigger] widths[i] >= 1
}

/// The field that the width at position `i` gets. Its low bit is the number of
/// bits that the fields behind it take.
pub open spec fn slice_at(widths: Seq<u32>, value: u64, i: int) -> FieldSlice
    recommends
        0 <= i < widths.len(),
        fits_window(widths),
{
    let low = total_width(widths.skip(i + 1));
    FieldSlice {
        width: widths[i],
        high_bit: (low + widths[i] - 1) as u32,
        low_bit: low as u32,
        masked_value: (value >> (low as u32)) & mask_of(widths[i]),
    }
}

/// The fields of the widths, most significant first.
pub open spec fn slices_of(widths: Seq<u32>, value: u64) -> Seq<FieldSlice> {
    Seq::new(widths.len(), |i: int| slice_at(widths, value, i))
}

/// The fields into which a configuration text cuts a value.
pub open spec fn layout_of(config: Seq<char>, value: u64) -> Seq<FieldSlice> {
    slices_of(accepted(config_widths(config)), value)
}

/// Tells the characters that part two widths from the others.
pub fn char_is_separator(c: char) -> (r: bool)
    ensures
        r == is_separator(c),
{
    c == ':' || c == ',' || c == ' '
}

/// The width named by the token `v[from..to]`, if it names one.
pub fn parse_width(v: &Vec<char>, from: usize, to: usize) -> (r: Option<u32>)
    requires
        from <= to <= v.len(),
    ensures
        r == token_width(v@.subrange(from as int, to as int)),
{
    let ghost token = v@.subrange(from as int, to as int);
    let (start, end) = trim_range(v, from, to);
    let body: usize = if start < end && v[start] == '+' {
        start + 1
    } else {
        start
    };
    proof {
        let text = trimmed(token);
        assert(text == v@.subrange(start as int, end as int));
        if text.len() > 0 {
            assert(text[0] == v@[start as int]);
        }
        assert(token_digits(token) =~= v@.subrange(body as int, end as int));
        lemma_digits_of_len(token_digits(token), 10);
    }
    if body == end {
        return None;
    }
    let digits = collect_digits(v, body, end, 10);
    if digits.len() != end - body {
        return None;
    }
    assert(digits@.skip(0) == digits@);
    match digits_to_u64(&digits, 0, 10) {
        Some(n) => {
            if n <= u32::MAX as u64 {
                Some(n as u32)
            } else {
                None
            }
        },
        None => None,
    }
}

/// The widths that a configuration text names, in order. Pieces of the text
/// that name no width are passed over.
pub fn read_widths(config: &str) -> (r: Vec<u32>)
    ensures
        r@ == config_widths(config@),
{
    let v = chars_of(config);
    let mut out: Vec<u32> = Vec::new();
    let mut begin: usize = 0;
    let mut i: usize = 0;
    while i < v.len()
        invariant
            begin <= i <= v.len(),
            v@ == config@,
            out@ == widths_named(tokens(v@.take(i as int)).drop_last()),
            tokens(v@.take(i as int)).len() >= 1,
            tokens(v@.take(i as int)).last() == v@.subrange(begin as int, i as int),
        decreases v.len() - i,
    {
        let ghost seen = tokens(v@.take(i as int));
        let ghost next = v@.take(i + 1);
        proof {
            assert(next.drop_last() == v@.take(i as int));
            assert(next.last() == v@[i as int]);
        }
        if char_is_separator(v[i]) {
            let w = parse_width(&v, begin, i);
            if let Some(width) = w {
                out.push(width);
            }
            begin = i + 1;
            proof {
                assert(tokens(next) == seen.push(Seq::<char>::empty()));
                assert(tokens(next).drop_last() == seen);
                assert(v@.subrange(begin as int, i + 1) =~= Seq::<char>::empty());
            }
        } else {
            proof {
                assert(tokens(next) == seen.drop_last().push(seen.last().push(v@[i as int])));
                assert(tokens(next).drop_last() == seen.drop_last());
                assert(v@.subrange(begin as int, i + 1) =~= seen.last().push(v@[i as int]));
            }
        }
        i += 1;
    }
    assert(v@.take(v.len() as int) == v@);
    let w = parse_width(&v, begin, v.len());
    if let Some(width) = w {
        out.push(width);
    }
    out
}

/// Walks the widths and keeps those that are given room: zeros are passed
/// over, and the walk ends at the first width that would take the total beyond
/// the window.
pub fn accept_widths(raw: &Vec<u32>) -> (r: Vec<u32>)
    ensures
        r@ == accepted(raw@),
        fits_window(r@),
{
    let mut out: Vec<u32> = Vec::new();
    let mut used: u32 = 0;
    let mut i: usize = 0;
    proof {
        assert(raw@.skip(0) == raw@);
        assert(out@ + accepted(raw@) =~= accepted(raw@));
    }
    while i < raw.len()
        invariant
            i <= raw.len(),
            used == total_width(out@),
            fits_window(out@),
            accepted(raw@) == out@ + accepted_from(raw@.skip(i as int), used as nat),
        decreases raw.len() - i,
    {
        let w: u32 = raw[i];
        proof {
            assert(raw@.skip(i as int)[0] == w);
            assert(raw@.skip(i as int).drop_first() == raw@.skip(i + 1));
        }
        if w != 0 {
            if w > FIELD_WINDOW_BITS - used {
                assert(out@ + Seq::<u32>::empty() == out@);
                return out;
            }
            proof {
                lemma_total_width_push(out@, w);
                assert(out@ + (seq![w] + accepted_from(raw@.skip(i + 1), (used + w) as nat))
                    =~= out@.push(w) + accepted_from(raw@.skip(i + 1), (used + w) as nat));
            }
            out.push(w);
            used += w;
        }
        i += 1;
    }
    assert(out@ + Seq::<u32>::empty() == out@);
    out
}

/// The number of bits that the widths take together.
pub fn total_bits(widths: &Vec<u32>) -> (r: u32)
    requires
        fits_window(widths@),
    ensures
        r == total_width(widths@),
        r <= FIELD_WINDOW_BITS,
{
    let mut sum: u32 = 0;
    let mut i: usize = widths.len();
    while i > 0
        invariant
            i <= widths.len(),
            fits_window(widths@),
            sum == total_width(widths@.skip(i as int)),
        decreases i,
    {
        i -= 1;
        proof {
            lemma_total_width_skip(widths@, i as int);
        }
        sum += widths[i];
    }
    assert(widths@.skip(0) == widths@);
    sum
}

/// Lays the widths out from the top of their window down to bit 0 and reads
/// each field out of `value`. Every width gets its field, and none is cut
/// short.
pub fn place_fields(widths: &Vec<u32>, value: u64) -> (r: Vec<FieldSlice>)
    requires
        fits_window(widths@),
    ensures
        r@ == slices_of(widths@, value),
{
    let mut out: Vec<FieldSlice> = Vec::new();
    let mut below: u32 = total_bits(widths);
    let mut i: usize = 0;
    assert(widths@.skip(0) == widths@);
    while i < widths.len()
        invariant
            i <= widths.len(),
            fits_window(widths@),
            below == total_width(widths@.skip(i as int)),
            out@ == slices_of(widths@, value).take(i as int),
        decreases widths.len() - i,
    {
        let w: u32 = widths[i];
        proof {
            lemma_total_width_skip(widths@, i as int);
        }
        below -= w;
        let slice = FieldSlice {
            width: w,
            high_bit: below + w - 1,
            low_bit: below,
            masked_value: (value >> below) & field_mask(w),
        };
        out.push(slice);
        proof {
            assert(slice == slice_at(widths@, value, i as int));
            assert(out@ =~= slices_of(widths@, value).take(i + 1));
        }
        i += 1;
    }
    assert(slices_of(widths@, value).take(widths.len() as int) == slices_of(widths@, value));
    out
}

/// The fields into which the configuration text cuts `value`, most significant
/// field first. Text that names no width gives no field.
pub fn layout(config: &str, value: u64) -> (r: Vec<FieldSlice>)
    ensures
        r@ == layout_of(config@, value),
        fits_window(accepted(config_widths(config@))),
        r@.len() == accepted(config_widths(config@)).len(),
{
    let raw = read_widths(config);
    let widths = accept_widths(&raw);
    place_fields(&widths, value)
}

impl FieldSlice {
    /// The field's bit range as it is shown: `[h:l]`, or `[h]` for a field of
    /// one bit.
    pub open spec fn range_text(&self) -> Seq<char> {
        if self.width == 1 {
            seq!['['] + radix_text(self.high_bit as nat, 10) + seq![']']
        } else {
            seq!['['] + radix_text(self.high_bit as nat, 10) + seq![':'] + radix_text(
                self.low_bit as nat,
                10,
            ) + seq![']']
        }
    }

    /// The field's number in hexadecimal, as it is shown: `0x` and the
    /// canonical digits.
    pub open spec fn hex_text(&self) -> Seq<char> {
        seq!['0', 'x'] + radix_text(self.masked_value as nat, 16)
    }

    /// The field's number in decimal.
    pub open spec fn dec_text(&self) -> Seq<char> {
        radix_text(self.masked_value as nat, 10)
    }

    /// The label of the field's bit range.
    pub fn range_label(&self) -> (r: String)
        ensures
            r@ == self.range_text(),
    {
        proof {
            reveal_strlit("[");
            reveal_strlit(":");
            reveal_strlit("]");
        }
        let mut out = String::new();
        out.append("[");
        out.append(format_dec(self.high_bit as u64).as_str());
        if self.width != 1 {
            out.append(":");
            out.append(format_dec(self.low_bit as u64).as_str());
        }
        out.append("]");
        assert(out@ =~= self.range_text());
        out
    }

    /// The label of the field's number in hexadecimal.
    pub fn hex_label(&self) -> (r: String)
        ensures
            r@ == self.hex_text(),
    {
        proof {
            reveal_strlit("0x");
        }
        let mut out = String::new();
        out.append("0x");
        out.append(format_hex(self.masked_value).as_str());
        assert(out@ =~= self.hex_text());
        out
    }

    /// The label of the field's number in decimal.
    pub fn dec_label(&self) -> (r: String)
        ensures
            r@ == self.dec_text(),
    {
        format_dec(self.masked_value)
    }
}

/// The sum of two runs of widths is the sum of their sums.
pub proof fn lemma_total_width_add(a: Seq<u32>, b: Seq<u32>)
    ensures
        total_width(a + b) == total_width(a) + total_width(b),
    decreases a.len(),
{
    if a.len() == 0 {
        assert(a + b == b);
    } else {
        lemma_total_width_add(a.drop_first(), b);
        assert((a + b).drop_first() == a.drop_first() + b);
    }
}

/// One more width at the end adds itself to the sum.
pub proof fn lemma_total_width_push(a: Seq<u32>, w: u32)
    ensures
        total_width(a.push(w)) == total_width(a) + w,
{
    let one = seq![w];
    assert(one.drop_first() =~= Seq::<u32>::empty());
    assert(total_width(one) == w + total_width(one.drop_first()));
    lemma_total_width_add(a, one);
    assert(a.push(w) =~= a + one);
}

/// The widths from position `i` on take the width at `i` and what the widths
/// behind it take.
pub proof fn lemma_total_width_skip(widths: Seq<u32>, i: int)
    requires
        0 <= i < widths.len(),
    ensures
        total_width(widths.skip(i)) == widths[i] + total_width(widths.skip(i + 1)),
        total_width(widths.skip(i)) <= total_width(widths),
        total_width(widths.skip(i + 1)) <= total_width(widths),
{
    assert(widths.skip(i).drop_first() == widths.skip(i + 1));
    lemma_total_width_add(widths.take(i), widths.skip(i));
    assert(widths.take(i) + widths.skip(i) == widths);
}

/// Whatever is given room fits in what is left of the window, and no width
/// that is given room is zero.
pub proof fn lemma_accepted_fits(raw: Seq<u32>, used: nat)
    requires
        used <= FIELD_WINDOW_BITS,
    ensures
        used + total_width(accepted_from(raw, used)) <= FIELD_WINDOW_BITS,
        forall|i: int|
            0 <= i < accepted_from(raw, used).len() ==> 1 <= #[trigger] accepted_from(
                raw,
                used,
            )[i] <= FIELD_WINDOW_BITS,
        used == 0 ==> fits_window(accepted(raw)),
    decreases raw.len(),
{
    if raw.len() > 0 {
        if raw[0] == 0 {
            lemma_accepted_fits(raw.drop_first(), used);
        } else if used + raw[0] <= FIELD_WINDOW_BITS {
            let rest = accepted_from(raw.drop_first(), (used + raw[0]) as nat);
            lemma_accepted_fits(raw.drop_first(), (used + raw[0]) as nat);
            assert((seq![raw[0]] + rest).drop_first() =~= rest);
            assert forall|i: int| 0 <= i < accepted_from(raw, used).len() implies 1
                <= #[trigger] accepted_from(raw, used)[i] <= FIELD_WINDOW_BITS by {
                if i > 0 {
                    assert(accepted_from(raw, used)[i] == rest[i - 1]);
                }
            }
        }
    }
}

/// A zero among the widths changes nothing: it takes no room and is not
/// counted as a field.
pub proof fn lemma_zero_widths_skipped(raw: Seq<u32>, used: nat)
    ensures
        accepted_from(raw, used) == accepted_from(without_zeros(raw), used),
        used == 0 ==> accepted(raw) == accepted(without_zeros(raw)),
    decreases raw.len(),
{
    if raw.len() > 0 {
        if raw[0] == 0 {
            lemma_zero_widths_skipped(raw.drop_first(), used);
        } else {
            let kept = seq![raw[0]] + without_zeros(raw.drop_first());
            assert(kept.drop_first() =~= without_zeros(raw.drop_first()));
            lemma_zero_widths_skipped(raw.drop_first(), (used + raw[0]) as nat);
        }
    }
}

/// Two configuration texts that name the same widths, zeros left aside, cut
/// every value into the same fields.
pub proof fn lemma_layout_ignores_zeros(a: Seq<char>, b: Seq<char>, value: u64)
    requires
        without_zeros(config_widths(a)) == without_zeros(config_widths(b)),
    ensures
        layout_of(a, value) == layout_of(b, value),
{
    lemma_zero_widths_skipped(config_widths(a), 0);
    lemma_zero_widths_skipped(config_widths(b), 0);
}

/// The walk ends at the first width that does not fit: where the widths of
/// `head` fit and `wide` is more than they leave, the widths `head`, then
/// `wide`, then `tail` are given the room that `head` alone gets, whatever
/// `tail` holds.
pub proof fn lemma_walk_ends(head: Seq<u32>, wide: u32, tail: Seq<u32>, used: nat)
    requires
        used + total_width(head) <= FIELD_WINDOW_BITS,
        used + total_width(head) + wide > FIELD_WINDOW_BITS,
    ensures
        accepted_from(head + seq![wide] + tail, used) == without_zeros(head),
        accepted_from(head, used) == without_zeros(head),
    decreases head.len(),
{
    let all = head + seq![wide] + tail;
    if head.len() == 0 {
        assert(all[0] == wide);
    } else {
        assert(all[0] == head[0]);
        assert(all.drop_first() =~= head.drop_first() + seq![wide] + tail);
        if head[0] == 0 {
            lemma_walk_ends(head.drop_first(), wide, tail, used);
        } else {
            lemma_walk_ends(head.drop_first(), wide, tail, (used + head[0]) as nat);
        }
    }
}

/// The fields lie side by side and fill their window: the first ends at the
/// window's top bit, each begins one bit above the end of the next, the last
/// begins at bit 0, and each holds a number of no more bits than it is wide.
pub proof fn lemma_fields_tile(widths: Seq<u32>, value: u64)
    requires
        fits_window(widths),
    ensures
        slices_of(widths, value).len() == widths.len(),
        widths.len() > 0 ==> slices_of(widths, value)[0].high_bit + 1 == total_width(widths),
        widths.len() > 0 ==> slices_of(widths, value).last().low_bit == 0,
        forall|i: int|
            #![trigger slices_of(widths, value)[i]]
            0 <= i < widths.len() ==> {
                let f = slices_of(widths, value)[i];
                &&& f.width == widths[i]
                &&& f.low_bit <= f.high_bit < FIELD_WINDOW_BITS
                &&& f.high_bit - f.low_bit + 1 == f.width
                &&& f.masked_value <= mask_of(f.width)
                &&& i + 1 < widths.len() ==> slices_of(widths, value)[i + 1].high_bit + 1
                    == f.low_bit
            },
{
    if widths.len() > 0 {
        lemma_total_width_skip(widths, 0);
        assert(widths.skip(0) == widths);
        assert(widths.skip(widths.len() as int) =~= Seq::<u32>::empty());
    }
    assert forall|i: int| #![trigger slices_of(widths, value)[i]] 0 <= i < widths.len() implies {
        let f = slices_of(widths, value)[i];
        &&& f.width == widths[i]
        &&& f.low_bit <= f.high_bit < FIELD_WINDOW_BITS
        &&& f.high_bit - f.low_bit + 1 == f.width
        &&& f.masked_value <= mask_of(f.width)
        &&& i + 1 < widths.len() ==> slices_of(widths, value)[i + 1].high_bit + 1 == f.low_bit
    } by {
        lemma_total_width_skip(widths, i);
        if i + 1 < widths.len() {
            lemma_total_width_skip(widths, i + 1);
        }
        let f = slices_of(widths, value)[i];
        let shifted = value >> f.low_bit;
        let mask = mask_of(f.width);
        assert(shifted & mask <= mask) by (bit_vector);
    }
}

/// The number in a field is the value divided by two to the field's low bit,
/// modulo two to the field's width.
pub proof fn lemma_field_value(widths: Seq<u32>, value: u64, i: int)
    requires
        fits_window(widths),
        0 <= i < widths.len(),
    ensures
        slices_of(widths, value)[i].masked_value == (value as nat / pow2(
            slices_of(widths, value)[i].low_bit as nat,
        )) % pow2(widths[i] as nat),
{
    lemma_total_width_skip(widths, i);
    let f = slices_of(widths, value)[i];
    let low: u32 = f.low_bit;
    let shifted = value >> low;
    lemma_low_mask(f.width);
    vstd::bits::lemma_u64_shr_is_div(value, low as u64);
    vstd::bits::lemma_u64_low_bits_mask_is_mod(shifted, f.width as nat);
    assert(value >> low == value >> (low as u64)) by (bit_vector);
}

} // verus!
