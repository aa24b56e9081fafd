//! Bytes of ASCII text: numerals, lines and their UTF-8 encoding, as the
//! line parser reads them.

use crate::aiger::{
    digits_end, digits_value, int_at, int_fits, ints_scan, is_digit, lemma_until_end_bounds, spaces_end, until_end,
    AigerError,
};
use crate::aiger::model::{line_int, line_ints, line_text, next_line};
use crate::text::{decimal, digit_char};
use vstd::utf8::{
    char_u32_cast, decode_utf8, decode_utf8_encode_utf8, encode_scalar, encode_utf8, has_width_1_encoding,
    is_ascii_chars, is_ascii_chars_encode_utf8, valid_utf8,
};
use super::byte_weight;
use vstd::prelude::*;

verus! {

/// The characters `s`, one byte each, stand at `pos` in `data`.
pub open spec fn text_at(data: Seq<u8>, pos: int, s: Seq<char>) -> bool {
    &&& 0 <= pos
    &&& pos + s.len() <= data.len()
    &&& forall|j: int| 0 <= j < s.len() ==> data[pos + j] == (#[trigger] s[j]) as u8
}

pub(super) proof fn lemma_text_at_split(data: Seq<u8>, pos: int, a: Seq<char>, b: Seq<char>)
    requires
        text_at(data, pos, a + b),
    ensures
        text_at(data, pos, a),
        text_at(data, pos + a.len(), b),
{
    assert forall|j: int| 0 <= j < a.len() implies data[pos + j] == (#[trigger] a[j]) as u8 by {
        assert((a + b)[j] == a[j]);
    }
    assert forall|j: int| 0 <= j < b.len() implies data[pos + a.len() + j] == (#[trigger] b[j]) as u8 by {
        assert((a + b)[a.len() + j] == b[j]);
    }
}

/// The byte of a decimal digit character.
proof fn lemma_digit_byte(d: nat)
    requires
        d < 10,
    ensures
        digit_char(d) as u8 == 48 + d,
        is_digit(digit_char(d) as u8),
        digit_char(d) as u32 == 48 + d,
        '\0' <= digit_char(d) <= '\u{7f}',
{
    let x = (48 + d) as u8;
    assert((x as char) as u8 == x);
}

/// Every character of a decimal numeral is a digit.
proof fn lemma_decimal_digits(n: nat)
    ensures
        decimal(n).len() >= 1,
        forall|j: int| 0 <= j < decimal(n).len() ==> is_digit(#[trigger] decimal(n)[j] as u8),
        forall|j: int| 0 <= j < decimal(n).len() ==> '\0' <= #[trigger] decimal(n)[j] <= '\u{7f}',
    decreases n,
{
    if n < 10 {
        lemma_digit_byte(n);
    } else {
        lemma_decimal_digits(n / 10);
        lemma_digit_byte(n % 10);
        assert forall|j: int| 0 <= j < decimal(n).len() implies is_digit(#[trigger] decimal(n)[j] as u8)
            && '\0' <= decimal(n)[j] <= '\u{7f}' by {
            if j < decimal(n / 10).len() {
                assert(decimal(n)[j] == decimal(n / 10)[j]);
            }
        }
    }
}

/// `digits_end` stops exactly at the end of a run of digits.
proof fn lemma_digits_end_exact(buf: Seq<u8>, q: int, e: int)
    requires
        0 <= q <= e <= buf.len(),
        forall|j: int| q <= j < e ==> is_digit(#[trigger] buf[j]),
        e == buf.len() || !is_digit(buf[e]),
    ensures
        digits_end(buf, q) == e,
    decreases e - q,
{
    if q < e {
        lemma_digits_end_exact(buf, q + 1, e);
    }
}

/// The digits of a decimal numeral read back its value.
proof fn lemma_decimal_value(buf: Seq<u8>, q: int, n: nat)
    requires
        text_at(buf, q, decimal(n)),
    ensures
        digits_value(buf, q, q + decimal(n).len()) == n,
    decreases n,
{
    if n < 10 {
        lemma_digit_byte(n);
        assert(buf[q + 0] == decimal(n)[0] as u8);
        assert(digits_value(buf, q, q) == 0);
    } else {
        let m = decimal(n / 10).len();
        assert(decimal(n) == decimal(n / 10) + seq![digit_char(n % 10)]);
        lemma_text_at_split(buf, q, decimal(n / 10), seq![digit_char(n % 10)]);
        lemma_decimal_value(buf, q, n / 10);
        lemma_digit_byte(n % 10);
        assert(buf[q + m + 0] == seq![digit_char(n % 10)][0] as u8);
        assert(digits_value(buf, q, q + m + 1) == digits_value(buf, q, q + m) * 10 + (buf[q + m] - 48) as nat);
    }
}

/// A decimal numeral at `q`, not followed by a digit, is the integer there.
pub(super) proof fn lemma_int_at_decimal(buf: Seq<u8>, q: int, n: nat)
    requires
        text_at(buf, q, decimal(n)),
        q + decimal(n).len() == buf.len() || !is_digit(buf[q + decimal(n).len()]),
    ensures
        digits_end(buf, q) == q + decimal(n).len(),
        int_at(buf, q) == Some(n),
        int_fits(buf, q) <==> n <= usize::MAX,
{
    lemma_decimal_digits(n);
    assert forall|j: int| q <= j < q + decimal(n).len() implies is_digit(#[trigger] buf[j]) by {
        assert(buf[q + (j - q)] == decimal(n)[j - q] as u8);
    }
    lemma_digits_end_exact(buf, q, q + decimal(n).len());
    lemma_decimal_value(buf, q, n);
}

/// A space and then a decimal numeral: whitespace skipping lands on the
/// numeral.
pub(super) proof fn lemma_space_decimal(buf: Seq<u8>, p: int, n: nat)
    requires
        text_at(buf, p, " "@ + decimal(n)),
        p + 1 + decimal(n).len() == buf.len() || !is_digit(buf[p + 1 + decimal(n).len()]),
    ensures
        spaces_end(buf, p) == p + 1,
        digits_end(buf, p + 1) == p + 1 + decimal(n).len(),
        int_at(buf, p + 1) == Some(n),
        int_fits(buf, p + 1) <==> n <= usize::MAX,
{
    reveal_strlit(" ");
    lemma_text_at_split(buf, p, " "@, decimal(n));
    lemma_decimal_digits(n);
    assert(buf[p + 0] == " "@[0] as u8);
    assert(buf[p + 1 + 0] == decimal(n)[0] as u8);
    assert(spaces_end(buf, p + 1) == p + 1);
    lemma_int_at_decimal(buf, p + 1, n);
}

/// What stands at `q` in `data` stands at the start of a slice from `q`.
pub(super) proof fn lemma_text_at_sub(data: Seq<u8>, q: int, e: int, s: Seq<char>)
    requires
        text_at(data, q, s),
        q + s.len() <= e <= data.len(),
    ensures
        text_at(data.subrange(q, e), 0, s),
{
    assert forall|j: int| 0 <= j < s.len() implies data.subrange(q, e)[0 + j] == (#[trigger] s[j]) as u8 by {
        assert(data.subrange(q, e)[j] == data[q + j]);
    }
}

/// The line search ends just after the first line feed.
pub(super) proof fn lemma_until_end_at(data: Seq<u8>, q: int, e: int)
    requires
        0 <= q <= e < data.len(),
        forall|j: int| q <= j < e ==> #[trigger] data[j] != 10,
        data[e] == 10,
    ensures
        until_end(data, q, 10) == e + 1,
    decreases e - q,
{
    if q < e {
        lemma_until_end_at(data, q + 1, e);
    }
}

/// A line of text `s` (no line feed in it) and its line feed at `q`: the
/// line that the parser takes there.
pub(super) proof fn lemma_next_line_at(data: Seq<u8>, q: int, s: Seq<char>)
    requires
        text_at(data, q, s + "\n"@),
        forall|j: int| 0 <= j < s.len() ==> (#[trigger] s[j]) as u8 != 10,
    ensures
        next_line(data, q) == (data.subrange(q, q + s.len() + 1), q + s.len() + 1),
        text_at(data.subrange(q, q + s.len() + 1), 0, s),
        data.subrange(q, q + s.len() + 1)[s.len() as int] == 10,
{
    reveal_strlit("\n");
    lemma_text_at_split(data, q, s, "\n"@);
    assert(data[q + s.len() + 0] == "\n"@[0] as u8);
    assert forall|j: int| q <= j < q + s.len() implies #[trigger] data[j] != 10 by {
        assert(data[q + (j - q)] == s[j - q] as u8);
    }
    lemma_until_end_at(data, q, q + s.len());
    lemma_text_at_sub(data, q, q + s.len() + 1, s);
}

/// A line holding one decimal numeral.
pub(super) proof fn lemma_line_int(data: Seq<u8>, q: int, n: nat)
    requires
        text_at(data, q, decimal(n) + "\n"@),
        n <= usize::MAX,
    ensures
        line_int(data, q) == Ok::<(nat, int), crate::aiger::AigerError>((n, q + decimal(n).len() + 1)),
{
    lemma_decimal_digits(n);
    lemma_next_line_at(data, q, decimal(n));
    let line = data.subrange(q, q + decimal(n).len() + 1);
    lemma_int_at_decimal(line, 0, n);
}

/// The characters of a space-separated list of numerals, without line feed.
proof fn lemma_no_line_feed(a: Seq<char>, b: Seq<char>)
    requires
        forall|j: int| 0 <= j < a.len() ==> (#[trigger] a[j]) as u8 != 10,
        forall|j: int| 0 <= j < b.len() ==> (#[trigger] b[j]) as u8 != 10,
    ensures
        forall|j: int| 0 <= j < (a + b).len() ==> (#[trigger] (a + b)[j]) as u8 != 10,
{
    assert forall|j: int| 0 <= j < (a + b).len() implies (#[trigger] (a + b)[j]) as u8 != 10 by {
        if j < a.len() {
            assert((a + b)[j] == a[j]);
        } else {
            assert((a + b)[j] == b[j - a.len()]);
        }
    }
}

proof fn lemma_decimal_no_line_feed(n: nat)
    ensures
        forall|j: int| 0 <= j < decimal(n).len() ==> (#[trigger] decimal(n)[j]) as u8 != 10,
{
    lemma_decimal_digits(n);
    assert forall|j: int| 0 <= j < decimal(n).len() implies (#[trigger] decimal(n)[j]) as u8 != 10 by {
        assert(is_digit(decimal(n)[j] as u8));
    }
}

proof fn lemma_space_no_line_feed()
    ensures
        forall|j: int| 0 <= j < " "@.len() ==> (#[trigger] " "@[j]) as u8 != 10,
{
    reveal_strlit(" ");
}

/// A line holding two numerals separated by a space.
pub(super) proof fn lemma_line_ints2(data: Seq<u8>, q: int, a: nat, b: nat)
    requires
        text_at(data, q, decimal(a) + " "@ + decimal(b) + "\n"@),
        a <= usize::MAX,
        b <= usize::MAX,
    ensures
        line_ints(data, q, 2) == Ok::<(Seq<nat>, int), crate::aiger::AigerError>(
            (seq![a, b], q + (decimal(a) + " "@ + decimal(b)).len() + 1),
        ),
{
    let s = decimal(a) + " "@ + decimal(b);
    lemma_decimal_no_line_feed(a);
    lemma_decimal_no_line_feed(b);
    lemma_space_no_line_feed();
    lemma_no_line_feed(decimal(a), " "@);
    lemma_no_line_feed(decimal(a) + " "@, decimal(b));
    lemma_next_line_at(data, q, s);
    let line = data.subrange(q, q + s.len() + 1);
    assert(s == decimal(a) + (" "@ + decimal(b)));
    lemma_text_at_split(line, 0, decimal(a), " "@ + decimal(b));
    lemma_text_at_split(line, decimal(a).len() as int, " "@, decimal(b));
    reveal_strlit(" ");
    lemma_decimal_digits(a);
    assert(line[0] == decimal(a)[0] as u8);
    let la = decimal(a).len() as int;
    assert(line[la + 0] == " "@[0] as u8);
    assert(!is_digit(line[0 + la]));
    lemma_int_at_decimal(line, 0, a);
    assert(spaces_end(line, 0) == 0);
    lemma_space_decimal(line, decimal(a).len() as int, b);
    let r0 = crate::aiger::ints_scan(line, 0, 0);
    assert(r0.0 =~= Seq::<Option<nat>>::empty() && r0.1 == 0 && r0.2);
    let r1 = crate::aiger::ints_scan(line, 0, 1);
    assert(r1.0 =~= seq![Some(a)]);
    assert(r1.1 == la);
    assert(r1.2);
    let r = crate::aiger::ints_scan(line, 0, 2);
    assert(r.0 =~= seq![Some(a), Some(b)]);
    assert(r.2);
    assert(r.0.map_values(|o: Option<nat>| o->0) =~= seq![a, b]);
}

/// A line holding three numerals separated by spaces.
pub(super) proof fn lemma_line_ints3(data: Seq<u8>, q: int, a: nat, b: nat, c: nat)
    requires
        text_at(data, q, decimal(a) + " "@ + decimal(b) + " "@ + decimal(c) + "\n"@),
        a <= usize::MAX,
        b <= usize::MAX,
        c <= usize::MAX,
    ensures
        line_ints(data, q, 3) == Ok::<(Seq<nat>, int), crate::aiger::AigerError>(
            (seq![a, b, c], q + (decimal(a) + " "@ + decimal(b) + " "@ + decimal(c)).len() + 1),
        ),
{
    reveal_strlit(" ");
    let s = decimal(a) + " "@ + decimal(b) + " "@ + decimal(c);
    lemma_decimal_no_line_feed(a);
    lemma_decimal_no_line_feed(b);
    lemma_decimal_no_line_feed(c);
    lemma_space_no_line_feed();
    lemma_no_line_feed(decimal(a), " "@);
    lemma_no_line_feed(decimal(a) + " "@, decimal(b));
    lemma_no_line_feed(decimal(a) + " "@ + decimal(b), " "@);
    lemma_no_line_feed(decimal(a) + " "@ + decimal(b) + " "@, decimal(c));
    lemma_next_line_at(data, q, s);
    let line = data.subrange(q, q + s.len() + 1);
    let la = decimal(a).len() as int;
    let lb = decimal(b).len() as int;
    assert(s == decimal(a) + ((" "@ + decimal(b)) + (" "@ + decimal(c))));
    lemma_text_at_split(line, 0, decimal(a), (" "@ + decimal(b)) + (" "@ + decimal(c)));
    lemma_text_at_split(line, la, " "@ + decimal(b), " "@ + decimal(c));
    lemma_text_at_split(line, la, " "@, decimal(b));
    lemma_text_at_split(line, la + 1 + lb, " "@, decimal(c));
    reveal_strlit(" ");
    lemma_decimal_digits(a);
    assert(line[0] == decimal(a)[0] as u8);
    assert(line[la + 0] == " "@[0] as u8);
    assert(line[la + 1 + lb + 0] == " "@[0] as u8);
    lemma_int_at_decimal(line, 0, a);
    assert(spaces_end(line, 0) == 0);
    lemma_space_decimal(line, la, b);
    lemma_space_decimal(line, la + 1 + lb, c);
    let r0 = crate::aiger::ints_scan(line, 0, 0);
    assert(r0.0 =~= Seq::<Option<nat>>::empty() && r0.1 == 0 && r0.2);
    let r1 = crate::aiger::ints_scan(line, 0, 1);
    assert(r1.0 =~= seq![Some(a)]);
    assert(r1.1 == la);
    assert(r1.2);
    let r2 = crate::aiger::ints_scan(line, 0, 2);
    assert(r2.0 =~= seq![Some(a), Some(b)] && r2.1 == la + 1 + lb && r2.2);
    let r = crate::aiger::ints_scan(line, 0, 3);
    assert(r.0 =~= seq![Some(a), Some(b), Some(c)]);
    assert(r.2);
    assert(r.0.map_values(|o: Option<nat>| o->0) =~= seq![a, b, c]);
}

pub(super) proof fn lemma_ascii_concat(a: Seq<char>, b: Seq<char>)
    requires
        is_ascii_chars(a),
        is_ascii_chars(b),
    ensures
        is_ascii_chars(a + b),
{
    assert forall|j: int| 0 <= j < (a + b).len() implies '\0' <= #[trigger] (a + b)[j] <= '\u{7f}' by {
        if j < a.len() {
            assert((a + b)[j] == a[j]);
        } else {
            assert((a + b)[j] == b[j - a.len()]);
        }
    }
}

proof fn lemma_ascii_decimal(n: nat)
    ensures
        is_ascii_chars(decimal(n)),
{
    lemma_decimal_digits(n);
    assert forall|j: int| 0 <= j < decimal(n).len() implies '\0' <= #[trigger] decimal(n)[j] <= '\u{7f}' by {
    }
}

/// ASCII text, encoded as UTF-8, is its own bytes.
pub(super) proof fn lemma_encode_ascii(text: Seq<char>)
    requires
        is_ascii_chars(text),
    ensures
        text_at(encode_utf8(text), 0, text),
        encode_utf8(text).len() == text.len(),
{
    is_ascii_chars_encode_utf8(text);
    assert forall|j: int| 0 <= j < text.len() implies encode_utf8(text)[0 + j] == (#[trigger] text[j]) as u8 by {
        assert(encode_utf8(text)[j] == text[j] as u8);
    }
}

/// ASCII text without a line feed.
pub(super) open spec fn plain(s: Seq<char>) -> bool {
    &&& is_ascii_chars(s)
    &&& forall|j: int| 0 <= j < s.len() ==> (#[trigger] s[j]) as u8 != 10
}

pub(super) proof fn lemma_plain_concat(a: Seq<char>, b: Seq<char>)
    requires
        plain(a),
        plain(b),
    ensures
        plain(a + b),
{
    lemma_ascii_concat(a, b);
    lemma_no_line_feed(a, b);
}

pub(super) proof fn lemma_plain_decimal(n: nat)
    ensures
        plain(decimal(n)),
{
    lemma_ascii_decimal(n);
    lemma_decimal_no_line_feed(n);
}

pub(super) proof fn lemma_plain_words()
    ensures
        plain(" "@),
        plain("aag"@),
        is_ascii_chars("\n"@),
{
    reveal_strlit(" ");
    reveal_strlit("aag");
    reveal_strlit("\n");
    assert(' ' <= '\u{7f}');
    assert('a' <= '\u{7f}');
    assert('g' <= '\u{7f}');
}

/// `x + " " + decimal(n)` is plain where `x` is.
pub(super) proof fn lemma_plain_field(x: Seq<char>, n: nat)
    requires
        plain(x),
    ensures
        plain(x + " "@ + decimal(n)),
{
    lemma_plain_words();
    lemma_plain_decimal(n);
    lemma_plain_concat(x, " "@);
    lemma_plain_concat(x + " "@, decimal(n));
}

/// A plain line and its line feed are ASCII.
pub(super) proof fn lemma_ascii_line(x: Seq<char>)
    requires
        plain(x),
    ensures
        is_ascii_chars(x + "\n"@),
{
    lemma_plain_words();
    lemma_ascii_concat(x, "\n"@);
}

/// UTF-8 encoding distributes over concatenation.
pub(super) proof fn lemma_encode_concat(a: Seq<char>, b: Seq<char>)
    ensures
        encode_utf8(a + b) == encode_utf8(a) + encode_utf8(b),
    decreases a.len(),
{
    if a.len() == 0 {
        assert(a + b =~= b);
        assert(encode_utf8(a) =~= Seq::<u8>::empty());
        assert(encode_utf8(a) + encode_utf8(b) =~= encode_utf8(b));
    } else {
        assert((a + b).drop_first() =~= a.drop_first() + b);
        assert((a + b)[0] == a[0]);
        lemma_encode_concat(a.drop_first(), b);
        assert(encode_utf8(a + b) =~= encode_utf8(a) + encode_utf8(b));
    }
}

/// Only a line feed character encodes to a line feed byte.
pub(super) proof fn lemma_encode_no_line_feed(s: Seq<char>)
    requires
        forall|j: int| 0 <= j < s.len() ==> #[trigger] s[j] != '\n',
    ensures
        forall|i: int| 0 <= i < encode_utf8(s).len() ==> #[trigger] encode_utf8(s)[i] != 10,
    decreases s.len(),
{
    if s.len() > 0 {
        let c = s[0];
        let v = c as u32;
        assert(c != '\n');
        char_u32_cast(c, v);
        assert(v != 10);
        assert(s.drop_first().len() < s.len());
        assert forall|j: int| 0 <= j < s.drop_first().len() implies #[trigger] s.drop_first()[j] != '\n' by {
            assert(s.drop_first()[j] == s[j + 1]);
        }
        lemma_encode_no_line_feed(s.drop_first());
        let e = encode_scalar(v);
        assert forall|i: int| 0 <= i < e.len() implies #[trigger] e[i] != 10 by {
            if has_width_1_encoding(v) {
                assert(v & 0x7F != 10u32) by (bit_vector)
                    requires
                        v <= 0x7F,
                        v != 10,
                ;
                assert((v & 0x7F) as u8 != 10u8) by (bit_vector)
                    requires
                        v & 0x7F != 10u32,
                        v <= 0x7F,
                ;
            } else {
                let x1 = ((v >> 6) & 0x1F) as u8;
                let x2 = ((v >> 12) & 0x0F) as u8;
                let x3 = ((v >> 18) & 0x7) as u8;
                let y1 = (v & 0x3F) as u8;
                let y2 = ((v >> 6) & 0x3F) as u8;
                let y3 = ((v >> 12) & 0x3F) as u8;
                assert(0xC0u8 | x1 != 10u8) by (bit_vector);
                assert(0xE0u8 | x2 != 10u8) by (bit_vector);
                assert(0xF0u8 | x3 != 10u8) by (bit_vector);
                assert(0x80u8 | y1 != 10u8) by (bit_vector);
                assert(0x80u8 | y2 != 10u8) by (bit_vector);
                assert(0x80u8 | y3 != 10u8) by (bit_vector);
            }
        }
        assert(encode_utf8(s) == e + encode_utf8(s.drop_first()));
        assert forall|i: int| 0 <= i < encode_utf8(s).len() implies #[trigger] encode_utf8(s)[i] != 10 by {
            if i < e.len() {
                assert(encode_utf8(s)[i] == e[i]);
            } else {
                assert(encode_utf8(s)[i] == encode_utf8(s.drop_first())[i - e.len()]);
            }
        }
    }
}

/// A line feed character encodes to a line feed byte.
proof fn lemma_encode_line_feed(s: Seq<char>, j: int)
    requires
        0 <= j < s.len(),
        s[j] == '\n',
    ensures
        exists|i: int| 0 <= i < encode_utf8(s).len() && encode_utf8(s)[i] == 10,
    decreases s.len(),
{
    let e = encode_scalar(s[0] as u32);
    assert(encode_utf8(s) == e + encode_utf8(s.drop_first()));
    if j == 0 {
        let v = s[0] as u32;
        assert(v == 10);
        assert((v & 0x7F) as u8 == 10u8) by (bit_vector)
            requires
                v == 10,
        ;
        assert(encode_utf8(s)[0] == e[0]);
    } else {
        assert(s.drop_first()[j - 1] == '\n');
        lemma_encode_line_feed(s.drop_first(), j - 1);
        let i = choose|i: int| 0 <= i < encode_utf8(s.drop_first()).len() && encode_utf8(s.drop_first())[i] == 10;
        assert(encode_utf8(s)[e.len() + i] == encode_utf8(s.drop_first())[i]);
    }
}

/// Valid UTF-8 without a line feed byte decodes to text without a line
/// feed, of as many bytes.
pub(super) proof fn lemma_decode_no_line_feed(b: Seq<u8>)
    requires
        valid_utf8(b),
        forall|i: int| 0 <= i < b.len() ==> #[trigger] b[i] != 10,
    ensures
        forall|j: int| 0 <= j < decode_utf8(b).len() ==> #[trigger] decode_utf8(b)[j] != '\n',
        byte_weight(decode_utf8(b)) == b.len(),
{
    decode_utf8_encode_utf8(b);
    assert forall|j: int| 0 <= j < decode_utf8(b).len() implies #[trigger] decode_utf8(b)[j] != '\n' by {
        if decode_utf8(b)[j] == '\n' {
            lemma_encode_line_feed(decode_utf8(b), j);
        }
    }
}

/// Before the line feed that ends the line search, no byte is a line feed.
proof fn lemma_until_end_scan(data: Seq<u8>, pos: int, q: int)
    requires
        0 <= pos <= q,
        q < until_end(data, pos, 10) - 1,
    ensures
        data[q] != 10,
    decreases q - pos,
{
    if pos < data.len() && data[pos] != 10 && q > pos {
        lemma_until_end_scan(data, pos + 1, q);
    }
}

/// The line text at `pos` holds no line feed.
pub(super) proof fn lemma_line_text_no_line_feed(data: Seq<u8>, pos: int)
    requires
        0 <= pos < data.len(),
    ensures
        ({
            let line = next_line(data, pos).0;
            forall|i: int| 0 <= i < line_text(line).len() ==> #[trigger] line_text(line)[i] != 10
        }),
{
    let end = until_end(data, pos, 10);
    lemma_until_end_bounds(data, pos, 10);
    let line = data.subrange(pos, end);
    assert forall|i: int| 0 <= i < line_text(line).len() implies #[trigger] line_text(line)[i] != 10 by {
        assert(line_text(line)[i] == line[i]);
        if i < line.len() - 1 {
            lemma_until_end_scan(data, pos, pos + i);
        }
    }
}

} // verus!
