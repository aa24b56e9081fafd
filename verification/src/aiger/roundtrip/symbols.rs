//! Symbol lines and the comment section, read back.

use crate::aiger::{digits_end, int_fits, lemma_until_end_bounds, spec_header, AigerError};
use crate::aiger::model::{
    initial_state, is_comment_header, line_text, next_line, num_labels, run_steps, spec_parse, symbol_line,
    symbol_section, Step,
};
use crate::aiger::serializer::{comments_text, symbol_text};
use crate::graph::symbols::{lemma_tag_roundtrip, SymbolKind};
use crate::text::{ascii_char, decimal};
use vstd::utf8::{decode_utf8, encode_utf8, encode_utf8_decode_utf8, encode_utf8_valid_utf8, is_ascii_chars};
use super::lines::{
    lemma_decode_no_line_feed, lemma_encode_ascii, lemma_encode_concat, lemma_encode_no_line_feed,
    lemma_int_at_decimal, lemma_line_text_no_line_feed, lemma_plain_concat, lemma_plain_decimal, lemma_plain_words,
    lemma_until_end_at, plain, text_at,
};
use super::{byte_weight, entries_readable, entries_weight};
use super::table::{entries_ok, lemma_entries_ok_concat, lemma_entries_weight_concat};
use vstd::prelude::*;

verus! {

/// The tag, index and space that open a symbol line.
spec fn symbol_head(kind: SymbolKind, idx: usize) -> Seq<char> {
    seq![ascii_char(kind.spec_tag())] + decimal(idx as nat) + " "@
}

/// The symbol line of an entry.
spec fn symbol_line_text(e: (SymbolKind, usize, Seq<char>)) -> Seq<char> {
    symbol_head(e.0, e.1) + e.2 + "\n"@
}

/// The symbol text starts with the line of the first entry.
proof fn lemma_symbol_text_front(entries: Seq<(SymbolKind, usize, Seq<char>)>)
    requires
        entries.len() > 0,
    ensures
        symbol_text(entries) == symbol_line_text(entries[0]) + symbol_text(entries.drop_first()),
    decreases entries.len(),
{
    let e = entries.last();
    assert(symbol_text(entries) =~= symbol_text(entries.drop_last()) + symbol_line_text(e));
    if entries.len() == 1 {
        assert(entries.drop_last() =~= Seq::<(SymbolKind, usize, Seq<char>)>::empty());
        assert(entries.drop_first() =~= Seq::<(SymbolKind, usize, Seq<char>)>::empty());
        assert(symbol_text(Seq::<(SymbolKind, usize, Seq<char>)>::empty()) =~= Seq::<char>::empty());
        assert(symbol_text(entries) =~= symbol_line_text(entries[0]) + symbol_text(entries.drop_first()));
    } else {
        let dl = entries.drop_last();
        lemma_symbol_text_front(dl);
        let rest = entries.drop_first();
        assert(dl[0] == entries[0]);
        assert(dl.drop_first() =~= rest.drop_last());
        assert(rest.last() == e);
        assert(symbol_text(rest) =~= symbol_text(rest.drop_last()) + symbol_line_text(e));
        assert(symbol_text(entries) =~= symbol_line_text(entries[0]) + symbol_text(entries.drop_first()));
    }
}

/// The letter of a symbol kind is a plain ASCII character.
proof fn lemma_tag_char(kind: SymbolKind)
    ensures
        plain(seq![ascii_char(kind.spec_tag())]),
        ascii_char(kind.spec_tag()) as u8 == kind.spec_tag(),
{
    let t = kind.spec_tag();
    assert((t as char) as u8 == t);
    assert('\0' <= t as char <= '\u{7f}');
    assert(seq![ascii_char(t)][0] == ascii_char(t));
}

/// The bytes of the line of a symbol entry.
proof fn lemma_symbol_line_bytes(e: (SymbolKind, usize, Seq<char>))
    ensures
        encode_utf8(symbol_line_text(e)) == encode_utf8(symbol_head(e.0, e.1)) + encode_utf8(e.2) + seq![10u8],
        plain(symbol_head(e.0, e.1)),
        text_at(encode_utf8(symbol_head(e.0, e.1)), 0, symbol_head(e.0, e.1)),
        encode_utf8(symbol_head(e.0, e.1)).len() == symbol_head(e.0, e.1).len(),
        symbol_head(e.0, e.1).len() == decimal(e.1 as nat).len() + 2,
{
    reveal_strlit("\n");
    reveal_strlit(" ");
    let head = symbol_head(e.0, e.1);
    lemma_encode_concat(head + e.2, "\n"@);
    lemma_encode_concat(head, e.2);
    lemma_plain_words();
    lemma_encode_ascii("\n"@);
    assert(encode_utf8("\n"@) =~= seq![10u8]) by {
        assert(encode_utf8("\n"@)[0] == "\n"@[0] as u8);
    }
    lemma_tag_char(e.0);
    let t = seq![ascii_char(e.0.spec_tag())];
    lemma_plain_decimal(e.1 as nat);
    lemma_plain_concat(t, decimal(e.1 as nat));
    lemma_plain_concat(t + decimal(e.1 as nat), " "@);
    lemma_encode_ascii(head);
}

/// Reading the line of a symbol entry whose name has no line feed.
proof fn lemma_symbol_line(data: Seq<u8>, pos: int, e: (SymbolKind, usize, Seq<char>), rest: Seq<u8>)
    requires
        0 <= pos <= data.len(),
        data.subrange(pos, data.len() as int) == encode_utf8(symbol_line_text(e)) + rest,
        forall|j: int| 0 <= j < e.2.len() ==> #[trigger] e.2[j] != '\n',
    ensures
        ({
            let n = encode_utf8(symbol_line_text(e)).len() as int;
            let line = data.subrange(pos, pos + n);
            &&& next_line(data, pos) == (line, pos + n)
            &&& !is_comment_header(line)
            &&& symbol_line(line) == Some((e.0, e.1 as nat, encode_utf8(e.2)))
            &&& int_fits(line_text(line), 1)
        }),
{
    let head = symbol_head(e.0, e.1);
    let h = encode_utf8(head);
    let nm = encode_utf8(e.2);
    let b = h + nm + seq![10u8];
    lemma_symbol_line_bytes(e);
    lemma_encode_no_line_feed(e.2);
    let n = b.len() as int;
    assert(encode_utf8(symbol_line_text(e)) == b);
    let tail = data.subrange(pos, data.len() as int);
    assert(tail.len() == data.len() - pos);
    assert((b + rest).len() == n + rest.len());
    assert(pos + n <= data.len());
    assert forall|i: int| 0 <= i < n implies data[pos + i] == #[trigger] b[i] by {
        assert(tail[i] == data[pos + i]);
        assert((b + rest)[i] == b[i]);
    }
    assert forall|j: int| pos <= j < pos + n - 1 implies #[trigger] data[j] != 10 by {
        assert(data[pos + (j - pos)] == b[j - pos]);
        if j - pos < h.len() {
            assert(b[j - pos] == h[j - pos]);
            assert(h[0 + (j - pos)] == head[j - pos] as u8);
        } else {
            assert(b[j - pos] == nm[j - pos - h.len()]);
        }
    }
    assert(data[pos + (n - 1)] == b[n - 1]);
    lemma_until_end_at(data, pos, pos + n - 1);
    let line = data.subrange(pos, pos + n);
    assert(line =~= b);
    let t = h + nm;
    assert(line_text(line) =~= t);
    let d = decimal(e.1 as nat);
    lemma_tag_char(e.0);
    assert(t[0] == h[0]);
    assert(h[0int + 0] == head[0] as u8);
    assert(head[0] == ascii_char(e.0.spec_tag()));
    lemma_tag_roundtrip(e.0);
    assert forall|j: int| 0 <= j < d.len() implies t[1 + j] == (#[trigger] d[j]) as u8 by {
        assert(t[1 + j] == h[1 + j]);
        assert(h[0 + (1 + j)] == head[1 + j] as u8);
        assert(head[1 + j] == d[j]);
    }
    reveal_strlit(" ");
    let q = 1 + d.len() as int;
    assert(t[q] == 32) by {
        assert(t[q] == h[q]);
        assert(h[0 + q] == head[q] as u8);
        assert(head[q] == ' ');
    }
    lemma_int_at_decimal(t, 1, e.1 as nat);
    assert(t.subrange(q + 1, t.len() as int) =~= nm);
}

/// The comment section as the writer writes it reads back as the comments.
proof fn lemma_comment_section(data: Seq<u8>, pos: int, c: Seq<char>, count: nat, bytes: nat)
    requires
        0 <= pos <= data.len(),
        data.subrange(pos, data.len() as int) == encode_utf8(comments_text(c)),
    ensures
        symbol_section(data, pos, count, bytes) == Ok::<
            (Seq<(SymbolKind, usize, Seq<char>)>, Seq<char>),
            AigerError,
        >((Seq::empty(), c)),
{
    let tail = data.subrange(pos, data.len() as int);
    if c.len() == 0 {
        assert(comments_text(c) =~= Seq::<char>::empty());
        assert(encode_utf8(Seq::<char>::empty()) =~= Seq::<u8>::empty());
        assert(tail.len() == 0);
        assert(c =~= Seq::<char>::empty());
    } else {
        reveal_strlit("c\n");
        reveal_strlit("\n");
        lemma_plain_words();
        let open = "c\n"@;
        assert(comments_text(c) == open + c + "\n"@);
        lemma_encode_concat(open + c, "\n"@);
        lemma_encode_concat(open, c);
        assert(is_ascii_chars(open)) by {
            assert('c' <= '\u{7f}');
            assert('\n' <= '\u{7f}');
        }
        lemma_encode_ascii(open);
        lemma_encode_ascii("\n"@);
        let ec = encode_utf8(c);
        let b = seq![99u8, 10u8] + ec + seq![10u8];
        assert(encode_utf8(open) =~= seq![99u8, 10u8]) by {
            assert(encode_utf8(open)[0int + 0] == open[0] as u8);
            assert(encode_utf8(open)[0int + 1] == open[1] as u8);
        }
        assert(encode_utf8("\n"@) =~= seq![10u8]) by {
            assert(encode_utf8("\n"@)[0int + 0] == "\n"@[0] as u8);
        }
        assert(tail =~= b);
        assert(tail.len() == data.len() - pos);
        assert(b.len() == ec.len() + 3);
        assert(data[pos + 0] == tail[0]);
        assert(data[pos + 1] == tail[1]);
        lemma_until_end_at(data, pos, pos + 1);
        let line = data.subrange(pos, pos + 2);
        assert(line_text(line) =~= seq![99u8]);
        assert forall|i: int| 0 <= i < ec.len() + 1 implies data.subrange(pos + 2, data.len() as int)[i] == (ec
            + seq![10u8])[i] by {
            assert(data.subrange(pos + 2, data.len() as int)[i] == data[pos + 2 + i]);
            assert(tail[2 + i] == data[pos + (2 + i)]);
            assert(b[2 + i] == (ec + seq![10u8])[i]);
        }
        assert(data.subrange(pos + 2, data.len() as int) =~= ec + seq![10u8]);
        assert(line_text(ec + seq![10u8]) =~= ec);
        encode_utf8_valid_utf8(c);
        encode_utf8_decode_utf8(c);
    }
}

/// The symbol lines and the comment section as the writer writes them read
/// back as the same entries and comments.
pub(super) proof fn lemma_symbol_section(
    data: Seq<u8>,
    pos: int,
    entries: Seq<(SymbolKind, usize, Seq<char>)>,
    c: Seq<char>,
    count: nat,
    bytes: nat,
)
    requires
        0 <= pos <= data.len(),
        data.subrange(pos, data.len() as int) == encode_utf8(symbol_text(entries)) + encode_utf8(comments_text(c)),
        entries_readable(entries, count, bytes),
    ensures
        symbol_section(data, pos, count, bytes) == Ok::<
            (Seq<(SymbolKind, usize, Seq<char>)>, Seq<char>),
            AigerError,
        >((entries, c)),
    decreases entries.len(),
{
    if entries.len() == 0 {
        assert(symbol_text(entries) =~= Seq::<char>::empty());
        assert(encode_utf8(Seq::<char>::empty()) =~= Seq::<u8>::empty());
        assert(encode_utf8(symbol_text(entries)) + encode_utf8(comments_text(c)) =~= encode_utf8(comments_text(c)));
        lemma_comment_section(data, pos, c, count, bytes);
        assert(entries =~= Seq::<(SymbolKind, usize, Seq<char>)>::empty());
    } else {
        let e = entries[0];
        let rest = entries.drop_first();
        lemma_symbol_text_front(entries);
        lemma_encode_concat(symbol_line_text(e), symbol_text(rest));
        let more = encode_utf8(symbol_text(rest)) + encode_utf8(comments_text(c));
        let el = encode_utf8(symbol_line_text(e));
        assert(data.subrange(pos, data.len() as int) =~= el + more);
        lemma_symbol_line(data, pos, e, more);
        let n = el.len() as int;
        lemma_symbol_line_bytes(e);
        assert(n > 0);
        let nm = encode_utf8(e.2);
        let added: nat = if nm.len() > 0 { 1 } else { 0 };
        assert(data.subrange(pos + n, data.len() as int) =~= more) by {
            assert(data.subrange(pos + n, data.len() as int) =~= data.subrange(pos, data.len() as int).subrange(
                n,
                data.len() - pos,
            ));
        }
        assert(e.1 < usize::MAX);
        lemma_symbol_section(data, pos + n, rest, c, count + added, bytes + nm.len());
        encode_utf8_valid_utf8(e.2);
        encode_utf8_decode_utf8(e.2);
        assert(seq![(e.0, (e.1 as nat) as usize, decode_utf8(nm))] + rest =~= entries);
    }
}

/// What the symbol section yields: entries whose names hold no line feed,
/// at indices below `usize::MAX`, within the byte limit.
proof fn lemma_parsed_entries(data: Seq<u8>, pos: int, count: nat, bytes: nat)
    requires
        symbol_section(data, pos, count, bytes) is Ok,
        bytes <= u32::MAX,
    ensures
        ({
            let e = symbol_section(data, pos, count, bytes)->Ok_0.0;
            &&& entries_ok(e)
            &&& bytes + entries_weight(e, |n: Seq<char>| byte_weight(n)) <= u32::MAX
        }),
    decreases data.len() - pos,
{
    let w = |n: Seq<char>| byte_weight(n);
    if 0 <= pos < data.len() {
        let (line, next) = next_line(data, pos);
        if !is_comment_header(line) {
            let (kind, index, name) = symbol_line(line)->0;
            let text = line_text(line);
            lemma_until_end_bounds(data, pos, 10);
            lemma_line_text_no_line_feed(data, pos);
            let p = digits_end(text, 1);
            assert(symbol_line(line) is Some);
            assert(text.len() > 0);
            crate::aiger::lemma_digits_end_bounds(text, 1);
            assert(p < text.len());
            let sub = text.subrange(p + 1, text.len() as int);
            assert(name == sub);
            assert(sub.len() == text.len() - p - 1);
            assert forall|i: int| 0 <= i < sub.len() implies #[trigger] sub[i] != 10 by {
                assert(sub[i] == text[p + 1 + i]);
            }
            lemma_decode_no_line_feed(name);
            let added: nat = if name.len() > 0 { 1 } else { 0 };
            lemma_parsed_entries(data, next, count + added, bytes + name.len());
            let rest = symbol_section(data, next, count + added, bytes + name.len())->Ok_0.0;
            let one = seq![(kind, index as usize, decode_utf8(name))];
            assert(entries_ok(one)) by {
                assert forall|q: int, j: int| 0 <= q < one.len() && 0 <= j < one[q].2.len() implies #[trigger] one[q].2[j]
                    != '\n' by {
                    assert(decode_utf8(name)[j] != '\n');
                }
            }
            lemma_entries_ok_concat(one, rest);
            lemma_entries_weight_concat(one, rest, w);
            assert(one.drop_last() =~= Seq::<(SymbolKind, usize, Seq<char>)>::empty());
            assert(entries_weight(one.drop_last(), w) == 0);
            assert(one.last() == (kind, index as usize, decode_utf8(name)));
            assert(w(decode_utf8(name)) == byte_weight(decode_utf8(name)));
            assert(entries_weight(one, w) == byte_weight(decode_utf8(name)));
        }
    }
}

/// The symbol entries of a parse: names free of line feeds, indices below
/// `usize::MAX`, and at most `u32::MAX` bytes of names in all.
pub(super) proof fn lemma_parse_symbols(data: Seq<u8>, pos: int, pre_optimize: bool)
    requires
        spec_parse(data, pos, pre_optimize) is Ok,
    ensures
        entries_ok(spec_parse(data, pos, pre_optimize)->Ok_0.symbols),
        entries_weight(spec_parse(data, pos, pre_optimize)->Ok_0.symbols, |n: Seq<char>| byte_weight(n)) <= u32::MAX,
{
    let (line, next) = next_line(data, pos);
    let h = spec_header(line)->Ok_0;
    let ascii = h.is_ascii;
    let input_kind = if ascii { Step::AsciiInput } else { Step::BinaryInput };
    let latch_kind = if ascii { Step::AsciiLatch } else { Step::BinaryLatch };
    let and_kind = if ascii { Step::AsciiAnd } else { Step::BinaryAnd };
    let s0 = run_steps(data, initial_state(h, next), h.num_inputs as nat, input_kind, h, pre_optimize)->Ok_0;
    let s1 = run_steps(data, s0, h.num_latches as nat, latch_kind, h, pre_optimize)->Ok_0;
    let s2 = run_steps(data, s1, num_labels(h) as nat, Step::Label, h, pre_optimize)->Ok_0;
    let s3 = run_steps(data, s2, h.num_and_gates as nat, and_kind, h, pre_optimize)->Ok_0;
    if ascii {
        assert(symbol_section(data, s3.pos, 0, 0) is Ok);
        lemma_parsed_entries(data, s3.pos, 0, 0);
    } else {
        let e = spec_parse(data, pos, pre_optimize)->Ok_0.symbols;
        assert(e.len() == 0);
        assert(entries_weight(e, |n: Seq<char>| byte_weight(n)) == 0);
    }
}

} // verus!
