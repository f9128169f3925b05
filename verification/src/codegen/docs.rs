//! The doc comments of generated code, from the descriptions in a protocol file.
use linkify::LinkFinder;
use regex::Regex;
use vstd::prelude::*;
use vstd::slice::slice_subrange;
use vstd::string::*;
use vstd::utf8::{
    char_u32_cast, decode_utf8, encode_utf8, encode_utf8_decode_utf8, encode_utf8_valid_utf8, is_char_boundary,
    is_char_boundary_iff_not_is_continuation_byte, is_char_boundary_start_end_of_seq, valid_utf8, valid_utf8_split,
};
use crate::codegen::args::texts;
use crate::text::{
    find_from, lemma_ascii_prefix, lemma_encode_concat, lemma_split_step, split_on, string_from, to_chars, trim,
    trimmed,
};

verus! {

/// Where the links are that [`linkify`] finds in a text: first and last byte,
/// the latter exclusive.
pub uninterp spec fn link_spans(line: Seq<char>) -> Seq<(usize, usize)>;

/// The spans lie in the text one behind the other, and cut no char apart.
pub open spec fn spans_wf(bytes: Seq<u8>, spans: Seq<(usize, usize)>) -> bool {
    &&& forall|i: int|
        #![trigger spans[i]]
        0 <= i < spans.len() ==> {
            &&& spans[i].0 <= spans[i].1 <= bytes.len()
            &&& is_char_boundary(bytes, spans[i].0 as int)
            &&& is_char_boundary(bytes, spans[i].1 as int)
        }
    &&& forall|i: int, j: int| #![trigger spans[i], spans[j]] 0 <= i < j < spans.len() ==> spans[i].1 <= spans[j].0
}

/// `linkify::LinkFinder::links`, with the settings of a new finder: the links in
/// a line, from left to right. Each begins where the one before ends or later,
/// and can be cut out of the line. The links depend on the line alone.
#[verifier::external_body]
fn find_links(line: &str) -> (r: Vec<(usize, usize)>)
    ensures
        r@ == link_spans(line@),
        spans_wf(encode_utf8(line@), r@),
{
    LinkFinder::new().links(line).map(|link| (link.start(), link.end())).collect()
}

/// The bytes from `a` to `b` are a number in square brackets.
pub open spec fn is_reference(bytes: Seq<u8>, a: int, b: int) -> bool {
    &&& 0 <= a
    &&& a + 3 <= b <= bytes.len()
    &&& bytes[a] == 0x5b
    &&& bytes[b - 1] == 0x5d
    &&& forall|i: int| a < i < b - 1 ==> 0x30 <= #[trigger] bytes[i] <= 0x39
}

/// `regex::Regex::find` for the pattern `\[([0-9]+)\]`: the leftmost place where
/// a number stands in square brackets, by its first and last byte, the latter
/// exclusive.
#[verifier::external_body]
fn find_reference(line: &str) -> (r: Option<(usize, usize)>)
    ensures
        match r {
            Some((a, b)) => is_reference(encode_utf8(line@), a as int, b as int) && forall|c: int, d: int|
                c < a ==> !is_reference(encode_utf8(line@), c, d),
            None => forall|c: int, d: int| !is_reference(encode_utf8(line@), c, d),
        },
{
    Regex::new(r"\[([0-9]+)\]").unwrap().find(line).map(|m| (m.start(), m.end()))
}

/// The text from byte `from` on, with angle brackets around the spans from
/// number `k` on.
pub open spec fn wrapped(bytes: Seq<u8>, spans: Seq<(usize, usize)>, k: int, from: int) -> Seq<u8>
    decreases spans.len() - k,
{
    if 0 <= k < spans.len() {
        bytes.subrange(from, spans[k].0 as int) + seq![0x3cu8] + bytes.subrange(
            spans[k].0 as int,
            spans[k].1 as int,
        ) + seq![0x3eu8] + wrapped(bytes, spans, k + 1, spans[k].1 as int)
    } else {
        bytes.subrange(from, bytes.len() as int)
    }
}

/// A part of a text stays a text.
proof fn lemma_sub_boundary(bytes: Seq<u8>, a: int, b: int)
    requires
        valid_utf8(bytes),
        0 <= a <= b <= bytes.len(),
        is_char_boundary(bytes, a),
        is_char_boundary(bytes, b),
    ensures
        valid_utf8(bytes.subrange(0, b)),
        is_char_boundary(bytes.subrange(0, b), a),
{
    let part = bytes.subrange(0, b);
    valid_utf8_split(bytes, b);
    assert(valid_utf8(part));
    if a < b {
        is_char_boundary_iff_not_is_continuation_byte(bytes, a);
        is_char_boundary_iff_not_is_continuation_byte(part, a);
        assert(part[a] == bytes[a]);
    } else {
        is_char_boundary_start_end_of_seq(part);
    }
}

/// The part of a text from byte `a` to byte `b`.
fn cut(line: &str, a: usize, b: usize) -> (r: &str)
    requires
        a <= b <= encode_utf8(line@).len(),
        is_char_boundary(encode_utf8(line@), a as int),
        is_char_boundary(encode_utf8(line@), b as int),
    ensures
        encode_utf8(r@) == encode_utf8(line@).subrange(a as int, b as int),
{
    proof {
        encode_utf8_valid_utf8(line@);
        lemma_sub_boundary(encode_utf8(line@), a as int, b as int);
    }
    let (head, _) = line.split_at(b);
    let (_, part) = head.split_at(a);
    proof {
        assert(encode_utf8(part@) =~= encode_utf8(line@).subrange(a as int, b as int));
    }
    part
}

/// Puts angle brackets around the given parts of a line.
pub fn wrap_spans(line: &str, spans: &Vec<(usize, usize)>) -> (r: String)
    requires
        spans_wf(encode_utf8(line@), spans@),
    ensures
        encode_utf8(r@) == wrapped(encode_utf8(line@), spans@, 0, 0),
{
    let ghost bytes = encode_utf8(line@);
    let mut result = String::new();
    let mut current: usize = 0;
    let mut k: usize = 0;
    proof {
        encode_utf8_valid_utf8(line@);
        is_char_boundary_start_end_of_seq(bytes);
        assert(encode_utf8(result@) =~= Seq::empty());
        assert(wrapped(bytes, spans@, 0, 0) =~= encode_utf8(result@) + wrapped(bytes, spans@, 0, 0));
    }
    while k < spans.len()
        invariant
            0 <= k <= spans@.len(),
            bytes == encode_utf8(line@),
            valid_utf8(bytes),
            spans_wf(bytes, spans@),
            current <= bytes.len(),
            is_char_boundary(bytes, current as int),
            forall|i: int| k <= i < spans@.len() ==> current <= (#[trigger] spans@[i]).0,
            wrapped(bytes, spans@, 0, 0) == encode_utf8(result@) + wrapped(bytes, spans@, k as int, current as int),
        decreases spans@.len() - k,
    {
        let (start, end) = spans[k];
        let ghost r0 = encode_utf8(result@);
        let ghost before = result@;
        let head = cut(line, current, start);
        result.append(head);
        proof {
            lemma_encode_concat(before, head@);
        }
        let ghost r1 = result@;
        result.append("<");
        proof {
            reveal_strlit("<");
            lemma_encode_concat(r1, "<"@);
            lemma_ascii("<"@, 0x3c);
        }
        let ghost r2 = result@;
        let link = cut(line, start, end);
        result.append(link);
        proof {
            lemma_encode_concat(r2, link@);
        }
        let ghost r3 = result@;
        result.append(">");
        proof {
            reveal_strlit(">");
            lemma_encode_concat(r3, ">"@);
            lemma_ascii(">"@, 0x3e);
            assert(wrapped(bytes, spans@, 0, 0) =~= encode_utf8(result@) + wrapped(
                bytes,
                spans@,
                k + 1,
                end as int,
            ));
        }
        current = end;
        k = k + 1;
    }
    let tail = cut(line, current, line.as_bytes().len());
    let ghost before = result@;
    result.append(tail);
    proof {
        lemma_encode_concat(before, tail@);
    }
    result
}

/// A text of one ASCII char is encoded by one byte.
proof fn lemma_ascii(s: Seq<char>, b: u8)
    requires
        s.len() == 1,
        s[0] as u32 == b as u32,
        b < 0x80,
    ensures
        encode_utf8(s) == seq![b],
{
    reveal_with_fuel(encode_utf8, 2);
    let c = s[0] as u32;
    assert((c & 0x7f) as u8 == b) by (bit_vector)
        requires
            c == b as u32,
            b < 0x80,
    ;
    assert(encode_utf8(s) =~= seq![b]);
}

/// A line with angle brackets around its links.
pub open spec fn links_wrapped(line: Seq<char>) -> Seq<char> {
    decode_utf8(wrapped(encode_utf8(line), link_spans(line), 0, 0))
}

/// Puts angle brackets around the links in a line.
pub fn wrap_links(line: &str) -> (r: String)
    ensures
        r@ == links_wrapped(line@),
{
    let links = find_links(line);
    let r = wrap_spans(line, &links);
    proof {
        encode_utf8_decode_utf8(r@);
    }
    r
}

/// The first `n` chars are a number in square brackets.
pub open spec fn begins_with_reference(s: Seq<char>, n: int) -> bool {
    &&& 3 <= n <= s.len()
    &&& s[0] == '['
    &&& s[n - 1] == ']'
    &&& forall|i: int| 0 < i < n - 1 ==> '0' <= #[trigger] s[i] <= '9'
}

/// To begin with a number in square brackets is the same for a text and for its
/// bytes.
proof fn lemma_reference(s: Seq<char>, n: int)
    ensures
        begins_with_reference(s, n) == is_reference(encode_utf8(s), 0, n),
{
    let bytes = encode_utf8(s);
    if n >= 0 {
        lemma_ascii_prefix(s, n);
    }
    if begins_with_reference(s, n) {
        assert forall|i: int| 0 <= i < n implies (#[trigger] s[i] as u32) < 0x80 by {}
        assert forall|i: int| 0 < i < n - 1 implies 0x30 <= #[trigger] bytes[i] <= 0x39 by {
            assert('0' <= s[i] <= '9');
        }
        assert(bytes[0] as u32 == s[0] as u32);
        assert(bytes[n - 1] as u32 == s[n - 1] as u32);
    }
    if is_reference(bytes, 0, n) {
        assert forall|i: int| 0 <= i < n implies #[trigger] bytes[i] < 0x80 by {}
        assert(n <= s.len() && forall|i: int| 0 <= i < n ==> (#[trigger] s[i] as u32) < 0x80);
        assert forall|i: int| 0 < i < n - 1 implies '0' <= #[trigger] s[i] <= '9' by {
            assert((s[i] as u32) < 0x80);
            assert(bytes[i] as u32 == s[i] as u32);
            assert(0x30 <= bytes[i] <= 0x39);
            let v = s[i] as u32;
            char_u32_cast(s[i], v);
            assert(0x30 <= v <= 0x39);
            assert('0' <= (v as char) <= '9');
        }
        assert(bytes[0] as u32 == s[0] as u32 && (s[0] as u32) < 0x80);
        char_u32_cast(s[0], 0x5b);
        assert(bytes[n - 1] as u32 == s[n - 1] as u32 && (s[n - 1] as u32) < 0x80);
        char_u32_cast(s[n - 1], 0x5d);
    }
}

/// The number in square brackets at the start of a text ends at one place.
pub proof fn lemma_reference_unique(s: Seq<char>, a: int, b: int)
    requires
        begins_with_reference(s, a),
        begins_with_reference(s, b),
    ensures
        a == b,
{
    if a < b {
        assert('0' <= s[a - 1] <= '9');
    }
    if b < a {
        assert('0' <= s[b - 1] <= '9');
    }
}

/// Where the number in square brackets ends that a text begins with, if it does.
pub open spec fn leading_reference(s: Seq<char>) -> Option<int> {
    if exists|n: int| begins_with_reference(s, n) {
        Some(choose|n: int| begins_with_reference(s, n))
    } else {
        None
    }
}

/// Where the number in square brackets ends that a text begins with, if it does.
pub fn find_leading_reference(line: &[char]) -> (r: Option<usize>)
    ensures
        match r {
            Some(end) => leading_reference(line@) == Some(end as int) && begins_with_reference(line@, end as int),
            None => leading_reference(line@) is None,
        },
{
    let s = string_from(line);
    let found = find_reference(s.as_str());
    proof {
        assert forall|n: int| begins_with_reference(line@, n) == is_reference(encode_utf8(s@), 0, n) by {
            lemma_reference(line@, n);
        }
    }
    match found {
        Some((start, end)) => if start == 0 {
            proof {
                assert(begins_with_reference(line@, end as int));
                lemma_reference_unique(line@, leading_reference(line@)->0, end as int);
            }
            Some(end)
        } else {
            None
        },
        None => None,
    }
}

/// A line of a doc comment. A line that begins with a number in square brackets
/// defines a reference, which takes a colon and a space behind the brackets. In
/// other lines links are put in angle brackets.
pub open spec fn doc_line(s: Seq<char>) -> Seq<char> {
    match leading_reference(s) {
        Some(n) => if n < s.len() && s[n] == ':' {
            s
        } else {
            trimmed(s.take(n)) + seq![':', ' '] + trimmed(s.skip(n))
        },
        None => links_wrapped(s),
    }
}

/// The lines of a doc comment: the summary, an empty line, and the lines of the
/// full text.
pub open spec fn doc_lines(description: Option<(String, String)>) -> Seq<Seq<char>> {
    match description {
        Some((summary, text)) => seq![summary@, Seq::empty()] + split_on(text@, '\n').map_values(
            |line: Seq<char>| doc_line(trimmed(line)),
        ),
        None => Seq::empty(),
    }
}

/// A line of a doc comment, from a line of a description without white space at
/// its ends.
fn generate_doc_line(line: &[char]) -> (r: String)
    ensures
        r@ == doc_line(line@),
{
    if let Some(end) = find_leading_reference(line) {
        if end < line.len() && line[end] == ':' {
            return string_from(line);
        }
        // Fix cases like "[0] link". Change it to "[0]: link".
        let mut fixed = string_from(trim(slice_subrange(line, 0, end)));
        fixed.append(": ");
        fixed.append(string_from(trim(slice_subrange(line, end, line.len()))).as_str());
        proof {
            reveal_strlit(": ");
            assert(": "@ =~= seq![':', ' ']);
            assert(line@.subrange(0, end as int) =~= line@.take(end as int));
            assert(line@.subrange(end as int, line@.len() as int) =~= line@.skip(end as int));
        }
        return fixed;
    }
    wrap_links(string_from(line).as_str())
}

/// The lines of the doc comment for a description.
pub fn generate_doc_comment(description: &Option<(String, String)>) -> (r: Vec<String>)
    ensures
        texts(r@) == doc_lines(*description),
{
    let mut lines: Vec<String> = Vec::new();
    if let Some((summary, text)) = description {
        let chars = to_chars(text.as_str());
        let ghost f = |line: Seq<char>| doc_line(trimmed(line));
        let ghost all = doc_lines(*description);
        lines.push(summary.clone());
        lines.push(String::new());
        let mut start: usize = 0;
        proof {
            assert(text@.skip(0) =~= text@);
            assert(texts(lines@) =~= seq![summary@, Seq::empty()]);
        }
        loop
            invariant_except_break
                start <= chars@.len(),
                chars@ == text@,
                f == (|line: Seq<char>| doc_line(trimmed(line))),
                all == texts(lines@) + split_on(text@.skip(start as int), '\n').map_values(f),
            ensures
                texts(lines@) == all,
            decreases chars@.len() - start,
        {
            let end = find_from(chars.as_slice(), '\n', start);
            let ghost rest = text@.skip(start as int);
            let ghost before = texts(lines@);
            let line = slice_subrange(chars.as_slice(), start, end);
            let doc = generate_doc_line(trim(line));
            lines.push(doc);
            proof {
                assert(line@ =~= rest.take(end - start));
                assert(texts(lines@) =~= before.push(f(line@)));
            }
            if end >= chars.len() {
                proof {
                    assert(rest.take(end - start) =~= rest);
                    assert(split_on(rest, '\n') == seq![rest]);
                    assert(split_on(rest, '\n').map_values(f) =~= seq![f(rest)]);
                    assert(texts(lines@) =~= all);
                }
                break;
            }
            proof {
                lemma_split_step(rest, '\n', end - start);
                assert(rest.skip(end - start + 1) =~= text@.skip(end + 1));
                assert(split_on(rest, '\n').map_values(f) =~= seq![f(line@)] + split_on(
                    text@.skip(end + 1),
                    '\n',
                ).map_values(f));
                assert(all =~= texts(lines@) + split_on(text@.skip(end + 1), '\n').map_values(f));
            }
            start = end + 1;
        }
    } else {
        proof {
            assert(texts(lines@) =~= doc_lines(*description));
        }
    }
    lines
}

/// Angle brackets are put around each span, and all bytes are kept: those in front of the
/// span with number `i` are moved by the `2 * i` brackets before them.
pub proof fn spans_are_put_in_brackets(bytes: Seq<u8>, spans: Seq<(usize, usize)>, i: int, j: int)
    requires
        spans_wf(bytes, spans),
        0 <= i <= spans.len(),
    ensures
        ({
            let w = wrapped(bytes, spans, 0, 0);
            &&& w.len() == bytes.len() + 2 * spans.len()
            // Between two spans.
            &&& (if i == 0 {
                0
            } else {
                spans[i - 1].1 as int
            }) <= j < (if i < spans.len() {
                spans[i].0 as int
            } else {
                bytes.len() as int
            }) ==> w[j + 2 * i] == bytes[j]
            // In a span.
            &&& i < spans.len() ==> {
                &&& w[spans[i].0 + 2 * i] == '<' as u8
                &&& w[spans[i].1 + 2 * i + 1] == '>' as u8
                &&& spans[i].0 <= j < spans[i].1 ==> w[j + 2 * i + 1] == bytes[j]
            }
        }),
{
    lemma_wrapped(bytes, spans, 0, 0, i, j);
}

proof fn lemma_wrapped(bytes: Seq<u8>, spans: Seq<(usize, usize)>, k: int, from: int, i: int, j: int)
    requires
        spans_wf(bytes, spans),
        0 <= k <= i <= spans.len(),
        from == if k == 0 {
            0
        } else {
            spans[k - 1].1 as int
        },
    ensures
        ({
            let w = wrapped(bytes, spans, k, from);
            let shift = 2 * (i - k) - from;
            &&& 0 <= from <= bytes.len()
            &&& w.len() == bytes.len() - from + 2 * (spans.len() - k)
            &&& (if i == 0 {
                0
            } else {
                spans[i - 1].1 as int
            }) <= j < (if i < spans.len() {
                spans[i].0 as int
            } else {
                bytes.len() as int
            }) ==> w[j + shift] == bytes[j]
            &&& i < spans.len() ==> {
                &&& w[spans[i].0 + shift] == '<' as u8
                &&& w[spans[i].1 + shift + 1] == '>' as u8
                &&& spans[i].0 <= j < spans[i].1 ==> w[j + shift + 1] == bytes[j]
            }
        }),
    decreases spans.len() - k,
{
    if k > 0 {
        assert(spans[k - 1].1 <= bytes.len());
    }
    if k < spans.len() {
        let (a, b) = spans[k];
        assert(a <= b <= bytes.len());
        if k > 0 {
            assert(spans[k - 1].1 <= spans[k].0);
        }
        let head = bytes.subrange(from, a as int) + seq![0x3cu8] + bytes.subrange(a as int, b as int) + seq![0x3eu8];
        let rest = wrapped(bytes, spans, k + 1, b as int);
        let w = wrapped(bytes, spans, k, from);
        assert(w =~= head + rest);
        assert(head.len() == b - from + 2);
        if i > k {
            lemma_wrapped(bytes, spans, k + 1, b as int, i, j);
            let shift = 2 * (i - k) - from;
            if i > k + 1 {
                assert(spans[k].1 <= spans[i - 1].0);
                assert(spans[i - 1].0 <= spans[i - 1].1);
            }
            if i < spans.len() {
                assert(spans[k].1 <= spans[i].0);
                assert(spans[i].0 <= spans[i].1 <= bytes.len());
                assert(w[spans[i].0 + shift] == rest[spans[i].0 + shift - head.len()]);
                assert(w[spans[i].1 + shift + 1] == rest[spans[i].1 + shift + 1 - head.len()]);
            }
            if b <= j < bytes.len() {
                assert(w[j + shift] == rest[j + shift - head.len()]);
                if i < spans.len() && spans[i].0 <= j < spans[i].1 {
                    assert(w[j + shift + 1] == rest[j + shift + 1 - head.len()]);
                }
            }
        } else {
            lemma_wrapped(bytes, spans, k + 1, b as int, k + 1, j);
        }
    }
}

} // verus!
