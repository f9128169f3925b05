//! Doc comments in which references are turned into links.
use ahash::AHashMap;
use regex::Regex;
use vstd::prelude::*;
use vstd::slice::slice_subrange;
use vstd::string::*;
use crate::codegen::args::texts;
use crate::codegen::docs::{
    begins_with_reference, find_leading_reference, leading_reference, lemma_reference_unique, links_wrapped, wrap_links,
};
use crate::codegen::enums::{escape_brackets, escaped};
use crate::text::{
    decimal, find_from, lemma_split_step, number_value, parse_number, split_on, string_from, to_chars,
    to_decimal, trim, trimmed, white_space,
};

verus! {

/// The links that references stand for, by number.
pub uninterp spec fn links_of(map: AHashMap<u32, String>) -> Map<u32, Seq<char>>;

/// `AHashMap::new`: the map is empty.
#[verifier::external_body]
fn new_links() -> (r: AHashMap<u32, String>)
    ensures
        (links_of(r) == Map::<u32, Seq<char>>::empty()),
{
    AHashMap::new()
}

/// `AHashMap::insert`, as on the standard map: the value takes the place of one with
/// the same key.
#[verifier::external_body]
fn insert_link(map: &mut AHashMap<u32, String>, number: u32, link: String)
    ensures
        links_of(*final(map)) == links_of(*old(map)).insert(number, link@),
{
    map.insert(number, link);
}

/// `AHashMap::get`: the value with the given key, if there is one.
#[verifier::external_body]
fn get_link(map: &AHashMap<u32, String>, number: u32) -> (r: Option<&String>)
    ensures
        match r {
            Some(link) => links_of(*map).contains_key(number) && link@ == links_of(*map)[number],
            None => !links_of(*map).contains_key(number),
        },
{
    map.get(&number)
}

/// A number in square brackets stands from `start` to `end`, and none before it.
pub open spec fn first_reference(s: Seq<char>, start: int, end: int) -> bool {
    &&& 0 <= start <= s.len()
    &&& begins_with_reference(s.skip(start), end - start)
    &&& forall|i: int, n: int| 0 <= i < start ==> !#[trigger] begins_with_reference(s.skip(i), n)
}

/// Where the white space before `i` begins.
pub open spec fn space_start(s: Seq<char>, i: int) -> int
    decreases i,
{
    if 0 < i <= s.len() && white_space(s[i - 1]) {
        space_start(s, i - 1)
    } else {
        i
    }
}

/// The number of a reference.
pub open spec fn reference_number(s: Seq<char>, start: int, end: int) -> Option<nat> {
    number_value(s.subrange(start + 1, end - 1), 10, u32::MAX as nat)
}

/// The links that the first `n` lines define. Such a line begins with a number in
/// square brackets, which is followed by the link.
pub open spec fn defined_links(lines: Seq<Seq<char>>, n: int) -> Map<u32, Seq<char>>
    decreases n,
{
    if n <= 0 {
        Map::empty()
    } else {
        let links = defined_links(lines, n - 1);
        let line = lines[n - 1];
        match leading_reference(line) {
            Some(end) => match reference_number(line, 0, end) {
                Some(number) => links.insert(number as u32, trimmed(line.skip(end))),
                None => links,
            },
            None => links,
        }
    }
}

/// A line where the first reference is a link, with the white space before it taken
/// away. None if the reference is not defined.
pub open spec fn anchored(s: Seq<char>, links: Map<u32, Seq<char>>) -> Option<Seq<char>> {
    if exists|start: int, end: int| first_reference(s, start, end) {
        let (start, end) = choose|start: int, end: int| first_reference(s, start, end);
        match reference_number(s, start, end) {
            Some(number) if links.contains_key(number as u32) => Some(
                s.take(space_start(s, start)) + "<a href="@ + links[number as u32] + "><sup>"@ + decimal(number)
                    + "</sup></a>"@ + s.skip(end),
            ),
            _ => None,
        }
    } else {
        Some(s)
    }
}

/// The first `n` lines of a doc comment, without those that define links. None if some
/// reference is not defined.
pub open spec fn html_lines(lines: Seq<Seq<char>>, links: Map<u32, Seq<char>>, n: int) -> Option<Seq<Seq<char>>>
    decreases n,
{
    if n <= 0 {
        Some(Seq::empty())
    } else {
        match html_lines(lines, links, n - 1) {
            None => None,
            Some(list) => if leading_reference(lines[n - 1]) is Some {
                Some(list)
            } else {
                match anchored(links_wrapped(lines[n - 1]), links) {
                    Some(line) => Some(list.push(escaped(line))),
                    None => None,
                }
            },
        }
    }
}

/// The lines of a text, without white space at their ends.
pub open spec fn text_lines(text: Seq<char>) -> Seq<Seq<char>> {
    split_on(text, '\n').map_values(|line: Seq<char>| trimmed(line))
}

/// The lines of a doc comment: the summary, an empty line, and the lines of the full
/// text. None if some reference is not defined.
pub open spec fn html_doc(description: Option<(String, String)>) -> Option<Seq<Seq<char>>> {
    match description {
        None => Some(Seq::empty()),
        Some((summary, text)) => {
            let lines = text_lines(text@);
            let n = lines.len() as int;
            match html_lines(lines, defined_links(lines, n), n) {
                None => None,
                Some(list) => Some(seq![escaped(summary@), Seq::empty()] + list),
            }
        },
    }
}

/// `regex::Regex::captures` for the pattern `\s*\[([0-9]+)\]`: what stands before the
/// leftmost match, what the group matches, and what stands behind the match. The
/// leftmost match is the first number in square brackets, with the white space before
/// it. The group are the digits of the number.
#[verifier::external_body]
fn capture_reference(line: &str) -> (r: Option<(String, String, String)>)
    ensures
        match r {
            Some((head, digits, tail)) => exists|start: int, end: int| #[trigger]
                first_reference(line@, start, end) && head@ == line@.take(space_start(line@, start)) && digits@
                    == line@.subrange(start + 1, end - 1) && tail@ == line@.skip(end),
            None => forall|start: int, end: int| !first_reference(line@, start, end),
        },
{
    let captures = Regex::new(r"\s*\[([0-9]+)\]").unwrap().captures(line)?;
    let (whole, digits) = (captures.get(0)?, captures.get(1)?);
    Some((line[..whole.start()].to_owned(), digits.as_str().to_owned(), line[whole.end()..].to_owned()))
}

/// The first number in square brackets stands at one place.
proof fn lemma_first_reference_unique(s: Seq<char>, a: int, b: int, c: int, d: int)
    requires
        first_reference(s, a, b),
        first_reference(s, c, d),
    ensures
        a == c,
        b == d,
{
    lemma_reference_unique(s.skip(a), b - a, d - a);
}

/// The number of a reference at the start of a line.
fn read_reference(s: &Vec<char>, end: usize) -> (r: Option<u32>)
    requires
        3 <= end <= s@.len(),
    ensures
        match r {
            Some(n) => reference_number(s@, 0, end as int) == Some(n as nat),
            None => reference_number(s@, 0, end as int) is None,
        },
{
    parse_number(string_from(slice_subrange(s.as_slice(), 1, end - 1)).as_str(), 10, u32::MAX)
}

/// The lines of a text, without white space at their ends.
fn split_lines(text: &str) -> (r: Vec<Vec<char>>)
    ensures
        line_texts(r@) == text_lines(text@),
{
    let chars = to_chars(text);
    let mut lines: Vec<Vec<char>> = Vec::new();
    let mut start: usize = 0;
    let ghost f = |line: Seq<char>| trimmed(line);
    let ghost all = text_lines(text@);
    proof {
        assert(text@.skip(0) =~= text@);
        assert(line_texts(lines@) =~= Seq::empty());
        assert(all =~= line_texts(lines@) + split_on(text@.skip(0), '\n').map_values(f));
    }
    loop
        invariant_except_break
            start <= chars@.len(),
            chars@ == text@,
            f == (|line: Seq<char>| trimmed(line)),
            all == line_texts(lines@) + split_on(text@.skip(start as int), '\n').map_values(f),
        ensures
            line_texts(lines@) == all,
        decreases chars@.len() - start,
    {
        let end = find_from(chars.as_slice(), '\n', start);
        let ghost rest = text@.skip(start as int);
        let ghost before = line_texts(lines@);
        let line = slice_subrange(chars.as_slice(), start, end);
        let copy = to_chars(string_from(trim(line)).as_str());
        lines.push(copy);
        proof {
            assert(line@ =~= rest.take(end - start));
            assert(line_texts(lines@) =~= before.push(f(line@)));
        }
        if end >= chars.len() {
            proof {
                assert(rest.take(end - start) =~= rest);
                assert(split_on(rest, '\n') == seq![rest]);
                assert(split_on(rest, '\n').map_values(f) =~= seq![f(rest)]);
                assert(line_texts(lines@) =~= all);
            }
            break;
        }
        proof {
            lemma_split_step(rest, '\n', end - start);
            assert(rest.skip(end - start + 1) =~= text@.skip(end + 1));
            assert(split_on(rest, '\n').map_values(f) =~= seq![f(line@)] + split_on(text@.skip(end + 1), '\n').map_values(f));
            assert(all =~= line_texts(lines@) + split_on(text@.skip(end + 1), '\n').map_values(f));
        }
        start = end + 1;
    }
    lines
}

/// What lines say.
pub open spec fn line_texts(lines: Seq<Vec<char>>) -> Seq<Seq<char>> {
    lines.map_values(|line: Vec<char>| line@)
}

/// The links that lines define.
fn collect_links(lines: &Vec<Vec<char>>) -> (r: AHashMap<u32, String>)
    ensures
        links_of(r) == defined_links(line_texts(lines@), lines@.len() as int),
{
    let mut links = new_links();
    let mut i: usize = 0;
    while i < lines.len()
        invariant
            0 <= i <= lines@.len(),
            links_of(links) == defined_links(line_texts(lines@), i as int),
        decreases lines@.len() - i,
    {
        let line = &lines[i];
        proof {
            assert(line_texts(lines@)[i as int] == line@);
        }
        if let Some(end) = find_leading_reference(line.as_slice()) {
            if let Some(number) = read_reference(line, end) {
                let rest = slice_subrange(line.as_slice(), end, line.len());
                proof {
                    assert(rest@ =~= line@.skip(end as int));
                }
                insert_link(&mut links, number, string_from(trim(rest)));
            }
        }
        i = i + 1;
    }
    links
}

/// A line where the first reference is a link. None if the reference is not defined.
pub fn anchor_reference(line: &str, links: &AHashMap<u32, String>) -> (r: Option<String>)
    ensures
        match r {
            Some(text) => anchored(line@, links_of(*links)) == Some(text@),
            None => anchored(line@, links_of(*links)) is None,
        },
{
    match capture_reference(line) {
        None => Some(line.to_owned()),
        Some((head, digits, tail)) => {
            proof {
                let (start, end) = choose|start: int, end: int|
                    first_reference(line@, start, end) && head@ == line@.take(space_start(line@, start)) && digits@
                        == line@.subrange(start + 1, end - 1) && tail@ == line@.skip(end);
                let (a, b) = choose|a: int, b: int| first_reference(line@, a, b);
                lemma_first_reference_unique(line@, start, end, a, b);
            }
            match parse_number(digits.as_str(), 10, u32::MAX) {
                None => None,
                Some(number) => match get_link(links, number) {
                    None => None,
                    Some(link) => {
                        let mut text = head;
                        text.append("<a href=");
                        text.append(link.as_str());
                        text.append("><sup>");
                        text.append(to_decimal(number).as_str());
                        text.append("</sup></a>");
                        text.append(tail.as_str());
                        Some(text)
                    },
                },
            }
        },
    }
}

/// A reference that is not defined spoils all that follows.
proof fn lemma_undefined(lines: Seq<Seq<char>>, links: Map<u32, Seq<char>>, a: int, b: int)
    requires
        0 <= a <= b,
        html_lines(lines, links, a) is None,
    ensures
        html_lines(lines, links, b) is None,
    decreases b - a,
{
    if a < b {
        lemma_undefined(lines, links, a, b - 1);
    }
}

/// The lines of the doc comment for a description, where references to links become
/// links themselves. None if some reference is not defined.
pub fn generate_html_doc_comment(description: &Option<(String, String)>) -> (r: Option<Vec<String>>)
    ensures
        match r {
            Some(lines) => html_doc(*description) == Some(texts(lines@)),
            None => html_doc(*description) is None,
        },
{
    let mut list: Vec<String> = Vec::new();
    if let Some((summary, text)) = description {
        let lines = split_lines(text.as_str());
        let links = collect_links(&lines);
        list.push(escape_brackets(summary.as_str()));
        list.push(String::new());
        let ghost all = line_texts(lines@);
        let ghost head = seq![escaped(summary@), Seq::<char>::empty()];
        let mut i: usize = 0;
        proof {
            assert(texts(list@) =~= head + Seq::empty());
        }
        while i < lines.len()
            invariant
                0 <= i <= lines@.len(),
                all == line_texts(lines@),
                html_doc(*description) == match html_lines(all, links_of(links), all.len() as int) {
                    Some(list) => Some(head + list),
                    None => None,
                },
                html_lines(all, links_of(links), i as int) is Some,
                texts(list@) == head + html_lines(all, links_of(links), i as int)->0,
            decreases lines@.len() - i,
        {
            let ghost before = texts(list@);
            proof {
                assert(all[i as int] == lines@[i as int]@);
            }
            if find_leading_reference(lines[i].as_slice()).is_none() {
                let wrapped = wrap_links(string_from(lines[i].as_slice()).as_str());
                match anchor_reference(wrapped.as_str(), &links) {
                    Some(line) => {
                        list.push(escape_brackets(line.as_str()));
                        proof {
                            assert(texts(list@) =~= before.push(escaped(line@)));
                            assert(texts(list@) =~= head + html_lines(all, links_of(links), i + 1)->0);
                        }
                    },
                    None => {
                        proof {
                            lemma_undefined(all, links_of(links), i + 1, all.len() as int);
                        }
                        return None;
                    },
                }
            }
            i = i + 1;
        }
    } else {
        proof {
            assert(texts(list@) =~= Seq::empty());
        }
    }
    Some(list)
}

/// A line without a number in square brackets is kept. The first such number becomes a link
/// to what is defined for it, and takes the place of the white space before it. A number
/// for which nothing is defined is an error.
pub proof fn references_become_links(s: Seq<char>, links: Map<u32, Seq<char>>, start: int, end: int, number: nat)
    ensures
        (forall|a: int, b: int| !first_reference(s, a, b)) ==> anchored(s, links) == Some(s),
        first_reference(s, start, end) && number_value(s.subrange(start + 1, end - 1), 10, u32::MAX as nat) == Some(number)
            ==> {
            &&& !links.contains_key(number as u32) ==> anchored(s, links) is None
            &&& links.contains_key(number as u32) ==> (anchored(s, links) matches Some(line) && {
                let head = space_start(s, start);
                &&& 0 <= head <= start
                &&& forall|i: int| head <= i < start ==> white_space(#[trigger] s[i])
                &&& head > 0 ==> !white_space(s[head - 1])
                &&& line == s.take(head) + "<a href="@ + links[number as u32] + "><sup>"@ + decimal(number)
                    + "</sup></a>"@ + s.skip(end)
            })
        },
{
    if first_reference(s, start, end) {
        let (a, b) = choose|a: int, b: int| first_reference(s, a, b);
        lemma_first_reference_unique(s, start, end, a, b);
        lemma_space_start(s, start);
    }
}

proof fn lemma_space_start(s: Seq<char>, i: int)
    requires
        0 <= i <= s.len(),
    ensures
        0 <= space_start(s, i) <= i,
        forall|k: int| space_start(s, i) <= k < i ==> white_space(#[trigger] s[k]),
        space_start(s, i) > 0 ==> !white_space(s[space_start(s, i) - 1]),
    decreases i,
{
    if 0 < i && white_space(s[i - 1]) {
        lemma_space_start(s, i - 1);
    }
}

/// A line that begins with a number in square brackets defines a link, which is the rest of
/// the line. The last definition of a number counts. Other lines define nothing.
pub proof fn links_are_defined_by_lines(lines: Seq<Seq<char>>, n: int, end: int, number: nat, other: u32)
    requires
        0 < n <= lines.len(),
    ensures
        begins_with_reference(lines[n - 1], end) && number_value(
            lines[n - 1].subrange(1, end - 1),
            10,
            u32::MAX as nat,
        ) == Some(number) ==> {
            let links = defined_links(lines, n);
            &&& links.contains_key(number as u32)
            &&& links[number as u32] == trimmed(lines[n - 1].skip(end))
            &&& other != number ==> links.contains_key(other) == defined_links(lines, n - 1).contains_key(other)
            &&& other != number && links.contains_key(other) ==> links[other] == defined_links(lines, n - 1)[other]
        },
        (forall|e: int| !#[trigger] begins_with_reference(lines[n - 1], e)) ==> defined_links(lines, n) == defined_links(lines, n - 1),
{
    if begins_with_reference(lines[n - 1], end) {
        lemma_reference_unique(lines[n - 1], leading_reference(lines[n - 1])->0, end);
    }
}

} // verus!
