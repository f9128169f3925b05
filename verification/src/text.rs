//! Comparing and cutting text.
use vstd::prelude::*;
use vstd::slice::slice_subrange;
use vstd::utf8::{char_is_scalar, encode_scalar, encode_utf8, encode_utf8_decode_utf8, valid_utf8};

verus! {

/// Tells whether two byte sequences are the same.
pub fn bytes_eq(a: &[u8], b: &[u8]) -> (r: bool)
    ensures
        r == (a@ == b@),
{
    if a.len() != b.len() {
        return false;
    }
    let mut i: usize = 0;
    while i < a.len()
        invariant
            a@.len() == b@.len(),
            0 <= i <= a@.len(),
            forall|j: int| 0 <= j < i ==> a@[j] == b@[j],
        decreases a@.len() - i,
    {
        if a[i] != b[i] {
            return false;
        }
        i = i + 1;
    }
    proof {
        assert(a@ =~= b@);
    }
    true
}

/// Copies bytes.
pub fn to_vec(bytes: &[u8]) -> (r: Vec<u8>)
    ensures
        r@ == bytes@,
{
    let mut list: Vec<u8> = Vec::new();
    let mut i: usize = 0;
    while i < bytes.len()
        invariant
            0 <= i <= bytes@.len(),
            list@ == bytes@.take(i as int),
        decreases bytes@.len() - i,
    {
        list.push(bytes[i]);
        i = i + 1;
        proof {
            assert(list@ =~= bytes@.take(i as int));
        }
    }
    proof {
        assert(bytes@.take(i as int) =~= bytes@);
    }
    list
}

/// Tells whether two texts are the same.
pub fn str_eq(a: &str, b: &str) -> (r: bool)
    ensures
        r == (a@ == b@),
{
    proof {
        encode_utf8_decode_utf8(a@);
        encode_utf8_decode_utf8(b@);
    }
    bytes_eq(a.as_bytes(), b.as_bytes())
}

/// The char has the Unicode property `White_Space`.
pub open spec fn white_space(c: char) -> bool {
    let u = c as u32;
    ||| 0x9 <= u <= 0xd
    ||| u == 0x20
    ||| u == 0x85
    ||| u == 0xa0
    ||| u == 0x1680
    ||| 0x2000 <= u <= 0x200a
    ||| u == 0x2028
    ||| u == 0x2029
    ||| u == 0x202f
    ||| u == 0x205f
    ||| u == 0x3000
}

/// `char::is_whitespace`: tells whether a char has the property `White_Space`, which
/// 25 chars have.
#[verifier::external_body]
pub(crate) fn is_white_space(c: char) -> (r: bool)
    ensures
        r == white_space(c),
{
    c.is_whitespace()
}

/// `String::from_iter` on the chars of a slice: the text is made of these chars.
#[verifier::external_body]
pub(crate) fn string_from(chars: &[char]) -> (r: String)
    ensures
        r@ == chars@,
{
    String::from_iter(chars)
}

/// The chars of a text.
pub fn to_chars(s: &str) -> (r: Vec<char>)
    ensures
        r@ == s@,
{
    let mut list: Vec<char> = Vec::new();
    for c in iter: s.chars()
        invariant
            iter.seq() == s@,
            list@ == s@.take(iter.index() as int),
    {
        list.push(c);
        proof {
            assert(list@ =~= s@.take(iter.index() + 1));
        }
    }
    proof {
        assert(list@ =~= s@);
    }
    list
}

/// `i` is the first place in `s` where `c` stands.
pub open spec fn is_first(s: Seq<char>, c: char, i: int) -> bool {
    &&& 0 <= i < s.len()
    &&& s[i] == c
    &&& forall|j: int| 0 <= j < i ==> s[j] != c
}

/// Cuts a text at the first `delimiter`. Returns what stands before and behind
/// it.
pub fn split_once(s: &str, delimiter: char) -> (r: Option<(String, String)>)
    ensures
        match r {
            Some((a, b)) => !a@.contains(delimiter) && s@ == a@.push(delimiter) + b@,
            None => !s@.contains(delimiter),
        },
{
    let chars = to_chars(s);
    let mut i: usize = 0;
    while i < chars.len()
        invariant
            chars@ == s@,
            0 <= i <= chars@.len(),
            forall|j: int| 0 <= j < i ==> chars@[j] != delimiter,
        decreases chars@.len() - i,
    {
        if chars[i] == delimiter {
            let a = string_from(slice_subrange(chars.as_slice(), 0, i));
            let b = string_from(slice_subrange(chars.as_slice(), i + 1, chars.len()));
            proof {
                assert(s@ =~= a@.push(delimiter) + b@);
            }
            return Some((a, b));
        }
        i = i + 1;
    }
    None
}

/// The decimal digits of a number.
pub open spec fn decimal(n: nat) -> Seq<char>
    decreases n,
{
    if n < 10 {
        seq![digit(n)]
    } else {
        decimal(n / 10).push(digit(n % 10))
    }
}

/// The char of a decimal digit.
pub open spec fn digit(d: nat) -> char {
    (('0' as u32 + d) as u8) as char
}

/// Writes a number in decimal digits.
pub fn to_decimal(n: u32) -> (r: String)
    ensures
        r@ == decimal(n as nat),
{
    let mut reversed: Vec<char> = Vec::new();
    let mut rest: u32 = n;
    while rest >= 10
        invariant
            decimal(n as nat) == decimal(rest as nat) + reversed@.reverse(),
        decreases rest,
    {
        let d: u8 = (rest % 10) as u8;
        let ghost before = reversed@;
        reversed.push((48 + d) as char);
        proof {
            assert(reversed@.reverse() =~= seq![digit((rest % 10) as nat)] + before.reverse());
            assert(decimal(rest as nat) == decimal((rest / 10) as nat).push(digit((rest % 10) as nat)));
            assert(decimal(n as nat) =~= decimal((rest / 10) as nat) + reversed@.reverse());
        }
        rest = rest / 10;
    }
    let ghost before = reversed@;
    reversed.push((48 + rest as u8) as char);
    proof {
        assert(reversed@.reverse() =~= seq![digit(rest as nat)] + before.reverse());
        assert(decimal(n as nat) =~= reversed@.reverse());
    }
    let mut chars: Vec<char> = Vec::new();
    let mut i: usize = reversed.len();
    while i > 0
        invariant
            0 <= i <= reversed@.len(),
            chars@ == reversed@.reverse().take(reversed@.len() - i),
        decreases i,
    {
        i = i - 1;
        chars.push(reversed[i]);
        proof {
            assert(chars@ =~= reversed@.reverse().take(reversed@.len() - i));
        }
    }
    proof {
        assert(chars@ =~= reversed@.reverse());
    }
    string_from(chars.as_slice())
}

/// A number in decimal digits, behind a `-` if it is negative.
pub open spec fn signed_decimal(n: int) -> Seq<char> {
    if n < 0 {
        seq!['-'] + decimal((-n) as nat)
    } else {
        decimal(n as nat)
    }
}

/// Writes a number in decimal digits, behind a `-` if it is negative.
pub fn to_signed_decimal(n: i32) -> (r: String)
    ensures
        r@ == signed_decimal(n as int),
{
    if n < 0 {
        proof {
            reveal_strlit("-");
            assert("-"@ =~= seq!['-']);
        }
        "-".to_owned().concat(to_decimal((-(n as i64)) as u32).as_str())
    } else {
        to_decimal(n as u32)
    }
}

/// A text without the white space at its start.
pub open spec fn trim_start(s: Seq<char>) -> Seq<char>
    decreases s.len(),
{
    if s.len() > 0 && white_space(s[0]) {
        trim_start(s.skip(1))
    } else {
        s
    }
}

/// A text without the white space at its end.
pub open spec fn trim_end(s: Seq<char>) -> Seq<char>
    decreases s.len(),
{
    if s.len() > 0 && white_space(s.last()) {
        trim_end(s.drop_last())
    } else {
        s
    }
}

/// A text without the white space at its ends.
pub open spec fn trimmed(s: Seq<char>) -> Seq<char> {
    trim_end(trim_start(s))
}

/// The part of a text without the white space at its ends.
pub fn trim(s: &[char]) -> (r: &[char])
    ensures
        r@ == trimmed(s@),
{
    let mut a: usize = 0;
    proof {
        assert(s@.skip(0) =~= s@);
    }
    while a < s.len() && is_white_space(s[a])
        invariant
            0 <= a <= s@.len(),
            trim_start(s@) == trim_start(s@.skip(a as int)),
        decreases s@.len() - a,
    {
        proof {
            assert(s@.skip(a as int).skip(1) =~= s@.skip(a + 1));
        }
        a = a + 1;
    }
    let ghost t = s@.skip(a as int);
    let mut b: usize = s.len();
    proof {
        assert(trim_start(s@) == t);
        assert(s@.subrange(a as int, b as int) =~= t);
    }
    while b > a && is_white_space(s[b - 1])
        invariant
            0 <= a <= b <= s@.len(),
            trim_end(t) == trim_end(s@.subrange(a as int, b as int)),
        decreases b,
    {
        proof {
            assert(s@.subrange(a as int, b as int).drop_last() =~= s@.subrange(a as int, b - 1));
        }
        b = b - 1;
    }
    slice_subrange(s, a, b)
}

/// The parts of a text between the places where `c` stands.
pub open spec fn split_on(s: Seq<char>, c: char) -> Seq<Seq<char>>
    decreases s.len(),
{
    if s.contains(c) {
        let i = choose|i: int| is_first(s, c, i);
        if is_first(s, c, i) {
            seq![s.take(i)] + split_on(s.skip(i + 1), c)
        } else {
            seq![s]
        }
    } else {
        seq![s]
    }
}

/// Where the part of `s` that begins at `start` ends: at the next `c`, or at the
/// end of the text.
pub fn find_from(s: &[char], c: char, start: usize) -> (r: usize)
    requires
        start <= s@.len(),
    ensures
        start <= r <= s@.len(),
        r < s@.len() ==> is_first(s@.skip(start as int), c, r - start),
        r == s@.len() ==> !s@.skip(start as int).contains(c),
{
    let mut i: usize = start;
    while i < s.len()
        invariant
            start <= i <= s@.len(),
            forall|j: int| start <= j < i ==> s@[j] != c,
        decreases s@.len() - i,
    {
        if s[i] == c {
            return i;
        }
        i = i + 1;
    }
    i
}

/// A text of several parts is its first part and what stands behind it.
pub proof fn lemma_split_step(s: Seq<char>, c: char, i: int)
    requires
        is_first(s, c, i),
    ensures
        split_on(s, c) == seq![s.take(i)] + split_on(s.skip(i + 1), c),
{
    assert(s.contains(c));
    let k = choose|k: int| is_first(s, c, k);
    assert(k == i);
}

/// Encoding texts one behind the other is encoding them together.
pub proof fn lemma_encode_concat(a: Seq<char>, b: Seq<char>)
    ensures
        encode_utf8(a + b) == encode_utf8(a) + encode_utf8(b),
    decreases a.len(),
{
    if a.len() == 0 {
        assert(a + b =~= b);
        assert(encode_utf8(a) + encode_utf8(b) =~= encode_utf8(b));
    } else {
        assert((a + b).drop_first() =~= a.drop_first() + b);
        lemma_encode_concat(a.drop_first(), b);
        assert(encode_utf8(a + b) =~= encode_utf8(a) + encode_utf8(b));
    }
}

/// A char is encoded by a byte below 0x80 exactly where it is an ASCII char, and
/// then by that byte alone.
proof fn lemma_first_byte(c: char)
    ensures
        encode_scalar(c as u32).len() > 0,
        encode_scalar(c as u32)[0] < 0x80 <==> (c as u32) < 0x80,
        (c as u32) < 0x80 ==> encode_scalar(c as u32) == seq![(c as u32) as u8],
{
    let v = c as u32;
    char_is_scalar(c);
    assert(0xC0u8 | ((v >> 6) & 0x1F) as u8 >= 0x80) by (bit_vector);
    assert(0xE0u8 | ((v >> 12) & 0x0F) as u8 >= 0x80) by (bit_vector);
    assert(0xF0u8 | ((v >> 18) & 0x7) as u8 >= 0x80) by (bit_vector);
    if v < 0x80 {
        assert((v & 0x7f) as u8 == v as u8 && (v & 0x7f) < 0x80) by (bit_vector)
            requires
                v < 0x80,
        ;
    }
}

/// The first `n` bytes of an encoded text are ASCII exactly where its first `n`
/// chars are, and then they are the same.
pub proof fn lemma_ascii_prefix(s: Seq<char>, n: int)
    requires
        0 <= n,
    ensures
        (n <= encode_utf8(s).len() && forall|i: int| 0 <= i < n ==> #[trigger] encode_utf8(s)[i] < 0x80) <==> (n
            <= s.len() && forall|i: int| 0 <= i < n ==> (#[trigger] s[i] as u32) < 0x80),
        n <= s.len() && (forall|i: int| 0 <= i < n ==> (#[trigger] s[i] as u32) < 0x80) ==> forall|i: int|
            0 <= i < n ==> #[trigger] encode_utf8(s)[i] as u32 == s[i] as u32,
        n <= s.len() && (forall|i: int| 0 <= i < n ==> (#[trigger] s[i] as u32) < 0x80) ==> encode_utf8(s).skip(n)
            == encode_utf8(s.skip(n)),
    decreases n,
{
    let bytes = encode_utf8(s);
    if n == 0 {
        assert(bytes.skip(0) =~= bytes);
        assert(s.skip(0) =~= s);
    } else if s.len() > 0 {
        let rest = s.drop_first();
        let tail = encode_utf8(rest);
        lemma_first_byte(s[0]);
        lemma_ascii_prefix(rest, n - 1);
        let first = encode_scalar(s[0] as u32);
        assert(bytes == first + tail);
        assert(bytes[0] == first[0]);
        if (s[0] as u32) < 0x80 {
            assert(first.len() == 1);
            assert forall|i: int| 0 <= i < tail.len() implies #[trigger] bytes[i + 1] == tail[i] by {}
            assert forall|i: int| 0 <= i < rest.len() implies #[trigger] rest[i] == s[i + 1] by {}
            if n <= bytes.len() && forall|i: int| 0 <= i < n ==> #[trigger] bytes[i] < 0x80 {
                assert forall|i: int| 0 <= i < n - 1 implies #[trigger] tail[i] < 0x80 by {
                    assert(bytes[i + 1] < 0x80);
                }
                assert forall|i: int| 0 <= i < n implies (#[trigger] s[i] as u32) < 0x80 by {
                    if i > 0 {
                        assert(rest[i - 1] == s[i]);
                    }
                }
            }
            if n <= s.len() && forall|i: int| 0 <= i < n ==> (#[trigger] s[i] as u32) < 0x80 {
                assert forall|i: int| 0 <= i < n - 1 implies (#[trigger] rest[i] as u32) < 0x80 by {
                    assert((s[i + 1] as u32) < 0x80);
                }
                assert forall|i: int| 0 <= i < n implies #[trigger] bytes[i] as u32 == s[i] as u32 by {
                    if i > 0 {
                        assert(bytes[i] == tail[i - 1]);
                        assert(rest[i - 1] == s[i]);
                    }
                }
                assert(bytes.skip(n) =~= tail.skip(n - 1));
                assert(rest.skip(n - 1) =~= s.skip(n));
            }
        }
    }
}

/// `String::from_utf8`: the text that the bytes encode, if they encode one.
#[verifier::external_body]
pub(crate) fn from_utf8(bytes: Vec<u8>) -> (r: Option<String>)
    ensures
        match r {
            Some(s) => valid_utf8(bytes@) && encode_utf8(s@) == bytes@,
            None => !valid_utf8(bytes@),
        },
{
    String::from_utf8(bytes).ok()
}

/// The text of bytes, where what encodes no text is replaced.
pub uninterp spec fn lossy_text(bytes: Seq<u8>) -> Seq<char>;

/// `String::from_utf8_lossy`: the text of bytes, where what encodes no text is
/// replaced by U+FFFD.
#[verifier::external_body]
pub(crate) fn from_utf8_lossy(bytes: &[u8]) -> (r: String)
    ensures
        r@ == lossy_text(bytes@),
        valid_utf8(bytes@) ==> encode_utf8(r@) == bytes@,
{
    String::from_utf8_lossy(bytes).into_owned()
}

/// The words of a text with one space between them, and whether white space
/// follows the last word.
pub open spec fn squeezed(s: Seq<char>) -> (Seq<char>, bool)
    decreases s.len(),
{
    if s.len() == 0 {
        (s, false)
    } else {
        let (r, gap) = squeezed(s.drop_last());
        let c = s.last();
        if white_space(c) {
            (r, r.len() > 0)
        } else if gap {
            (r.push(' ').push(c), false)
        } else {
            (r.push(c), false)
        }
    }
}

/// The words of a text, with one space between them.
pub fn squeeze(s: &str) -> (r: String)
    ensures
        r@ == squeezed(s@).0,
{
    let chars = to_chars(s);
    let mut list: Vec<char> = Vec::new();
    let mut gap = false;
    let mut i: usize = 0;
    while i < chars.len()
        invariant
            0 <= i <= chars@.len(),
            chars@ == s@,
            (list@, gap) == squeezed(s@.take(i as int)),
        decreases chars@.len() - i,
    {
        let c: char = chars[i];
        proof {
            assert(s@.take(i + 1).drop_last() =~= s@.take(i as int));
        }
        if is_white_space(c) {
            gap = list.len() > 0;
        } else {
            if gap {
                list.push(' ');
            }
            list.push(c);
            gap = false;
        }
        i = i + 1;
    }
    proof {
        assert(s@.take(i as int) =~= s@);
    }
    string_from(list.as_slice())
}

/// The value of a digit.
pub open spec fn digit_value(c: char, radix: nat) -> Option<nat> {
    let v = if '0' <= c <= '9' {
        Some((c as u32 - '0' as u32) as nat)
    } else if 'a' <= c <= 'f' {
        Some((c as u32 - 'a' as u32 + 10) as nat)
    } else if 'A' <= c <= 'F' {
        Some((c as u32 - 'A' as u32 + 10) as nat)
    } else {
        None
    };
    match v {
        Some(v) if v < radix => Some(v),
        _ => None,
    }
}

/// The number that digits stand for. None if one of them is no digit.
pub open spec fn digits_value(s: Seq<char>, radix: nat) -> Option<nat>
    decreases s.len(),
{
    if s.len() == 0 {
        Some(0)
    } else {
        match (digits_value(s.drop_last(), radix), digit_value(s.last(), radix)) {
            (Some(n), Some(d)) => Some(n * radix + d),
            _ => None,
        }
    }
}

/// A text without a plus sign at its start.
pub open spec fn unsigned_part(s: Seq<char>) -> Seq<char> {
    if s.len() > 0 && s[0] == '+' {
        s.skip(1)
    } else {
        s
    }
}

/// The number that a text stands for: digits, with a plus sign before them or not.
/// None if it is none, or is larger than `max`.
pub open spec fn number_value(s: Seq<char>, radix: nat, max: nat) -> Option<nat> {
    let digits = unsigned_part(s);
    if digits.len() == 0 {
        None
    } else {
        match digits_value(digits, radix) {
            Some(n) if n <= max => Some(n),
            _ => None,
        }
    }
}

/// The value of a digit.
fn to_digit(c: char, radix: u32) -> (r: Option<u32>)
    ensures
        match r {
            Some(v) => digit_value(c, radix as nat) == Some(v as nat),
            None => digit_value(c, radix as nat) is None,
        },
{
    let v: u32 = if '0' <= c && c <= '9' {
        c as u32 - 48
    } else if 'a' <= c && c <= 'f' {
        c as u32 - 97 + 10
    } else if 'A' <= c && c <= 'F' {
        c as u32 - 65 + 10
    } else {
        return None;
    };
    if v < radix {
        Some(v)
    } else {
        None
    }
}

/// Digits stand for no less than some of them do.
proof fn lemma_digits_grow(s: Seq<char>, radix: nat, i: int)
    requires
        0 <= i <= s.len(),
        radix > 0,
        digits_value(s, radix) is Some,
    ensures
        digits_value(s.take(i), radix) is Some,
        digits_value(s.take(i), radix)->0 <= digits_value(s, radix)->0,
    decreases s.len() - i,
{
    if i < s.len() {
        lemma_digits_grow(s, radix, i + 1);
        let next = s.take(i + 1);
        assert(next.drop_last() =~= s.take(i));
        let n = digits_value(s.take(i), radix)->0;
        assert(n <= n * radix) by (nonlinear_arith)
            requires
                radix > 0,
        ;
    } else {
        assert(s.take(i) =~= s);
    }
}

/// Reads a number. There are at most 2^32 - 1 of them.
pub fn parse_number(s: &str, radix: u32, max: u32) -> (r: Option<u32>)
    requires
        0 < radix <= 16,
    ensures
        match r {
            Some(n) => number_value(s@, radix as nat, max as nat) == Some(n as nat),
            None => number_value(s@, radix as nat, max as nat) is None,
        },
{
    let chars = to_chars(s);
    let start: usize = if chars.len() > 0 && chars[0] == '+' {
        1
    } else {
        0
    };
    let ghost digits = unsigned_part(s@);
    proof {
        assert(digits =~= s@.skip(start as int));
    }
    if start == chars.len() {
        return None;
    }
    let mut n: u32 = 0;
    let mut i: usize = start;
    proof {
        assert(digits.take(0) =~= Seq::empty());
    }
    while i < chars.len()
        invariant
            start <= i <= chars@.len(),
            chars@ == s@,
            digits == s@.skip(start as int),
            digits == unsigned_part(s@),
            digits.len() > 0,
            0 < radix <= 16,
            digits_value(digits.take(i - start), radix as nat) == Some(n as nat),
            n <= max,
        decreases chars@.len() - i,
    {
        let c: char = chars[i];
        let ghost next = digits.take(i - start + 1);
        proof {
            assert(next.drop_last() =~= digits.take(i - start));
            assert(next.last() == c);
            if digits_value(digits, radix as nat) is Some {
                lemma_digits_grow(digits, radix as nat, i - start + 1);
            }
        }
        match to_digit(c, radix) {
            Some(d) => {
                proof {
                    assert(0 <= n as int * radix as int <= 0xffff_ffff * 16) by (nonlinear_arith)
                        requires
                            0 <= n <= 0xffff_ffff,
                            0 <= radix <= 16,
                    ;
                }
                let wide: u64 = n as u64 * radix as u64 + d as u64;
                proof {
                    assert(wide == n as nat * radix as nat + d as nat);
                }
                if wide > max as u64 {
                    return None;
                }
                n = wide as u32;
            },
            None => {
                return None;
            },
        }
        i = i + 1;
    }
    proof {
        assert(digits.take(i - start) =~= digits);
    }
    Some(n)
}

/// The text ends with the suffix.
pub open spec fn has_suffix(s: Seq<char>, suffix: Seq<char>) -> bool {
    s.len() >= suffix.len() && s.skip(s.len() - suffix.len()) == suffix
}

/// The text without the suffix at its end, however often it stands there.
pub open spec fn without_suffix(s: Seq<char>, suffix: Seq<char>) -> Seq<char>
    decreases s.len(),
{
    if suffix.len() > 0 && has_suffix(s, suffix) {
        without_suffix(s.take(s.len() - suffix.len()), suffix)
    } else {
        s
    }
}

/// The text without the char at its start, however often it stands there.
pub open spec fn without_prefix(s: Seq<char>, c: char) -> Seq<char>
    decreases s.len(),
{
    if s.len() > 0 && s[0] == c {
        without_prefix(s.skip(1), c)
    } else {
        s
    }
}

/// Tells whether the first `len` chars end with the suffix.
fn part_has_suffix(s: &Vec<char>, len: usize, suffix: &Vec<char>) -> (r: bool)
    requires
        len <= s@.len(),
    ensures
        r == has_suffix(s@.take(len as int), suffix@),
{
    if len < suffix.len() {
        return false;
    }
    let start: usize = len - suffix.len();
    let mut i: usize = 0;
    while i < suffix.len()
        invariant
            0 <= i <= suffix@.len(),
            start + suffix@.len() == len <= s@.len(),
            forall|j: int| 0 <= j < i ==> s@[start + j] == suffix@[j],
        decreases suffix@.len() - i,
    {
        if s[start + i] != suffix[i] {
            proof {
                assert(s@.take(len as int).skip(start as int)[i as int] != suffix@[i as int]);
            }
            return false;
        }
        i = i + 1;
    }
    proof {
        assert(s@.take(len as int).skip(start as int) =~= suffix@);
    }
    true
}

/// Tells whether the text ends with the suffix.
pub fn ends_with(s: &str, suffix: &str) -> (r: bool)
    ensures
        r == has_suffix(s@, suffix@),
{
    let chars = to_chars(s);
    let end = to_chars(suffix);
    proof {
        assert(chars@.take(chars@.len() as int) =~= chars@);
    }
    part_has_suffix(&chars, chars.len(), &end)
}

/// The text without the suffix at its end, however often it stands there.
pub fn trim_end_matches(s: &str, suffix: &str) -> (r: String)
    ensures
        r@ == without_suffix(s@, suffix@),
{
    let chars = to_chars(s);
    let end = to_chars(suffix);
    let mut len: usize = chars.len();
    proof {
        assert(chars@.take(len as int) =~= chars@);
    }
    while end.len() > 0 && part_has_suffix(&chars, len, &end)
        invariant
            len <= chars@.len(),
            chars@ == s@,
            end@ == suffix@,
            without_suffix(s@, suffix@) == without_suffix(chars@.take(len as int), suffix@),
        decreases len,
    {
        proof {
            assert(chars@.take(len as int).take(len - end@.len()) =~= chars@.take(len - end@.len()));
        }
        len = len - end.len();
    }
    let r = string_from(slice_subrange(chars.as_slice(), 0, len));
    proof {
        assert(r@ =~= chars@.take(len as int));
    }
    r
}

/// The text without the char at its start, however often it stands there.
pub fn trim_start_matches(s: &str, c: char) -> (r: String)
    ensures
        r@ == without_prefix(s@, c),
{
    let chars = to_chars(s);
    let mut i: usize = 0;
    proof {
        assert(chars@.skip(0) =~= chars@);
    }
    while i < chars.len() && chars[i] == c
        invariant
            0 <= i <= chars@.len(),
            chars@ == s@,
            without_prefix(s@, c) == without_prefix(chars@.skip(i as int), c),
        decreases chars@.len() - i,
    {
        proof {
            assert(chars@.skip(i as int).skip(1) =~= chars@.skip(i + 1));
        }
        i = i + 1;
    }
    let r = string_from(slice_subrange(chars.as_slice(), i, chars.len()));
    proof {
        assert(r@ =~= chars@.skip(i as int));
    }
    r
}

/// Trimming takes away white space alone, and all that there is at the ends.
pub proof fn trimming_takes_white_space(s: Seq<char>)
    ensures
        exists|a: int, b: int| #[trigger] trims_to(s, a, b) && trimmed(s) == s.subrange(a, b),
        trimmed(s).len() > 0 ==> !white_space(trimmed(s)[0]) && !white_space(trimmed(s).last()),
{
    let t = trim_start(s);
    lemma_trim_start(s);
    lemma_trim_end(t);
    let a = s.len() - t.len();
    let b = a + trimmed(s).len();
    assert(trimmed(s) =~= s.subrange(a, b));
    assert forall|i: int| 0 <= i < s.len() && !(a <= i < b) implies white_space(#[trigger] s[i]) by {
        if i >= b {
            assert(t[i - a] == s[i]);
        }
    }
    assert(trims_to(s, a, b));
    if trimmed(s).len() > 0 {
        assert(trimmed(s)[0] == t[0]);
    }
}

/// All but the chars from `a` to `b` is white space.
pub open spec fn trims_to(s: Seq<char>, a: int, b: int) -> bool {
    &&& 0 <= a <= b <= s.len()
    &&& forall|i: int| 0 <= i < s.len() && !(a <= i < b) ==> white_space(#[trigger] s[i])
}

proof fn lemma_trim_start(s: Seq<char>)
    ensures
        trim_start(s).len() <= s.len(),
        trim_start(s) == s.skip(s.len() - trim_start(s).len()),
        forall|i: int| 0 <= i < s.len() - trim_start(s).len() ==> white_space(#[trigger] s[i]),
        trim_start(s).len() > 0 ==> !white_space(trim_start(s)[0]),
    decreases s.len(),
{
    if s.len() > 0 && white_space(s[0]) {
        let rest = s.skip(1);
        lemma_trim_start(rest);
        assert(trim_start(s) =~= s.skip(s.len() - trim_start(s).len()));
        assert forall|i: int| 0 <= i < s.len() - trim_start(s).len() implies white_space(#[trigger] s[i]) by {
            if i > 0 {
                assert(rest[i - 1] == s[i]);
            }
        }
    } else {
        assert(s.skip(0) =~= s);
    }
}

proof fn lemma_trim_end(s: Seq<char>)
    ensures
        trim_end(s).len() <= s.len(),
        trim_end(s) == s.take(trim_end(s).len() as int),
        forall|i: int| trim_end(s).len() <= i < s.len() ==> white_space(#[trigger] s[i]),
        trim_end(s).len() > 0 ==> !white_space(trim_end(s).last()),
    decreases s.len(),
{
    if s.len() > 0 && white_space(s.last()) {
        let rest = s.drop_last();
        lemma_trim_end(rest);
        assert(trim_end(s) =~= s.take(trim_end(s).len() as int));
        assert forall|i: int| trim_end(s).len() <= i < s.len() implies white_space(#[trigger] s[i]) by {
            if i < s.len() - 1 {
                assert(rest[i] == s[i]);
            }
        }
    } else {
        assert(s.take(s.len() as int) =~= s);
    }
}

/// The parts with `c` between them.
pub open spec fn joined(parts: Seq<Seq<char>>, c: char) -> Seq<char>
    decreases parts.len(),
{
    if parts.len() == 0 {
        Seq::empty()
    } else if parts.len() == 1 {
        parts[0]
    } else {
        parts[0].push(c) + joined(parts.skip(1), c)
    }
}

/// The parts that a text is split into make up the text, and `c` stands in none of them.
pub proof fn splitting_loses_nothing(s: Seq<char>, c: char)
    ensures
        split_on(s, c).len() > 0,
        joined(split_on(s, c), c) == s,
        forall|i: int| 0 <= i < split_on(s, c).len() ==> !(#[trigger] split_on(s, c)[i]).contains(c),
    decreases s.len(),
{
    let parts = split_on(s, c);
    if s.contains(c) {
        let k = choose|k: int| 0 <= k < s.len() && s[k] == c;
        lemma_some_first(s, c, k);
        let i = choose|i: int| is_first(s, c, i);
        let rest = s.skip(i + 1);
        splitting_loses_nothing(rest, c);
        assert(parts.skip(1) =~= split_on(rest, c));
        assert(s.take(i).push(c) + rest =~= s);
        assert forall|j: int| 0 <= j < parts.len() implies !(#[trigger] parts[j]).contains(c) by {
            if j > 0 {
                assert(parts[j] == split_on(rest, c)[j - 1]);
            } else {
                assert forall|m: int| 0 <= m < s.take(i).len() implies s.take(i)[m] != c by {
                    assert(s.take(i)[m] == s[m]);
                }
            }
        }
    }
}

/// If `c` stands anywhere, there is a first place where it does.
proof fn lemma_some_first(s: Seq<char>, c: char, k: int)
    requires
        0 <= k < s.len(),
        s[k] == c,
    ensures
        exists|i: int| is_first(s, c, i),
    decreases k,
{
    if forall|j: int| 0 <= j < k ==> s[j] != c {
        assert(is_first(s, c, k));
    } else {
        let j = choose|j: int| 0 <= j < k && s[j] == c;
        lemma_some_first(s, c, j);
    }
}

/// A word is kept as it is.
pub proof fn words_are_kept(s: Seq<char>)
    requires
        forall|i: int| 0 <= i < s.len() ==> !white_space(#[trigger] s[i]),
    ensures
        squeezed(s).0 == s,
        !squeezed(s).1,
    decreases s.len(),
{
    if s.len() > 0 {
        let rest = s.drop_last();
        assert forall|i: int| 0 <= i < rest.len() implies !white_space(#[trigger] rest[i]) by {
            assert(rest[i] == s[i]);
        }
        words_are_kept(rest);
        assert(rest.push(s.last()) =~= s);
        assert(s[s.len() - 1] == s.last());
    }
}

/// White space between words becomes one space, and is dropped where there is no word on
/// one of its sides.
pub proof fn white_space_becomes_one_space(a: Seq<char>, c: char, b: Seq<char>)
    requires
        white_space(c),
    ensures
        squeezed(a.push(c) + b).0 == if squeezed(a).0.len() > 0 && squeezed(b).0.len() > 0 {
            squeezed(a).0.push(' ') + squeezed(b).0
        } else {
            squeezed(a).0 + squeezed(b).0
        },
    decreases b.len(),
{
    lemma_squeezed_parts(a.push(c), b);
    assert(a.push(c).drop_last() =~= a);
}

proof fn lemma_squeezed_parts(a: Seq<char>, b: Seq<char>)
    requires
        a.len() > 0,
        white_space(a.last()),
    ensures
        squeezed(a + b) == (
            if squeezed(a).0.len() > 0 && squeezed(b).0.len() > 0 {
                squeezed(a).0.push(' ') + squeezed(b).0
            } else {
                squeezed(a).0 + squeezed(b).0
            },
            if squeezed(b).0.len() > 0 {
                squeezed(b).1
            } else {
                squeezed(a).0.len() > 0
            },
        ),
    decreases b.len(),
{
    let r = squeezed(a).0;
    if b.len() == 0 {
        assert(a + b =~= a);
        assert(r + squeezed(b).0 =~= r);
    } else {
        let rest = b.drop_last();
        let c = b.last();
        lemma_squeezed_parts(a, rest);
        assert((a + b).drop_last() =~= a + rest);
        assert((a + b).last() == c);
        let (x, gap) = squeezed(rest);
        lemma_gap(rest);
        if white_space(c) {
            assert(squeezed(a + b).0 =~= if r.len() > 0 && squeezed(b).0.len() > 0 {
                r.push(' ') + squeezed(b).0
            } else {
                r + squeezed(b).0
            });
        } else {
            assert(squeezed(b).0.len() > 0);
            if x.len() == 0 {
                assert(x =~= Seq::empty());
                assert(!gap);
                assert(squeezed(b).0 =~= seq![c]);
                if r.len() > 0 {
                    assert(squeezed(a + b).0 =~= r.push(' ') + squeezed(b).0);
                } else {
                    assert(squeezed(a + b).0 =~= r + squeezed(b).0);
                }
            } else {
                assert(squeezed(a + b).0 =~= if r.len() > 0 {
                    r.push(' ') + squeezed(b).0
                } else {
                    r + squeezed(b).0
                });
            }
        }
    }
}

/// White space follows the last word only where there is a word.
proof fn lemma_gap(s: Seq<char>)
    ensures
        squeezed(s).1 ==> squeezed(s).0.len() > 0,
    decreases s.len(),
{
    if s.len() > 0 {
        lemma_gap(s.drop_last());
    }
}

/// A number is negative exactly if a `-` stands before its digits.
pub proof fn signs_are_written(n: int)
    ensures
        n < 0 ==> signed_decimal(n)[0] == '-' && signed_decimal(n).skip(1) == decimal((-n) as nat),
        n >= 0 ==> signed_decimal(n) == decimal(n as nat),
{
    if n < 0 {
        assert(signed_decimal(n).skip(1) =~= decimal((-n) as nat));
    }
}

/// What is left without a suffix does not end with it, and with the suffix behind it often
/// enough it is the text again.
pub proof fn suffixes_are_taken_off(s: Seq<char>, suffix: Seq<char>)
    requires
        suffix.len() > 0,
    ensures
        !has_suffix(without_suffix(s, suffix), suffix),
        without_suffix(s + suffix, suffix) == without_suffix(s, suffix),
        !has_suffix(s, suffix) ==> without_suffix(s, suffix) == s,
    decreases s.len(),
{
    if has_suffix(s, suffix) {
        suffixes_are_taken_off(s.take(s.len() - suffix.len()), suffix);
    }
    let all = s + suffix;
    assert(all.skip(all.len() - suffix.len()) =~= suffix);
    assert(all.take(all.len() - suffix.len()) =~= s);
}

/// What is left without a char at its start does not begin with it.
pub proof fn prefixes_are_taken_off(s: Seq<char>, c: char)
    ensures
        without_prefix(s, c).len() > 0 ==> without_prefix(s, c)[0] != c,
        without_prefix(seq![c] + s, c) == without_prefix(s, c),
        s.len() > 0 && s[0] != c ==> without_prefix(s, c) == s,
    decreases s.len(),
{
    if s.len() > 0 && s[0] == c {
        prefixes_are_taken_off(s.skip(1), c);
    }
    assert((seq![c] + s).skip(1) =~= s);
}

} // verus!
