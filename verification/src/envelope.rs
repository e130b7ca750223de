//! The envelope codec: a byte string written as `d1/d2/.../dn`, each `di` the
//! decimal form of one byte.

use crate::text::push_char;
use vstd::prelude::*;
use vstd::string::*;

verus! {

/// `c` is one of the ten decimal digits.
pub open spec fn is_digit(c: char) -> bool {
    '0' <= c <= '9'
}

/// The value of the decimal digit `c`.
pub open spec fn digit_value(c: char) -> int {
    c as int - 48
}

/// The character that writes the digit `d`.
pub open spec fn digit_char(d: int) -> char {
    (d + 48) as char
}

/// The decimal form of one byte, without leading zeros.
pub open spec fn byte_text(b: u8) -> Seq<char> {
    if b < 10 {
        seq![digit_char(b as int)]
    } else if b < 100 {
        seq![digit_char(b as int / 10), digit_char(b as int % 10)]
    } else {
        seq![digit_char(b as int / 100), digit_char(b as int / 10 % 10), digit_char(b as int % 10)]
    }
}

/// The envelope of a byte string: the decimal forms of its bytes, joined by
/// `/`. The envelope of the empty byte string is the empty string.
pub open spec fn encode_spec(bytes: Seq<u8>) -> Seq<char>
    decreases bytes.len(),
{
    if bytes.len() == 0 {
        Seq::empty()
    } else if bytes.len() == 1 {
        byte_text(bytes[0])
    } else {
        byte_text(bytes[0]) + seq!['/'] + encode_spec(bytes.drop_first())
    }
}

/// Every character of `s` is a decimal digit.
pub open spec fn all_digits(s: Seq<char>) -> bool {
    forall|i: int| 0 <= i < s.len() ==> is_digit(#[trigger] s[i])
}

/// The number that a string of decimal digits writes.
pub open spec fn decimal_value(digits: Seq<char>) -> int
    decreases digits.len(),
{
    if digits.len() == 0 {
        0
    } else {
        decimal_value(digits.drop_last()) * 10 + digit_value(digits.last())
    }
}

/// A fragment without its optional leading `+`.
pub open spec fn unsigned_part(fragment: Seq<char>) -> Seq<char> {
    if fragment.len() > 0 && fragment[0] == '+' {
        fragment.drop_first()
    } else {
        fragment
    }
}

/// The byte that one fragment of an envelope stands for: an optional `+`, then
/// one or more decimal digits that write a number of at most 255. Leading
/// zeros are accepted. Anything else stands for no byte.
pub open spec fn parse_fragment(fragment: Seq<char>) -> Option<u8> {
    let digits = unsigned_part(fragment);
    if digits.len() > 0 && all_digits(digits) && decimal_value(digits) <= 255 {
        Some(decimal_value(digits) as u8)
    } else {
        None
    }
}

/// The position of the first `/` in `s`, or the length of `s` if it has none.
pub open spec fn first_slash(s: Seq<char>) -> nat
    decreases s.len(),
{
    if s.len() == 0 || s[0] == '/' {
        0
    } else {
        1 + first_slash(s.drop_first())
    }
}

/// The byte string that an envelope stands for: the string is split at every
/// `/`, and every fragment must stand for a byte. The empty string is one
/// empty fragment, so it stands for nothing.
pub open spec fn decode_spec(s: Seq<char>) -> Option<Seq<u8>>
    decreases s.len(),
{
    let cut = first_slash(s);
    if cut >= s.len() {
        match parse_fragment(s) {
            Some(b) => Some(seq![b]),
            None => None,
        }
    } else {
        match (parse_fragment(s.take(cut as int)), decode_spec(s.skip((cut + 1) as int))) {
            (Some(b), Some(rest)) => Some(seq![b] + rest),
            _ => None,
        }
    }
}

/// A character that can occur in an envelope that decodes.
pub open spec fn is_envelope_char(c: char) -> bool {
    is_digit(c) || c == '/' || c == '+'
}

proof fn lemma_first_slash_bounds(s: Seq<char>)
    ensures
        first_slash(s) <= s.len(),
        forall|i: int| 0 <= i < first_slash(s) ==> s[i] != '/',
        first_slash(s) < s.len() ==> s[first_slash(s) as int] == '/',
    decreases s.len(),
{
    if s.len() == 0 || s[0] == '/' {
    } else {
        let t = s.drop_first();
        lemma_first_slash_bounds(t);
        assert forall|i: int| 0 <= i < first_slash(s) implies s[i] != '/' by {
            if i > 0 {
                assert(s[i] == t[i - 1]);
            }
        }
        if first_slash(s) < s.len() {
            assert(s[first_slash(s) as int] == t[first_slash(t) as int]);
        }
    }
}

/// The first `/` of `s` stands at `m` when nothing before `m` is a `/` and `m`
/// is the end of `s` or holds a `/`.
proof fn lemma_first_slash_is(s: Seq<char>, m: int)
    requires
        0 <= m <= s.len(),
        forall|i: int| 0 <= i < m ==> s[i] != '/',
        m < s.len() ==> s[m] == '/',
    ensures
        first_slash(s) == m,
{
    lemma_first_slash_bounds(s);
    let j = first_slash(s) as int;
    if j < m {
        assert(s[j] == '/');
    } else if j > m {
        assert(s[m] != '/');
    }
}

proof fn lemma_value_nonnegative(digits: Seq<char>)
    requires
        all_digits(digits),
    ensures
        decimal_value(digits) >= 0,
    decreases digits.len(),
{
    if digits.len() > 0 {
        let front = digits.drop_last();
        assert forall|i: int| 0 <= i < front.len() implies is_digit(#[trigger] front[i]) by {
            assert(front[i] == digits[i]);
        }
        lemma_value_nonnegative(front);
        assert(is_digit(digits.last()));
    }
}

/// More digits never write a smaller number.
proof fn lemma_value_monotone(digits: Seq<char>, m: int)
    requires
        all_digits(digits),
        0 <= m <= digits.len(),
    ensures
        decimal_value(digits.take(m)) <= decimal_value(digits),
    decreases digits.len(),
{
    if m == digits.len() {
        assert(digits.take(m) == digits);
    } else {
        let front = digits.drop_last();
        assert forall|i: int| 0 <= i < front.len() implies is_digit(#[trigger] front[i]) by {
            assert(front[i] == digits[i]);
        }
        lemma_value_monotone(front, m);
        lemma_value_nonnegative(front);
        assert(front.take(m) == digits.take(m));
        assert(is_digit(digits.last()));
    }
}

/// A fragment that holds anything but digits and a `+` stands for no byte.
proof fn lemma_fragment_rejects(fragment: Seq<char>, k: int)
    requires
        0 <= k < fragment.len(),
        !is_digit(fragment[k]),
        fragment[k] != '+' || k > 0,
    ensures
        parse_fragment(fragment) is None,
{
    let digits = unsigned_part(fragment);
    if fragment[0] == '+' {
        assert(digits[k - 1] == fragment[k]);
    } else {
        assert(digits[k] == fragment[k]);
    }
}

/// An envelope that holds a character other than a digit, `/` and `+` does not
/// decode.
pub proof fn lemma_decode_rejects(s: Seq<char>, k: int)
    requires
        0 <= k < s.len(),
        !is_envelope_char(s[k]),
    ensures
        decode_spec(s) is None,
    decreases s.len(),
{
    lemma_first_slash_bounds(s);
    let cut = first_slash(s) as int;
    if cut >= s.len() {
        lemma_fragment_rejects(s, k);
    } else if k < cut {
        assert(s.take(cut)[k] == s[k]);
        lemma_fragment_rejects(s.take(cut), k);
    } else {
        assert(s.skip(cut + 1)[k - cut - 1] == s[k]);
        lemma_decode_rejects(s.skip(cut + 1), k - cut - 1);
    }
}

proof fn lemma_parse_byte_text(b: u8)
    ensures
        parse_fragment(byte_text(b)) == Some(b),
        byte_text(b).len() >= 1,
        all_digits(byte_text(b)),
{
    let t = byte_text(b);
    reveal_with_fuel(decimal_value, 4);
    assert(unsigned_part(t) == t);
    if b < 10 {
        assert(t.drop_last() == Seq::<char>::empty());
    } else if b < 100 {
        assert(t.drop_last() == seq![digit_char(b as int / 10)]);
        assert(t.drop_last().drop_last() == Seq::<char>::empty());
    } else {
        let two = seq![digit_char(b as int / 100), digit_char(b as int / 10 % 10)];
        assert(t.drop_last() == two);
        assert(two.drop_last() == seq![digit_char(b as int / 100)]);
        assert(two.drop_last().drop_last() == Seq::<char>::empty());
    }
}

/// Decoding gives back what was encoded, for every byte string but the empty
/// one, whose envelope is the empty string and stands for nothing.
pub proof fn lemma_decode_encode(bytes: Seq<u8>)
    requires
        bytes.len() > 0,
    ensures
        decode_spec(encode_spec(bytes)) == Some(bytes),
    decreases bytes.len(),
{
    let head = byte_text(bytes[0]);
    lemma_parse_byte_text(bytes[0]);
    if bytes.len() == 1 {
        lemma_first_slash_is(head, head.len() as int);
        assert(bytes == seq![bytes[0]]);
    } else {
        let rest = bytes.drop_first();
        let e = encode_spec(bytes);
        assert(e == head + seq!['/'] + encode_spec(rest));
        lemma_first_slash_is(e, head.len() as int);
        assert(e.take(head.len() as int) == head);
        assert(e.skip((head.len() + 1) as int) == encode_spec(rest));
        lemma_decode_encode(rest);
        assert(bytes == seq![bytes[0]] + rest);
    }
}

/// The envelope of the empty byte string stands for nothing.
pub proof fn lemma_empty_envelope()
    ensures
        encode_spec(Seq::<u8>::empty()) == Seq::<char>::empty(),
        decode_spec(Seq::<char>::empty()) is None,
{
}

/// An envelope is made of digits and `/` alone, is never empty for a byte
/// string that is not, and neither starts nor ends with a `/`.
pub proof fn lemma_encode_shape(bytes: Seq<u8>)
    ensures
        forall|i: int|
            0 <= i < encode_spec(bytes).len() ==> {
                let c = #[trigger] encode_spec(bytes)[i];
                is_digit(c) || c == '/'
            },
        bytes.len() > 0 ==> encode_spec(bytes).len() >= 1 && is_digit(encode_spec(bytes)[0])
            && is_digit(encode_spec(bytes).last()),
        bytes.len() <= encode_spec(bytes).len() <= 4 * bytes.len(),
    decreases bytes.len(),
{
    if bytes.len() == 0 {
    } else {
        lemma_parse_byte_text(bytes[0]);
        let head = byte_text(bytes[0]);
        assert(is_digit(head[0]));
        assert(is_digit(head.last()));
        if bytes.len() > 1 {
            let rest = bytes.drop_first();
            lemma_encode_shape(rest);
            let tail = encode_spec(rest);
            let e = encode_spec(bytes);
            assert(e == head + seq!['/'] + tail);
            assert forall|i: int| 0 <= i < e.len() implies {
                let c = #[trigger] e[i];
                is_digit(c) || c == '/'
            } by {
                if i < head.len() {
                    assert(e[i] == head[i]);
                } else if i > head.len() {
                    assert(e[i] == tail[i - head.len() - 1]);
                }
            }
            assert(e[0] == head[0]);
            assert(e.last() == tail.last());
        }
    }
}

/// Encoding one more byte appends a `/` and the byte's decimal form.
proof fn lemma_encode_push(bytes: Seq<u8>, b: u8)
    requires
        bytes.len() > 0,
    ensures
        encode_spec(bytes.push(b)) == encode_spec(bytes) + seq!['/'] + byte_text(b),
    decreases bytes.len(),
{
    let longer = bytes.push(b);
    assert(longer[0] == bytes[0]);
    if bytes.len() == 1 {
        assert(longer.drop_first() == seq![b]);
        assert(encode_spec(seq![b]) == byte_text(b));
    } else {
        let rest = bytes.drop_first();
        lemma_encode_push(rest, b);
        assert(longer.drop_first() == rest.push(b));
        assert(encode_spec(longer) == byte_text(bytes[0]) + seq!['/'] + (encode_spec(rest) + seq![
            '/',
        ] + byte_text(b)));
    }
}

fn digit(d: u8) -> (c: char)
    requires
        d < 10,
    ensures
        c == digit_char(d as int),
{
    (48u8 + d) as char
}

fn push_byte_text(out: &mut String, b: u8)
    ensures
        final(out)@ == old(out)@ + byte_text(b),
{
    if b >= 100 {
        push_char(out, digit(b / 100));
    }
    if b >= 10 {
        push_char(out, digit((b / 10) % 10));
    }
    push_char(out, digit(b % 10));
    assert(out@ == old(out)@ + byte_text(b));
}

/// Writes a byte string as an envelope.
pub fn encode(bytes: &[u8]) -> (envelope: String)
    ensures
        envelope@ == encode_spec(bytes@),
{
    let mut out = String::new();
    let n = bytes.len();
    let mut i: usize = 0;
    while i < n
        invariant
            i <= n,
            n == bytes@.len(),
            out@ == encode_spec(bytes@.take(i as int)),
        decreases n - i,
    {
        let ghost before = bytes@.take(i as int);
        if i > 0 {
            push_char(&mut out, '/');
        }
        push_byte_text(&mut out, bytes[i]);
        proof {
            assert(bytes@.take(i + 1) == before.push(bytes@[i as int]));
            if i > 0 {
                lemma_encode_push(before, bytes@[i as int]);
            } else {
                assert(before.push(bytes@[i as int]) == seq![bytes@[i as int]]);
            }
        }
        i += 1;
    }
    assert(bytes@.take(n as int) == bytes@);
    out
}

/// Reads the fragment of `bytes` that starts at `start` and runs up to the
/// next `/` or the end: the byte it stands for and where it ends.
fn scan_fragment(bytes: &[u8], start: usize, Ghost(t): Ghost<Seq<char>>) -> (r: Option<(u8, usize)>)
    requires
        start <= bytes@.len(),
        t.len() == bytes@.len(),
        forall|i: int| 0 <= i < t.len() ==> #[trigger] t[i] as int == bytes@[i] as int,
    ensures
        ({
            let end = start + first_slash(t.skip(start as int));
            let fragment = t.subrange(start as int, end as int);
            match r {
                Some((b, e)) => e == end && parse_fragment(fragment) == Some(b),
                None => parse_fragment(fragment) is None,
            }
        }),
{
    let n = bytes.len();
    let ghost end = start + first_slash(t.skip(start as int));
    proof {
        let u = t.skip(start as int);
        lemma_first_slash_bounds(u);
        assert forall|i: int| start <= i < end implies t[i] != '/' by {
            assert(u[i - start] == t[i]);
        }
        if end < n {
            assert(u[end - start] == t[end as int]);
        }
    }
    let ghost fragment = t.subrange(start as int, end as int);
    let mut k: usize = start;
    if k < n && bytes[k] == 43u8 {
        assert(t[k as int] == '+');
        k += 1;
    }
    let first: usize = k;
    let mut acc: u16 = 0;
    proof {
        if fragment.len() > 0 {
            assert(fragment[0] == t[start as int]);
        }
        assert(unsigned_part(fragment) == t.subrange(first as int, end as int));
        assert(t.subrange(first as int, first as int) == Seq::<char>::empty());
    }
    while k < n && bytes[k] != 47u8
        invariant
            start <= first <= k <= end <= n,
            n == bytes@.len(),
            t.len() == bytes@.len(),
            forall|i: int| 0 <= i < t.len() ==> #[trigger] t[i] as int == bytes@[i] as int,
            forall|i: int| start <= i < end ==> t[i] != '/',
            end < n ==> t[end as int] == '/',
            end == start + first_slash(t.skip(start as int)),
            fragment == t.subrange(start as int, end as int),
            unsigned_part(fragment) == t.subrange(first as int, end as int),
            all_digits(t.subrange(first as int, k as int)),
            acc == decimal_value(t.subrange(first as int, k as int)),
            acc <= 255,
        decreases n - k,
    {
        let c = bytes[k];
        let ghost digits = t.subrange(first as int, end as int);
        let ghost seen = t.subrange(first as int, k as int);
        let ghost more = t.subrange(first as int, k + 1);
        proof {
            assert(t[k as int] != '/');
            assert(k < end);
            assert(digits[k - first] == t[k as int]);
        }
        if c < 48u8 || c > 57u8 {
            assert(!is_digit(digits[k - first]));
            return None;
        }
        proof {
            assert(more.drop_last() == seen);
            assert(more.last() == t[k as int]);
            assert forall|i: int| 0 <= i < more.len() implies is_digit(#[trigger] more[i]) by {
                if i < seen.len() {
                    assert(more[i] == seen[i]);
                }
            }
        }
        acc = acc * 10 + (c - 48u8) as u16;
        if acc > 255 {
            proof {
                if all_digits(digits) {
                    lemma_value_monotone(digits, k + 1 - first);
                    assert(digits.take(k + 1 - first) == more);
                }
            }
            return None;
        }
        k += 1;
    }
    proof {
        if k < end {
            assert(t[k as int] != '/');
        }
    }
    if k == first {
        return None;
    }
    Some((acc as u8, k))
}

/// Reads an envelope back into the byte string it stands for. `None` when a
/// fragment between two `/` is empty, holds anything but an optional `+` and
/// decimal digits, or writes a number above 255.
pub fn decode(envelope: &str) -> (r: Option<Vec<u8>>)
    ensures
        match r {
            Some(bytes) => decode_spec(envelope@) == Some(bytes@),
            None => decode_spec(envelope@) is None,
        },
{
    let ghost t = envelope@;
    if !envelope.is_ascii() {
        proof {
            let k = choose|k: int| 0 <= k < t.len() && !('\0' <= #[trigger] t[k] <= '\u{7f}');
            lemma_decode_rejects(t, k);
        }
        return None;
    }
    let bytes = envelope.as_bytes();
    proof {
        vstd::string::is_ascii_spec_bytes(envelope);
        assert forall|i: int| 0 <= i < t.len() implies #[trigger] t[i] as int == bytes@[i] as int
        by {
            assert('\0' <= t[i] <= '\u{7f}');
            assert(bytes@[i] == t[i] as u8);
        }
    }
    let n = bytes.len();
    let mut out: Vec<u8> = Vec::new();
    let mut i: usize = 0;
    proof {
        assert(t.skip(0) == t);
        if decode_spec(t) is Some {
            assert(out@ + decode_spec(t)->0 == decode_spec(t)->0);
        }
    }
    loop
        invariant
            i <= n,
            n == bytes@.len(),
            t == envelope@,
            t.len() == bytes@.len(),
            forall|i: int| 0 <= i < t.len() ==> #[trigger] t[i] as int == bytes@[i] as int,
            decode_spec(t) == match decode_spec(t.skip(i as int)) {
                Some(rest) => Some(out@ + rest),
                None => None,
            },
        decreases n - i,
    {
        let ghost u = t.skip(i as int);
        let ghost done = out@;
        proof {
            lemma_first_slash_bounds(u);
        }
        match scan_fragment(bytes, i, Ghost(t)) {
            None => {
                proof {
                    assert(u.take(first_slash(u) as int) == t.subrange(
                        i as int,
                        i + first_slash(u),
                    ));
                    assert(first_slash(u) >= u.len() ==> u == t.subrange(
                        i as int,
                        i + first_slash(u),
                    ));
                }
                return None;
            },
            Some((b, end)) => {
                out.push(b);
                proof {
                    assert(u.take(first_slash(u) as int) == t.subrange(i as int, end as int));
                    assert(first_slash(u) >= u.len() ==> u == t.subrange(i as int, end as int));
                }
                if end == n {
                    proof {
                        assert(done + seq![b] == out@);
                    }
                    return Some(out);
                }
                proof {
                    assert(u.skip((first_slash(u) + 1) as int) == t.skip(end + 1));
                    let tail = decode_spec(t.skip(end + 1));
                    if tail is Some {
                        assert(done + (seq![b] + tail->0) == out@ + tail->0);
                    }
                }
                i = end + 1;
            },
        }
    }
}

} // verus!
