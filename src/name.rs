//! Domain names on the wire: a length byte before each label, a zero byte at
//! the end, and compression pointers back into names decoded earlier.

use bytes::{Bytes, BytesMut};
use vstd::prelude::*;
use vstd::string::StrSliceExecFns;
use vstd::utf8::{encode_utf8, is_ascii_chars, is_ascii_chars_encode_utf8};

use crate::buffer::{bytes_mut_view, bytes_view, get_u8, put_slice, put_u8};
use crate::record::Question;
use crate::types::DnsError;

verus! {

/// The byte that separates labels in the text form of a name.
pub const DOT: u8 = 0x2e;

/// The number of bytes from `i` up to the next separator or the end of `b`.
pub open spec fn label_len_at(b: Seq<u8>, i: int) -> nat
    decreases b.len() - i,
{
    if i < 0 || i >= b.len() || b[i] == DOT {
        0
    } else {
        1 + label_len_at(b, i + 1)
    }
}

/// A label length as the one byte that the wire has for it.
pub open spec fn len_byte(n: nat) -> u8 {
    (n % 256) as u8
}

/// The wire form of a name given by its bytes: the length of the first
/// label, then each byte of the text with every separator replaced by the
/// length of the label after it, then a zero byte.
pub open spec fn encode_name_bytes(b: Seq<u8>) -> Seq<u8> {
    seq![len_byte(label_len_at(b, 0))] + Seq::new(
        b.len(),
        |k: int|
            if b[k] == DOT {
                len_byte(label_len_at(b, k + 1))
            } else {
                b[k]
            },
    ) + seq![0u8]
}

/// The wire form of a name, uncompressed.
pub open spec fn name_wire(name: Seq<char>) -> Seq<u8> {
    encode_name_bytes(encode_utf8(name))
}

proof fn lemma_label_len_step(b: Seq<u8>, i: int)
    requires
        0 <= i < b.len(),
        b[i] != DOT,
    ensures
        label_len_at(b, i) == 1 + label_len_at(b, i + 1),
{
}

/// Appends the wire form of `name` to `buf`: each label that `.` separates
/// gets a length byte before it, and a zero byte ends the name.
pub fn encode_name(buf: &mut BytesMut, name: &str)
    requires
        bytes_mut_view(*old(buf)).len() + encode_utf8(name@).len() + 2 <= isize::MAX,
    ensures
        bytes_mut_view(*final(buf)) == bytes_mut_view(*old(buf)) + name_wire(name@),
{
    let bytes = name.as_bytes();
    let ghost b = bytes@;
    let ghost base = bytes_mut_view(*buf);
    let ghost enc = encode_name_bytes(b);
    assert(enc == name_wire(name@));
    let n = bytes.len();
    let mut i: usize = 0;
    loop
        invariant
            b == bytes@,
            n == b.len(),
            enc == encode_name_bytes(b),
            enc == name_wire(name@),
            base == bytes_mut_view(*old(buf)),
            i <= n,
            i == 0 || b[i - 1] == DOT,
            base.len() + n + 2 <= isize::MAX,
            bytes_mut_view(*buf) == base + enc.subrange(0, i as int),
        decreases n - i,
    {
        let mut j: usize = i;
        while j < n && bytes[j] != DOT
            invariant
                b == bytes@,
                n == b.len(),
                i <= j <= n,
                forall|k: int| i <= k < j ==> b[k] != DOT,
                label_len_at(b, i as int) == (j - i) + label_len_at(b, j as int),
            decreases n - j,
        {
            proof {
                lemma_label_len_step(b, j as int);
            }
            j = j + 1;
        }
        assert(label_len_at(b, i as int) == j - i);
        assert(enc[i as int] == len_byte((j - i) as nat));
        put_u8(buf, ((j - i) % 256) as u8);
        put_slice(buf, &bytes[i..j]);
        assert(bytes_mut_view(*buf) == base + enc.subrange(0, j + 1)) by {
            assert(enc.subrange(0, j + 1) =~= enc.subrange(0, i as int) + seq![enc[i as int]]
                + b.subrange(i as int, j as int));
        }
        if j == n {
            put_u8(buf, 0);
            assert(enc.subrange(0, n + 2) =~= enc.subrange(0, n + 1) + seq![0u8]);
            assert(enc.subrange(0, n + 2) =~= enc);
            assert(bytes_mut_view(*buf) =~= base + enc);
            return;
        }
        i = j + 1;
    }
}

/// The text form of a byte read from a label.
pub open spec fn byte_char(b: u8) -> char {
    b as char
}

/// Where a compression pointer whose two bytes are `hi` and `lo` points.
pub open spec fn pointer_target(hi: u8, lo: u8) -> int {
    (hi as int - 192) * 256 + lo as int
}

/// The name that a pointer to `p` stands for: the latest of `prior` that
/// starts before `p` gives its text from `p` minus its start onwards.
pub open spec fn resolve_pointer(prior: Seq<Question>, p: int) -> Option<Seq<char>>
    decreases prior.len(),
{
    if prior.len() == 0 {
        None
    } else {
        let q = prior.last();
        if q.offset < p {
            let k = p - q.offset;
            if k <= q.name@.len() {
                Some(q.name@.subrange(k, q.name@.len() as int))
            } else {
                None
            }
        } else {
            resolve_pointer(prior.drop_last(), p)
        }
    }
}

/// The name at the front of `s` and the number of bytes it takes, with
/// pointers resolved against the questions `prior` decoded before it.
pub open spec fn parse_name(s: Seq<u8>, prior: Seq<Question>) -> Result<(Seq<char>, int), DnsError>
    decreases s.len(),
{
    if s.len() == 0 {
        Err(DnsError::MalformedName)
    } else if s[0] == 0 {
        Ok((Seq::empty(), 1))
    } else if s[0] >= 192 {
        if s.len() < 2 {
            Err(DnsError::MalformedName)
        } else {
            match resolve_pointer(prior, pointer_target(s[0], s[1])) {
                Some(n) => Ok((n, 2)),
                None => Err(DnsError::DanglingPointer),
            }
        }
    } else if s[0] >= 64 {
        Err(DnsError::MalformedName)
    } else {
        let n = s[0] as int;
        if s.len() < n + 2 {
            Err(DnsError::MalformedName)
        } else {
            let label = s.subrange(1, n + 1).map_values(|c: u8| byte_char(c));
            match parse_name(s.skip(n + 1), prior) {
                Ok((rest, used)) => Ok(
                    (if s[n + 1] == 0 {
                        label
                    } else {
                        label + seq!['.'] + rest
                    }, n + 1 + used),
                ),
                Err(e) => Err(e),
            }
        }
    }
}

/// `r` with `a` put before its name and `c` added to its length.
pub open spec fn prepend(a: Seq<char>, c: int, r: Result<(Seq<char>, int), DnsError>) -> Result<
    (Seq<char>, int),
    DnsError,
> {
    match r {
        Ok((n, u)) => Ok((a + n, c + u)),
        Err(e) => Err(e),
    }
}

proof fn lemma_parse_name_len(s: Seq<u8>, prior: Seq<Question>)
    ensures
        parse_name(s, prior) matches Ok((n, used)) ==> 1 <= used <= s.len(),
    decreases s.len(),
{
    if s.len() > 0 && 0 < s[0] < 64 && s.len() >= s[0] + 2 {
        lemma_parse_name_len(s.skip(s[0] + 1), prior);
    }
}

/// Relies on `String::push`: appends one char.
#[verifier::external_body]
fn push_char(s: &mut String, c: char)
    ensures
        final(s)@ == old(s)@.push(c),
{
    s.push(c)
}

/// Finds the text that a pointer to `p` stands for among `questions`.
fn find_target<'a>(questions: &'a Vec<Question>, p: usize) -> (r: Option<&'a str>)
    ensures
        match resolve_pointer(questions@, p as int) {
            Some(n) => r matches Some(t) && t@ == n,
            None => r is None,
        },
{
    let mut i = questions.len();
    assert(questions@.subrange(0, i as int) =~= questions@);
    while i > 0
        invariant
            i <= questions@.len(),
            resolve_pointer(questions@, p as int) == resolve_pointer(
                questions@.subrange(0, i as int),
                p as int,
            ),
        decreases i,
    {
        let q = &questions[i - 1];
        assert(questions@.subrange(0, i as int).drop_last() =~= questions@.subrange(0, i - 1));
        if q.offset < p {
            let k = p - q.offset;
            let len = q.name.as_str().unicode_len();
            if k <= len {
                return Some(q.name.as_str().substring_char(k, len));
            } else {
                return None;
            }
        }
        i = i - 1;
    }
    assert(questions@.subrange(0, 0) =~= Seq::<Question>::empty());
    None
}

/// Decodes a name from the front of `src`. A pointer is resolved against
/// `questions`, the questions decoded before it from the same message, and
/// ends the name. On success `src` has lost exactly the bytes of the name.
pub fn decode_name(src: &mut Bytes, questions: &Vec<Question>) -> (r: Result<String, DnsError>)
    ensures
        match parse_name(bytes_view(*old(src)), questions@) {
            Ok((n, used)) => r matches Ok(name) && name@ == n && 1 <= used <= bytes_view(
                *old(src),
            ).len() && bytes_view(*final(src)) == bytes_view(*old(src)).skip(used),
            Err(e) => r == Err::<String, DnsError>(e),
        },
{
    let ghost s0 = bytes_view(*src);
    proof {
        lemma_parse_name_len(s0, questions@);
    }
    if src.len() == 0 {
        return Err(DnsError::MalformedName);
    }
    let mut len = get_u8(src);
    let mut name = String::new();
    assert(seq![len] + bytes_view(*src) =~= s0);
    loop
        invariant
            s0 == bytes_view(*old(src)),
            s0.len() >= bytes_view(*src).len() + 1,
            bytes_view(*src) == s0.skip(s0.len() - bytes_view(*src).len()),
            parse_name(s0, questions@) == prepend(
                name@,
                s0.len() - bytes_view(*src).len() - 1,
                parse_name(seq![len] + bytes_view(*src), questions@),
            ),
        decreases bytes_view(*src).len(),
    {
        let ghost cur = bytes_view(*src);
        let ghost s = seq![len] + cur;
        if len == 0 {
            return Ok(name);
        }
        if len >= 192 {
            if src.len() == 0 {
                return Err(DnsError::MalformedName);
            }
            let lo = get_u8(src);
            let p = (len - 192) as usize * 256 + lo as usize;
            match find_target(questions, p) {
                Some(t) => {
                    name.append(t);
                    return Ok(name);
                },
                None => {
                    return Err(DnsError::DanglingPointer);
                },
            }
        }
        if len >= 64 {
            return Err(DnsError::MalformedName);
        }
        if src.len() < len as usize + 1 {
            return Err(DnsError::MalformedName);
        }
        let ghost name0 = name@;
        let mut t: u8 = 0;
        while t < len
            invariant
                t <= len < 64,
                cur.len() >= len + 1,
                bytes_view(*src) == cur.skip(t as int),
                name@ == name0 + cur.subrange(0, t as int).map_values(|c: u8| byte_char(c)),
            decreases len - t,
        {
            let c = get_u8(src);
            push_char(&mut name, c as char);
            assert(cur.subrange(0, t + 1).map_values(|c: u8| byte_char(c)) =~= cur.subrange(
                0,
                t as int,
            ).map_values(|c: u8| byte_char(c)).push(byte_char(c)));
            assert(cur.skip(t as int).skip(1) =~= cur.skip(t + 1));
            t = t + 1;
        }
        let next = get_u8(src);
        assert(cur.skip(len as int).skip(1) =~= cur.skip(len + 1));
        assert(s.skip(len + 1) =~= seq![next] + bytes_view(*src));
        assert(s.subrange(1, len + 1) =~= cur.subrange(0, len as int));
        let ghost label = cur.subrange(0, len as int).map_values(|c: u8| byte_char(c));
        let ghost c = s0.len() - cur.len() - 1;
        assert(name@ == name0 + label);
        if next != 0 {
            push_char(&mut name, '.');
            proof {
                if let Ok((rest, used)) = parse_name(seq![next] + bytes_view(*src), questions@) {
                    assert(name0 + (label + seq!['.'] + rest) =~= name@ + rest);
                }
            }
        } else {
            assert(name@ + Seq::<char>::empty() =~= name@);
        }
        len = next;
    }
}

/// The number of chars from `i` up to the next `.` or the end of `n`.
pub open spec fn label_chars_at(n: Seq<char>, i: int) -> nat
    decreases n.len() - i,
{
    if i < 0 || i >= n.len() || n[i] == '.' {
        0
    } else {
        1 + label_chars_at(n, i + 1)
    }
}

/// A name of ASCII labels of one to 63 chars each, separated by single dots.
pub open spec fn is_plain_name(n: Seq<char>) -> bool {
    &&& is_ascii_chars(n)
    &&& forall|i: int|
        (i == 0 || (0 < i <= n.len() && n[i - 1] == '.')) ==> 1 <= #[trigger] label_chars_at(n, i)
            <= 63
}

proof fn lemma_ascii_char(c: char)
    requires
        '\0' <= c <= '\u{7f}',
    ensures
        byte_char(c as u8) == c,
        (c as u8 == DOT) <==> (c == '.'),
{
}

proof fn lemma_label_len_ascii(n: Seq<char>, i: int)
    requires
        is_ascii_chars(n),
        0 <= i,
    ensures
        label_len_at(encode_utf8(n), i) == label_chars_at(n, i),
    decreases n.len() - i,
{
    is_ascii_chars_encode_utf8(n);
    if i < n.len() {
        lemma_ascii_char(n[i]);
        lemma_label_len_ascii(n, i + 1);
    }
}

proof fn lemma_label_span(b: Seq<u8>, i: int)
    requires
        0 <= i <= b.len(),
    ensures
        i + label_len_at(b, i) <= b.len(),
        forall|k: int| i <= k < i + label_len_at(b, i) ==> b[k] != DOT,
        i + label_len_at(b, i) == b.len() || b[i + label_len_at(b, i)] == DOT,
    decreases b.len() - i,
{
    if i < b.len() && b[i] != DOT {
        lemma_label_span(b, i + 1);
    }
}

proof fn lemma_wire_index(b: Seq<u8>)
    ensures
        encode_name_bytes(b).len() == b.len() + 2,
        encode_name_bytes(b)[0] == len_byte(label_len_at(b, 0)),
        encode_name_bytes(b)[b.len() + 1int] == 0,
        forall|k: int|
            0 <= k < b.len() ==> #[trigger] encode_name_bytes(b)[k + 1] == if b[k] == DOT {
                len_byte(label_len_at(b, k + 1))
            } else {
                b[k]
            },
{
}

proof fn lemma_parse_label(s: Seq<u8>, prior: Seq<Question>, l: int)
    requires
        1 <= l < 64,
        s.len() >= l + 2,
        s[0] == l,
    ensures
        parse_name(s, prior) == match parse_name(s.skip(l + 1), prior) {
            Ok((rest, used)) => Ok(
                (if s[l + 1] == 0 {
                    s.subrange(1, l + 1).map_values(|c: u8| byte_char(c))
                } else {
                    s.subrange(1, l + 1).map_values(|c: u8| byte_char(c)) + seq!['.'] + rest
                }, l + 1 + used),
            ),
            Err(e) => Err(e),
        },
{
}

proof fn lemma_wire_label(n: Seq<char>, rest: Seq<u8>, i: int)
    requires
        is_plain_name(n),
        i == 0 || (0 < i <= n.len() && n[i - 1] == '.'),
    ensures
        ({
            let l = label_chars_at(n, i) as int;
            let s = name_wire(n).skip(i) + rest;
            &&& 1 <= l < 64
            &&& i + l <= n.len()
            &&& s.len() >= l + 2
            &&& s[0] == l
            &&& s.subrange(1, l + 1).map_values(|c: u8| byte_char(c)) == n.subrange(i, i + l)
            &&& i + l == n.len() ==> s[l + 1] == 0 && s.skip(l + 1)[0] == 0
            &&& i + l < n.len() ==> n[i + l] == '.' && s[l + 1] != 0 && s.skip(l + 1)
                == name_wire(n).skip(i + l + 1) + rest
        }),
{
    let b = encode_utf8(n);
    let e = name_wire(n);
    is_ascii_chars_encode_utf8(n);
    lemma_wire_index(b);
    lemma_label_len_ascii(n, i);
    lemma_label_span(b, i);
    let l = label_len_at(b, i) as int;
    assert(1 <= label_chars_at(n, i) <= 63);
    let s = e.skip(i) + rest;
    assert(s[0] == l) by {
        if i > 0 {
            lemma_ascii_char(n[i - 1]);
            assert(e[(i - 1) + 1] == len_byte(label_len_at(b, i)));
        }
    }
    let label = s.subrange(1, l + 1).map_values(|c: u8| byte_char(c));
    assert(label =~= n.subrange(i, i + l)) by {
        assert forall|k: int| 0 <= k < l implies label[k] == n[i + k] by {
            lemma_ascii_char(n[i + k]);
            assert(e[(i + k) + 1] == b[i + k]);
        }
    }
    if i + l == n.len() {
        assert(s[l + 1] == 0);
        assert(s.skip(l + 1)[0] == 0);
    } else {
        let j = i + l + 1;
        lemma_ascii_char(n[i + l]);
        lemma_label_len_ascii(n, j);
        assert(1 <= label_chars_at(n, j) <= 63);
        assert(s.skip(l + 1) =~= e.skip(j) + rest);
        assert(e[(i + l) + 1] == len_byte(label_len_at(b, j)));
    }
}

proof fn lemma_decode_labels(n: Seq<char>, rest: Seq<u8>, prior: Seq<Question>, i: int)
    requires
        is_plain_name(n),
        i == 0 || (0 < i <= n.len() && n[i - 1] == '.'),
    ensures
        parse_name(name_wire(n).skip(i) + rest, prior) == Ok::<(Seq<char>, int), DnsError>(
            (n.subrange(i, n.len() as int), n.len() + 2 - i),
        ),
    decreases n.len() - i,
{
    let l = label_chars_at(n, i) as int;
    let s = name_wire(n).skip(i) + rest;
    lemma_wire_label(n, rest, i);
    lemma_parse_label(s, prior, l);
    if i + l == n.len() {
        assert(n.subrange(i, i + l) =~= n.subrange(i, n.len() as int));
    } else {
        let j = i + l + 1;
        lemma_decode_labels(n, rest, prior, j);
        assert(n.subrange(i, n.len() as int) =~= n.subrange(i, i + l) + seq!['.'] + n.subrange(
            j,
            n.len() as int,
        ));
    }
}

/// Decoding the uncompressed wire form of a name of ASCII labels of one to
/// 63 chars gives the name back and takes all of its bytes, whatever follows
/// and whatever questions came before.
pub proof fn lemma_name_round_trip(n: Seq<char>, rest: Seq<u8>, prior: Seq<Question>)
    requires
        is_plain_name(n),
    ensures
        parse_name(name_wire(n) + rest, prior) == Ok::<(Seq<char>, int), DnsError>(
            (n, n.len() + 2int),
        ),
{
    lemma_decode_labels(n, rest, prior, 0);
    assert(name_wire(n).skip(0) =~= name_wire(n));
    assert(n.subrange(0, n.len() as int) =~= n);
}

/// A pointer that resolves to no earlier question fails to decode.
pub proof fn lemma_dangling_pointer(s: Seq<u8>, prior: Seq<Question>)
    requires
        s.len() >= 2,
        s[0] >= 192,
        resolve_pointer(prior, pointer_target(s[0], s[1])) is None,
    ensures
        parse_name(s, prior) == Err::<(Seq<char>, int), DnsError>(DnsError::DanglingPointer),
{
}

/// A length byte whose top two bits are `01` or `10` fails to decode.
pub proof fn lemma_reserved_length(s: Seq<u8>, prior: Seq<Question>)
    requires
        s.len() >= 1,
        64 <= s[0] < 192,
    ensures
        parse_name(s, prior) == Err::<(Seq<char>, int), DnsError>(DnsError::MalformedName),
{
}

/// The UTF-8 form of a text takes at most four bytes per char.
pub proof fn lemma_utf8_len_bound(n: Seq<char>)
    ensures
        encode_utf8(n).len() <= 4 * n.len(),
    decreases n.len(),
{
    if n.len() > 0 {
        lemma_utf8_len_bound(n.drop_first());
    }
}

proof fn lemma_resolve_bound(prior: Seq<Question>, p: int, bound: int)
    requires
        forall|i: int| 0 <= i < prior.len() ==> #[trigger] prior[i].name@.len() <= bound,
    ensures
        resolve_pointer(prior, p) matches Some(n) ==> n.len() <= bound,
    decreases prior.len(),
{
    if prior.len() > 0 {
        let q = prior.last();
        assert(q.name@.len() <= bound);
        if q.offset >= p {
            assert forall|i: int| 0 <= i < prior.drop_last().len() implies #[trigger] prior.drop_last()[i].name@.len() <= bound by {
                assert(prior.drop_last()[i] == prior[i]);
            }
            lemma_resolve_bound(prior.drop_last(), p, bound);
        }
    }
}

/// A decoded name is at most `bound` chars longer than the bytes it took,
/// where `bound` bounds the names of the earlier questions.
pub proof fn lemma_parse_name_bound(s: Seq<u8>, prior: Seq<Question>, bound: int)
    requires
        0 <= bound,
        forall|i: int| 0 <= i < prior.len() ==> #[trigger] prior[i].name@.len() <= bound,
    ensures
        parse_name(s, prior) matches Ok((n, used)) ==> n.len() <= used + bound,
    decreases s.len(),
{
    if s.len() >= 2 && s[0] >= 192 {
        lemma_resolve_bound(prior, pointer_target(s[0], s[1]), bound);
    }
    if s.len() > 0 && 0 < s[0] < 64 && s.len() >= s[0] + 2 {
        lemma_parse_name_bound(s.skip(s[0] + 1), prior, bound);
    }
}

} // verus!
