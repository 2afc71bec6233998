//! Whole messages: the questions of a request, the response that answers
//! them locally, and the pieces of a request relayed to an upstream resolver.

use bytes::{Bytes, BytesMut};
use vstd::prelude::*;

use vstd::utf8::encode_utf8;

use crate::buffer::{bytes_mut_view, bytes_view, put_slice, unread};
use crate::header::{parse_header, Header, HEADER_LENGTH};
use crate::name::{lemma_parse_name_bound, lemma_utf8_len_bound, parse_name, resolve_pointer};
use crate::record::{next_offset, parse_question, Answer, Question};
use crate::types::{Class, DnsError, QueryResponse, ResponseCode, Type};

verus! {

/// Question `i` of `qs` is what decoding gives at its offset after the
/// questions before it, where `s` is the message after its header.
pub open spec fn question_at(s: Seq<u8>, qs: Seq<Question>, i: int) -> bool {
    let prior = qs.subrange(0, i);
    &&& qs[i].offset == next_offset(prior)
    &&& next_offset(prior) - HEADER_LENGTH <= s.len()
    &&& parse_question(s.skip(next_offset(prior) - HEADER_LENGTH), prior) == Ok::<
        (Seq<char>, Type, Class, int),
        DnsError,
    >((qs[i].name@, qs[i].q_type, qs[i].class, qs[i].len as int))
}

/// `qs` are the first questions of a message whose bytes after the header
/// are `s`, decoded one after the other.
pub open spec fn decoded_in_order(s: Seq<u8>, qs: Seq<Question>) -> bool {
    &&& forall|i: int| 0 <= i < qs.len() ==> #[trigger] question_at(s, qs, i)
    &&& HEADER_LENGTH <= next_offset(qs) <= HEADER_LENGTH + s.len()
}

/// Decodes `count` questions from `src`, which holds a message after its
/// header. Each question resolves pointers against those before it.
pub fn decode_questions(src: &mut Bytes, count: u16) -> (r: Result<Vec<Question>, DnsError>)
    requires
        bytes_view(*old(src)).len() + HEADER_LENGTH <= usize::MAX,
    ensures
        r matches Ok(qs) ==> {
            &&& qs@.len() == count
            &&& decoded_in_order(bytes_view(*old(src)), qs@)
            &&& bytes_view(*final(src)) == bytes_view(*old(src)).skip(
                next_offset(qs@) - HEADER_LENGTH,
            )
            &&& forall|i: int|
                0 <= i < qs@.len() ==> #[trigger] qs@[i].name@.len() <= next_offset(qs@)
                    - HEADER_LENGTH
        },
        r matches Err(e) ==> exists|qs: Seq<Question>|
            {
                &&& qs.len() < count
                &&& decoded_in_order(bytes_view(*old(src)), qs)
                &&& #[trigger] parse_question(
                    bytes_view(*old(src)).skip(next_offset(qs) - HEADER_LENGTH),
                    qs,
                ) == Err::<(Seq<char>, Type, Class, int), DnsError>(e)
            },
{
    let ghost s = bytes_view(*src);
    let mut questions: Vec<Question> = Vec::new();
    let mut i: u16 = 0;
    while i < count
        invariant
            s == bytes_view(*old(src)),
            s.len() + HEADER_LENGTH <= usize::MAX,
            i <= count,
            questions@.len() == i,
            decoded_in_order(s, questions@),
            bytes_view(*src) == s.skip(next_offset(questions@) - HEADER_LENGTH),
            forall|k: int|
                0 <= k < questions@.len() ==> #[trigger] questions@[k].name@.len() <= next_offset(
                    questions@,
                ) - HEADER_LENGTH,
        decreases count - i,
    {
        let ghost prior = questions@;
        let ghost start = next_offset(prior);
        proof {
            lemma_parse_name_bound(bytes_view(*src), prior, start - HEADER_LENGTH);
            assert(prior.subrange(0, prior.len() as int) =~= prior);
        }
        let q = match Question::from_bytes(src, &questions) {
            Ok(q) => q,
            Err(e) => {
                assert(parse_question(s.skip(next_offset(prior) - HEADER_LENGTH), prior) == Err::<
                    (Seq<char>, Type, Class, int),
                    DnsError,
                >(e));
                return Err(e);
            },
        };
        let ghost gq = q;
        questions.push(q);
        proof {
            let qs = questions@;
            assert(qs.last() == gq);
            assert(qs.subrange(0, prior.len() as int) =~= prior);
            assert forall|k: int| 0 <= k < qs.len() implies #[trigger] question_at(s, qs, k) by {
                if k < prior.len() {
                    assert(qs.subrange(0, k) =~= prior.subrange(0, k));
                    assert(question_at(s, prior, k));
                }
            }
            assert(s.skip(start - HEADER_LENGTH).skip(gq.len as int) =~= s.skip(
                next_offset(qs) - HEADER_LENGTH,
            ));
        }
        i = i + 1;
    }
    Ok(questions)
}

/// `m` is a message with header `h` whose questions decode to `qs`.
pub open spec fn decodes_to(m: Seq<u8>, h: Header, qs: Seq<Question>) -> bool {
    &&& parse_header(m) == Ok::<Header, DnsError>(h)
    &&& qs.len() == h.qd_count
    &&& decoded_in_order(m.skip(HEADER_LENGTH as int), qs)
}

/// Decoding the message `m` stops with `e`: at its header, or at the first
/// question that does not decode.
pub open spec fn fails_with(m: Seq<u8>, e: DnsError) -> bool {
    match parse_header(m) {
        Err(f) => f == e,
        Ok(h) => exists|qs: Seq<Question>|
            {
                &&& qs.len() < h.qd_count
                &&& decoded_in_order(m.skip(HEADER_LENGTH as int), qs)
                &&& #[trigger] parse_question(
                    m.skip(HEADER_LENGTH as int).skip(next_offset(qs) - HEADER_LENGTH),
                    qs,
                ) == Err::<(Seq<char>, Type, Class, int), DnsError>(e)
            },
    }
}

/// `a` and `b` agree on what decoding reads of earlier questions: names,
/// offsets and lengths.
pub open spec fn same_views(a: Seq<Question>, b: Seq<Question>) -> bool {
    &&& a.len() == b.len()
    &&& forall|k: int|
        0 <= k < a.len() ==> #[trigger] a[k].name@ == b[k].name@ && a[k].offset == b[k].offset
            && a[k].len == b[k].len
}

proof fn lemma_resolve_same(a: Seq<Question>, b: Seq<Question>, p: int)
    requires
        same_views(a, b),
    ensures
        resolve_pointer(a, p) == resolve_pointer(b, p),
    decreases a.len(),
{
    if a.len() > 0 {
        let k = a.len() - 1;
        assert(a[k].name@ == b[k].name@ && a[k].offset == b[k].offset);
        assert(same_views(a.drop_last(), b.drop_last())) by {
            assert forall|i: int| 0 <= i < a.drop_last().len() implies #[trigger] a.drop_last()[i].name@
                == b.drop_last()[i].name@ && a.drop_last()[i].offset == b.drop_last()[i].offset
                && a.drop_last()[i].len == b.drop_last()[i].len by {
                assert(a[i].name@ == b[i].name@);
            }
        }
        lemma_resolve_same(a.drop_last(), b.drop_last(), p);
    }
}

proof fn lemma_parse_name_same(s: Seq<u8>, a: Seq<Question>, b: Seq<Question>)
    requires
        same_views(a, b),
    ensures
        parse_name(s, a) == parse_name(s, b),
    decreases s.len(),
{
    if s.len() >= 2 && s[0] >= 192 {
        lemma_resolve_same(a, b, crate::name::pointer_target(s[0], s[1]));
    }
    if s.len() > 0 && 0 < s[0] < 64 && s.len() >= s[0] + 2 {
        lemma_parse_name_same(s.skip(s[0] + 1), a, b);
    }
}

proof fn lemma_prefixes_agree(s: Seq<u8>, a: Seq<Question>, b: Seq<Question>, i: int)
    requires
        decoded_in_order(s, a),
        decoded_in_order(s, b),
        0 <= i <= a.len(),
        i <= b.len(),
    ensures
        same_views(a.subrange(0, i), b.subrange(0, i)),
    decreases i,
{
    if i > 0 {
        let j = i - 1;
        lemma_prefixes_agree(s, a, b, j);
        let pa = a.subrange(0, j);
        let pb = b.subrange(0, j);
        assert(question_at(s, a, j));
        assert(question_at(s, b, j));
        if j > 0 {
            assert(pa[j - 1].offset == pb[j - 1].offset && pa[j - 1].len == pb[j - 1].len);
        }
        assert(next_offset(pa) == next_offset(pb));
        lemma_parse_name_same(s.skip(next_offset(pa) - HEADER_LENGTH), pa, pb);
        assert(parse_question(s.skip(next_offset(pa) - HEADER_LENGTH), pa) == parse_question(
            s.skip(next_offset(pb) - HEADER_LENGTH),
            pb,
        ));
        assert forall|k: int| 0 <= k < i implies #[trigger] a.subrange(0, i)[k].name@ == b.subrange(
            0,
            i,
        )[k].name@ && a.subrange(0, i)[k].offset == b.subrange(0, i)[k].offset && a.subrange(
            0,
            i,
        )[k].len == b.subrange(0, i)[k].len by {
            if k < j {
                assert(a.subrange(0, i)[k] == pa[k]);
                assert(b.subrange(0, i)[k] == pb[k]);
            }
        }
    }
}

/// A message cannot both decode and fail to decode: decoding is a function
/// of the bytes.
pub proof fn lemma_decode_exclusive(m: Seq<u8>, h: Header, qs: Seq<Question>, e: DnsError)
    requires
        decodes_to(m, h, qs),
    ensures
        !fails_with(m, e),
{
    let s = m.skip(HEADER_LENGTH as int);
    if fails_with(m, e) {
        let ps = choose|ps: Seq<Question>|
            {
                &&& ps.len() < h.qd_count
                &&& decoded_in_order(s, ps)
                &&& #[trigger] parse_question(s.skip(next_offset(ps) - HEADER_LENGTH), ps) == Err::<
                    (Seq<char>, Type, Class, int),
                    DnsError,
                >(e)
            };
        let n = ps.len() as int;
        lemma_prefixes_agree(s, ps, qs, n);
        assert(ps.subrange(0, n) =~= ps);
        let pq = qs.subrange(0, n);
        assert(question_at(s, qs, n));
        if n > 0 {
            assert(ps.subrange(0, n)[n - 1].name@ == pq[n - 1].name@);
            assert(ps[n - 1].offset == pq[n - 1].offset && ps[n - 1].len == pq[n - 1].len);
        }
        lemma_parse_name_same(s.skip(next_offset(ps) - HEADER_LENGTH), ps, pq);
    }
}

/// The message `m` decodes: its header and all its questions.
pub open spec fn request_decodes(m: Seq<u8>) -> bool {
    exists|h: Header, qs: Seq<Question>| #[trigger] decodes_to(m, h, qs)
}

proof fn lemma_fails_not_decodes(m: Seq<u8>, e: DnsError)
    requires
        fails_with(m, e),
    ensures
        !request_decodes(m),
{
    if request_decodes(m) {
        let (h, qs) = choose|h: Header, qs: Seq<Question>| #[trigger] decodes_to(m, h, qs);
        lemma_decode_exclusive(m, h, qs, e);
    }
}

/// Decodes the header and the questions of the message `request`; the third
/// item is where the question section ends.
pub fn decode_request(request: &[u8]) -> (r: Result<(Header, Vec<Question>, usize), DnsError>)
    requires
        request@.len() + HEADER_LENGTH <= usize::MAX,
    ensures
        r matches Ok((h, qs, end)) ==> {
            &&& decodes_to(request@, h, qs@)
            &&& end == next_offset(qs@)
            &&& forall|i: int|
                0 <= i < qs@.len() ==> #[trigger] qs@[i].name@.len() <= end - HEADER_LENGTH
        },
        r matches Err(e) ==> fails_with(request@, e),
        r is Ok <==> request_decodes(request@),
{
    let mut src = Bytes::copy_from_slice(request);
    let header = Header::from_bytes(&mut src)?;
    let questions = match decode_questions(&mut src, header.qd_count) {
        Ok(qs) => qs,
        Err(e) => {
            proof {
                lemma_fails_not_decodes(request@, e);
            }
            return Err(e);
        },
    };
    let end = request.len() - src.len();
    assert(decodes_to(request@, header, questions@));
    Ok((header, questions, end))
}

/// The header of the response to a request with header `h` that carries
/// `an_count` answers.
pub open spec fn response_for(h: Header, an_count: u16) -> Header {
    Header {
        packet_id: h.packet_id,
        qr_indicator: QueryResponse::Response,
        opcode: h.opcode,
        authoritative_answer: false,
        truncation: false,
        recursion_desired: h.recursion_desired,
        recursion_available: false,
        reserved: 0,
        response_code: if h.opcode == 0 {
            ResponseCode::NoError
        } else {
            ResponseCode::NotImplemented
        },
        qd_count: h.qd_count,
        an_count,
        ns_count: 0,
        ar_count: 0,
    }
}

/// The response header for a request header: the same packet id, opcode,
/// recursion-desired flag and question count, marked as a response, with
/// `NotImplemented` for any opcode but a standard query.
pub fn response_header(request: &Header, an_count: u16) -> (r: Header)
    ensures
        r == response_for(*request, an_count),
{
    Header {
        packet_id: request.packet_id,
        qr_indicator: QueryResponse::Response,
        opcode: request.opcode,
        authoritative_answer: false,
        truncation: false,
        recursion_desired: request.recursion_desired,
        recursion_available: false,
        reserved: 0,
        response_code: if request.opcode == 0 {
            ResponseCode::NoError
        } else {
            ResponseCode::NotImplemented
        },
        qd_count: request.qd_count,
        an_count,
        ns_count: 0,
        ar_count: 0,
    }
}

/// The time to live of a locally made answer, in seconds.
pub const LOCAL_TTL: u32 = 60;

/// The address that every locally made answer carries.
pub const LOCAL_ADDRESS: u32 = 23983289;

/// The answer made locally for question `q`.
pub open spec fn local_answer_for(q: Question) -> Answer {
    Answer {
        name: q.name,
        a_type: Type::A,
        class: Class::IN,
        ttl: LOCAL_TTL,
        rdlength: 4,
        data: LOCAL_ADDRESS,
    }
}

/// A fixed A record for the name of `question`.
pub fn local_answer(question: &Question) -> (r: Answer)
    ensures
        r == local_answer_for(*question),
{
    Answer {
        name: question.name.clone(),
        a_type: Type::A,
        class: Class::IN,
        ttl: LOCAL_TTL,
        rdlength: 4,
        data: LOCAL_ADDRESS,
    }
}

/// The wire form of the local answers to `qs`, in order.
pub open spec fn local_answers_wire(qs: Seq<Question>) -> Seq<u8>
    decreases qs.len(),
{
    if qs.len() == 0 {
        Seq::empty()
    } else {
        local_answers_wire(qs.drop_last()) + local_answer_for(qs.last()).spec_bytes()
    }
}

/// The local response to the message `m` with header `h` and questions
/// `qs`: the response header, the question section as it came, and one
/// local answer for each question.
pub open spec fn local_response(m: Seq<u8>, h: Header, qs: Seq<Question>) -> Seq<u8> {
    response_for(h, h.qd_count).spec_bytes() + m.subrange(HEADER_LENGTH as int, next_offset(qs))
        + local_answers_wire(qs)
}

/// Answers the message `request` without asking anyone: one fixed A record
/// for each question. A request is one datagram of at most 512 bytes.
pub fn respond_locally(request: &[u8]) -> (r: Result<BytesMut, DnsError>)
    requires
        request@.len() <= 512,
    ensures
        r matches Ok(out) ==> exists|h: Header, qs: Seq<Question>|
            #[trigger] decodes_to(request@, h, qs) && bytes_mut_view(out) == local_response(
                request@,
                h,
                qs,
            ),
        r matches Err(e) ==> fails_with(request@, e),
        r is Ok <==> request_decodes(request@),
{
    let (header, questions, end) = match decode_request(request) {
        Ok(decoded) => decoded,
        Err(e) => {
            proof {
                lemma_fails_not_decodes(request@, e);
            }
            return Err(e);
        },
    };
    let ghost qs = questions@;
    let mut out = response_header(&header, header.qd_count).to_bytes();
    put_slice(&mut out, &request[HEADER_LENGTH..end]);
    let ghost prefix = bytes_mut_view(out);
    let mut i: usize = 0;
    assert(qs.subrange(0, 0) =~= Seq::<Question>::empty());
    while i < questions.len()
        invariant
            qs == questions@,
            qs.len() <= 65535,
            i <= qs.len(),
            end <= 512,
            forall|k: int| 0 <= k < qs.len() ==> #[trigger] qs[k].name@.len() <= 512,
            prefix.len() <= 512,
            bytes_mut_view(out) == prefix + local_answers_wire(qs.subrange(0, i as int)),
            bytes_mut_view(out).len() <= 512 + 2100 * i,
        decreases qs.len() - i,
    {
        let answer = local_answer(&questions[i]);
        proof {
            lemma_utf8_len_bound(answer.name@);
            assert(qs[i as int].name@.len() <= 512);
        }
        answer.write_to(&mut out);
        assert(qs.subrange(0, i + 1).drop_last() =~= qs.subrange(0, i as int));
        i = i + 1;
    }
    assert(qs.subrange(0, i as int) =~= qs);
    Ok(out)
}

/// The header of a query relayed upstream: the request's, with one question.
pub open spec fn forward_header_for(h: Header) -> Header {
    Header { qd_count: 1, ..h }
}

/// The query that relays `question` of a request with header `request` to
/// an upstream resolver: the request's header with a question count of one,
/// then the question.
pub fn forward_query(request: &Header, question: &Question) -> (r: BytesMut)
    requires
        encode_utf8(question.name@).len() + 18 <= isize::MAX,
    ensures
        bytes_mut_view(r) == forward_header_for(*request).spec_bytes() + question.spec_bytes(),
{
    let header = Header { qd_count: 1, ..*request };
    let mut out = header.to_bytes();
    question.write_to(&mut out);
    out
}

/// Reads the reply of an upstream resolver up to its answer section: the
/// header, then one question, which is skipped. Gives the reply's answer
/// count and leaves `reply` at the answers.
pub fn read_upstream_reply(reply: &mut Bytes) -> (r: Result<u16, DnsError>)
    ensures
        match parse_header(bytes_view(*old(reply))) {
            Err(e) => r == Err::<u16, DnsError>(e),
            Ok(h) => match parse_question(
                bytes_view(*old(reply)).skip(HEADER_LENGTH as int),
                Seq::empty(),
            ) {
                Ok((n, t, c, used)) => r == Ok::<u16, DnsError>(h.an_count) && bytes_view(
                    *final(reply),
                ) == bytes_view(*old(reply)).skip(HEADER_LENGTH + used),
                Err(e) => r == Err::<u16, DnsError>(e),
            },
        },
{
    let ghost s = bytes_view(*reply);
    let header = Header::from_bytes(reply)?;
    let none: Vec<Question> = Vec::new();
    assert(none@ =~= Seq::<Question>::empty());
    let _question = Question::from_bytes(reply, &none)?;
    proof {
        if let Ok((n, t, c, used)) = parse_question(s.skip(HEADER_LENGTH as int), Seq::empty()) {
            assert(s.skip(HEADER_LENGTH as int).skip(used) =~= s.skip(HEADER_LENGTH + used));
        }
    }
    Ok(header.an_count)
}

/// The answer count of upstream replies added up, modulo 2^16.
pub open spec fn total_answers(replies: Seq<(u16, Bytes)>) -> u16
    decreases replies.len(),
{
    if replies.len() == 0 {
        0
    } else {
        ((total_answers(replies.drop_last()) + replies.last().0) % 65536) as u16
    }
}

/// The answer sections of upstream replies, one after the other.
pub open spec fn relayed_answers(replies: Seq<(u16, Bytes)>) -> Seq<u8>
    decreases replies.len(),
{
    if replies.len() == 0 {
        Seq::empty()
    } else {
        relayed_answers(replies.drop_last()) + bytes_view(replies.last().1)
    }
}

/// The response to `request`, whose header is `header` and whose question
/// section ends at `section_end`, from the replies of an upstream resolver,
/// each its answer count and its answer section: the response header with
/// the counts added up, the question section as it came, and the answer
/// sections in order.
pub fn relay_response(
    request: &[u8],
    header: &Header,
    section_end: usize,
    replies: &Vec<(u16, Bytes)>,
) -> (r: BytesMut)
    requires
        HEADER_LENGTH <= section_end <= request@.len(),
        request@.len() + relayed_answers(replies@).len() <= isize::MAX,
    ensures
        bytes_mut_view(r) == response_for(*header, total_answers(replies@)).spec_bytes()
            + request@.subrange(HEADER_LENGTH as int, section_end as int) + relayed_answers(
            replies@,
        ),
{
    let mut total: u16 = 0;
    let mut i: usize = 0;
    while i < replies.len()
        invariant
            i <= replies@.len(),
            total == total_answers(replies@.subrange(0, i as int)),
        decreases replies@.len() - i,
    {
        assert(replies@.subrange(0, i + 1).drop_last() =~= replies@.subrange(0, i as int));
        total = ((total as u32 + replies[i].0 as u32) % 65536) as u16;
        i = i + 1;
    }
    assert(replies@.subrange(0, i as int) =~= replies@);
    let mut out = response_header(header, total).to_bytes();
    put_slice(&mut out, &request[HEADER_LENGTH..section_end]);
    let ghost prefix = bytes_mut_view(out);
    let mut j: usize = 0;
    assert(replies@.subrange(0, 0) =~= Seq::<(u16, Bytes)>::empty());
    while j < replies.len()
        invariant
            j <= replies@.len(),
            prefix.len() <= request@.len(),
            request@.len() + relayed_answers(replies@).len() <= isize::MAX,
            bytes_mut_view(out) == prefix + relayed_answers(replies@.subrange(0, j as int)),
        decreases replies@.len() - j,
    {
        assert(replies@.subrange(0, j + 1).drop_last() =~= replies@.subrange(0, j as int));
        proof {
            lemma_relayed_prefix(replies@, j + 1);
        }
        put_slice(&mut out, unread(&replies[j].1));
        j = j + 1;
    }
    assert(replies@.subrange(0, j as int) =~= replies@);
    out
}

proof fn lemma_relayed_prefix(replies: Seq<(u16, Bytes)>, k: int)
    requires
        0 <= k <= replies.len(),
    ensures
        relayed_answers(replies.subrange(0, k)).len() <= relayed_answers(replies).len(),
    decreases replies.len(),
{
    if k < replies.len() {
        assert(replies.drop_last().subrange(0, k) =~= replies.subrange(0, k));
        lemma_relayed_prefix(replies.drop_last(), k);
    } else {
        assert(replies.subrange(0, k) =~= replies);
    }
}

} // verus!
