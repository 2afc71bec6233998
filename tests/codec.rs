use bytes::Bytes;
use dns_codec::{
    decode_name, decode_questions, decode_request, encode_name, forward_query, local_answer,
    read_upstream_reply, relay_response, respond_locally, response_header, Answer, Class,
    DnsError, Header, QueryResponse, Question, ResponseCode, Type, LOCAL_ADDRESS,
};

fn sample_header() -> Header {
    Header {
        packet_id: 0x04d2,
        qr_indicator: QueryResponse::Query,
        opcode: 2,
        authoritative_answer: true,
        truncation: false,
        recursion_desired: true,
        recursion_available: true,
        reserved: 5,
        response_code: ResponseCode::NameError,
        qd_count: 1,
        an_count: 2,
        ns_count: 0x0304,
        ar_count: 0xfffe,
    }
}

fn question_bytes(labels: &[&str], t: u16, c: u16) -> Vec<u8> {
    let mut v = Vec::new();
    for l in labels {
        v.push(l.len() as u8);
        v.extend_from_slice(l.as_bytes());
    }
    v.push(0);
    v.extend_from_slice(&t.to_be_bytes());
    v.extend_from_slice(&c.to_be_bytes());
    v
}

fn query_header(id: u16, qd: u16) -> Vec<u8> {
    vec![(id >> 8) as u8, id as u8, 0x01, 0x00, 0, qd as u8, 0, 0, 0, 0, 0, 0]
}

#[test]
fn header_encodes_bit_layout() {
    let b = sample_header().to_bytes();
    assert_eq!(
        &b[..],
        &[0x04, 0xd2, 0b0001_0101, 0b1101_0011, 0, 1, 0, 2, 3, 4, 0xff, 0xfe][..]
    );
}

#[test]
fn header_round_trip() {
    let h = sample_header();
    let mut src = h.to_bytes().freeze();
    assert_eq!(Header::from_bytes(&mut src), Ok(h));
    assert_eq!(src.len(), 0);
}

#[test]
fn header_decode_leaves_rest() {
    let mut v = query_header(7, 1);
    v.extend_from_slice(&[9, 9]);
    let mut src = Bytes::from(v);
    let h = Header::from_bytes(&mut src).unwrap();
    assert_eq!(h.packet_id, 7);
    assert_eq!(h.qd_count, 1);
    assert!(h.recursion_desired);
    assert_eq!(h.qr_indicator, QueryResponse::Query);
    assert_eq!(&src[..], &[9, 9][..]);
}

#[test]
fn header_unknown_response_code() {
    let mut v = query_header(7, 1);
    v[3] = 0x06;
    let mut src = Bytes::from(v);
    assert_eq!(Header::from_bytes(&mut src), Err(DnsError::MalformedHeader));
}

#[test]
fn header_too_short() {
    let mut src = Bytes::from(vec![0u8; 11]);
    assert_eq!(Header::from_bytes(&mut src), Err(DnsError::MalformedHeader));
    assert_eq!(src.len(), 11);
}

#[test]
fn enum_codes() {
    assert_eq!(Type::try_from(1u16), Ok(Type::A));
    assert_eq!(Type::try_from(16u16), Ok(Type::TXT));
    assert_eq!(Type::try_from(0u16), Err(()));
    assert_eq!(Type::try_from(17u16), Err(()));
    assert_eq!(Class::try_from(4u16), Ok(Class::HS));
    assert_eq!(Class::try_from(5u16), Err(()));
    assert_eq!(ResponseCode::try_from(5u8), Ok(ResponseCode::Refused));
    assert_eq!(ResponseCode::try_from(6u8), Err(()));
    assert_eq!(QueryResponse::try_from(1u8), Ok(QueryResponse::Response));
    assert_eq!(QueryResponse::try_from(2u8), Err(()));
    assert_eq!(Type::MX.code(), 15);
    assert_eq!(Class::CH.code(), 3);
}

#[test]
fn name_encodes_labels() {
    let mut buf = bytes::BytesMut::new();
    encode_name(&mut buf, "codecrafters.io");
    let mut want = vec![12u8];
    want.extend_from_slice(b"codecrafters");
    want.push(2);
    want.extend_from_slice(b"io");
    want.push(0);
    assert_eq!(&buf[..], &want[..]);
}

#[test]
fn name_round_trip() {
    for name in ["a", "abc.example.com", "x-y.z_1.q", "A.b.C.d.E"] {
        let mut buf = bytes::BytesMut::new();
        encode_name(&mut buf, name);
        let n = buf.len();
        buf.extend_from_slice(&[1, 2, 3]);
        let mut src = buf.freeze();
        assert_eq!(decode_name(&mut src, &Vec::new()), Ok(name.to_string()));
        assert_eq!(&src[..], &[1, 2, 3][..]);
        assert_eq!(n, name.len() + 2);
    }
}

#[test]
fn name_of_63_byte_label() {
    let label = "a".repeat(63);
    let mut buf = bytes::BytesMut::new();
    encode_name(&mut buf, &label);
    assert_eq!(buf[0], 63);
    let mut src = buf.freeze();
    assert_eq!(decode_name(&mut src, &Vec::new()), Ok(label));
}

#[test]
fn empty_name_decodes() {
    let mut src = Bytes::from(vec![0u8, 5]);
    assert_eq!(decode_name(&mut src, &Vec::new()), Ok(String::new()));
    assert_eq!(&src[..], &[5][..]);
}

#[test]
fn pointer_resolves_against_earlier_question() {
    let mut msg = Vec::new();
    msg.extend(question_bytes(&["abc", "example", "com"], 1, 1));
    msg.extend_from_slice(&[0xc0, 16, 0, 1, 0, 1]);
    let mut src = Bytes::from(msg);
    let qs = decode_questions(&mut src, 2).unwrap();
    assert_eq!(qs[0].name, "abc.example.com");
    assert_eq!(qs[0].offset, 12);
    assert_eq!(qs[0].len, 21);
    assert_eq!(qs[1].name, "example.com");
    assert_eq!(qs[1].offset, 33);
    assert_eq!(qs[1].len, 6);
    assert_eq!(src.len(), 0);
}

#[test]
fn pointer_after_labels() {
    let a = Question {
        name: "abc.example.com".to_string(),
        q_type: Type::A,
        class: Class::IN,
        offset: 12,
        len: 21,
    };
    let mut src = Bytes::from(vec![3, b'w', b'w', b'w', 0xc0, 24, 0, 1, 0, 1]);
    let q = Question::from_bytes(&mut src, &vec![a]).unwrap();
    assert_eq!(q.name, "www.com");
    assert_eq!(q.offset, 33);
    assert_eq!(q.len, 10);
}

#[test]
fn dangling_pointer_without_questions() {
    let mut src = Bytes::from(vec![0xc0, 12, 0, 1, 0, 1]);
    assert_eq!(Question::from_bytes(&mut src, &Vec::new()).unwrap_err(), DnsError::DanglingPointer);
}

#[test]
fn dangling_pointer_to_question_start() {
    let a = Question {
        name: "abc".to_string(),
        q_type: Type::A,
        class: Class::IN,
        offset: 12,
        len: 9,
    };
    let mut src = Bytes::from(vec![0xc0, 12, 0, 1, 0, 1]);
    assert_eq!(decode_name(&mut src, &vec![a]), Err(DnsError::DanglingPointer));
}

#[test]
fn dangling_pointer_past_name() {
    let a = Question {
        name: "abc".to_string(),
        q_type: Type::A,
        class: Class::IN,
        offset: 12,
        len: 9,
    };
    let mut src = Bytes::from(vec![0xc0, 17, 0, 1, 0, 1]);
    assert_eq!(decode_name(&mut src, &vec![a]), Err(DnsError::DanglingPointer));
}

#[test]
fn reserved_label_lengths_fail() {
    for b in [0x40u8, 0x7f, 0x80, 0xbf] {
        let mut src = Bytes::from(vec![b, b'a', 0, 0, 1, 0, 1]);
        assert_eq!(decode_name(&mut src, &Vec::new()), Err(DnsError::MalformedName));
    }
}

#[test]
fn truncated_name_fails() {
    let mut src = Bytes::from(vec![5, b'a', b'b']);
    assert_eq!(decode_name(&mut src, &Vec::new()), Err(DnsError::MalformedName));
    let mut src = Bytes::from(vec![1, b'a']);
    assert_eq!(decode_name(&mut src, &Vec::new()), Err(DnsError::MalformedName));
    let mut src = Bytes::from(vec![0xc0]);
    assert_eq!(decode_name(&mut src, &Vec::new()), Err(DnsError::MalformedName));
    let mut src = Bytes::new();
    assert_eq!(decode_name(&mut src, &Vec::new()), Err(DnsError::MalformedName));
}

#[test]
fn question_unknown_type_and_class() {
    let mut src = Bytes::from(question_bytes(&["a"], 17, 1));
    assert_eq!(Question::from_bytes(&mut src, &Vec::new()).unwrap_err(), DnsError::UnknownType);
    let mut src = Bytes::from(question_bytes(&["a"], 1, 9));
    assert_eq!(Question::from_bytes(&mut src, &Vec::new()).unwrap_err(), DnsError::UnknownClass);
    let mut src = Bytes::from(vec![1, b'a', 0, 0, 1]);
    assert_eq!(Question::from_bytes(&mut src, &Vec::new()).unwrap_err(), DnsError::MalformedName);
}

#[test]
fn question_to_bytes_layout() {
    let q = Question {
        name: "codecrafters.io".to_string(),
        q_type: Type::MX,
        class: Class::CH,
        offset: 12,
        len: 0,
    };
    assert_eq!(&q.to_bytes()[..], &question_bytes(&["codecrafters", "io"], 15, 3)[..]);
    assert_eq!(&q.serialise()[..], &question_bytes(&["codecrafters", "io"], 15, 3)[..]);
}

#[test]
fn answer_to_bytes_layout() {
    let a = Answer {
        name: "a.bc".to_string(),
        a_type: Type::A,
        class: Class::IN,
        ttl: 0x01020304,
        rdlength: 4,
        data: 0x0a000001,
    };
    let want = [1, b'a', 2, b'b', b'c', 0, 0, 1, 0, 1, 1, 2, 3, 4, 0, 4, 10, 0, 0, 1];
    assert_eq!(&a.to_bytes()[..], &want[..]);
}

#[test]
fn local_response_end_to_end() {
    let mut req = query_header(0x1234, 1);
    let q = question_bytes(&["codecrafters", "io"], 1, 1);
    req.extend_from_slice(&q);
    let out = respond_locally(&req).unwrap();
    let mut cursor = Bytes::copy_from_slice(&out);
    let h = Header::from_bytes(&mut cursor).unwrap();
    assert_eq!(h.packet_id, 0x1234);
    assert_eq!(h.qr_indicator, QueryResponse::Response);
    assert_eq!(h.an_count, 1);
    assert_eq!(h.qd_count, 1);
    assert_eq!(h.response_code, ResponseCode::NoError);
    assert_eq!(&cursor[..q.len()], &q[..]);
    let mut answer = Vec::new();
    answer.extend_from_slice(&q[..q.len() - 4]);
    answer.extend_from_slice(&[0, 1, 0, 1, 0, 0, 0, 60, 0, 4]);
    answer.extend_from_slice(&LOCAL_ADDRESS.to_be_bytes());
    assert_eq!(&cursor[q.len()..], &answer[..]);
}

#[test]
fn local_response_other_opcode() {
    let mut req = query_header(9, 1);
    req[2] = 0x08 | 0x01;
    req.extend(question_bytes(&["a"], 1, 1));
    let out = respond_locally(&req).unwrap();
    assert_eq!(out[2], 0x80 | 0x08 | 0x01);
    assert_eq!(out[3], 4);
}

#[test]
fn local_response_rejects_bad_request() {
    let mut req = query_header(9, 1);
    req.extend_from_slice(&[0x40, 0]);
    assert_eq!(respond_locally(&req).unwrap_err(), DnsError::MalformedName);
    assert_eq!(respond_locally(&[0u8; 4]).unwrap_err(), DnsError::MalformedHeader);
}

#[test]
fn two_questions_with_pointer() {
    let mut req = query_header(0x0101, 2);
    let first = question_bytes(&["abc", "example", "com"], 1, 1);
    req.extend_from_slice(&first);
    req.extend_from_slice(&[0xc0, 16, 0, 2, 0, 1]);
    let (h, qs, end) = decode_request(&req).unwrap();
    assert_eq!(h.qd_count, 2);
    assert_eq!(qs.len(), 2);
    assert_eq!(qs[0].name, "abc.example.com");
    assert_eq!(qs[1].name, "example.com");
    assert_eq!(qs[1].q_type, Type::NS);
    assert_eq!(end, req.len());
    assert_eq!(&qs[0].to_bytes()[..], &first[..]);
    let out = respond_locally(&req).unwrap();
    assert_eq!(&out[12..end], &req[12..end]);
    assert_eq!(out[7], 2);
}

#[test]
fn response_header_fields() {
    let h = response_header(&sample_header(), 3);
    assert_eq!(h.packet_id, 0x04d2);
    assert_eq!(h.qr_indicator, QueryResponse::Response);
    assert_eq!(h.opcode, 2);
    assert!(!h.authoritative_answer);
    assert!(h.recursion_desired);
    assert!(!h.recursion_available);
    assert_eq!(h.reserved, 0);
    assert_eq!(h.response_code, ResponseCode::NotImplemented);
    assert_eq!((h.qd_count, h.an_count, h.ns_count, h.ar_count), (1, 3, 0, 0));
}

#[test]
fn local_answer_fields() {
    let q = Question {
        name: "x.y".to_string(),
        q_type: Type::MX,
        class: Class::CS,
        offset: 12,
        len: 9,
    };
    let a = local_answer(&q);
    assert_eq!(a.name, "x.y");
    assert_eq!(a.a_type, Type::A);
    assert_eq!(a.class, Class::IN);
    assert_eq!((a.ttl, a.rdlength, a.data), (60, 4, LOCAL_ADDRESS));
}

#[test]
fn forward_query_has_one_question() {
    let mut h = sample_header();
    h.qd_count = 3;
    let q = Question {
        name: "a.b".to_string(),
        q_type: Type::A,
        class: Class::IN,
        offset: 40,
        len: 9,
    };
    let out = forward_query(&h, &q);
    let mut want = sample_header();
    want.qd_count = 1;
    let mut bytes = want.to_bytes().to_vec();
    bytes.extend(question_bytes(&["a", "b"], 1, 1));
    assert_eq!(&out[..], &bytes[..]);
}

#[test]
fn upstream_reply_is_read_to_answers() {
    let mut reply = query_header(5, 1);
    reply[7] = 2;
    reply.extend(question_bytes(&["a", "b"], 1, 1));
    reply.extend_from_slice(&[0xaa, 0xbb]);
    let mut src = Bytes::from(reply);
    assert_eq!(read_upstream_reply(&mut src), Ok(2));
    assert_eq!(&src[..], &[0xaa, 0xbb][..]);
    let mut bad = Bytes::from(query_header(5, 1));
    assert_eq!(read_upstream_reply(&mut bad), Err(DnsError::MalformedName));
}

#[test]
fn relayed_response_joins_answers() {
    let mut req = query_header(0x0a0b, 2);
    req.extend(question_bytes(&["a"], 1, 1));
    req.extend(question_bytes(&["b"], 1, 1));
    let h = Header::from_bytes(&mut Bytes::copy_from_slice(&req)).unwrap();
    let replies = vec![
        (1u16, Bytes::from(vec![1u8, 2])),
        (0xffffu16, Bytes::from(vec![3u8])),
    ];
    let out = relay_response(&req, &h, req.len(), &replies);
    assert_eq!(&out[0..2], &[0x0a, 0x0b][..]);
    assert_eq!(&out[6..8], &[0, 0][..]);
    assert_eq!(&out[12..req.len()], &req[12..]);
    assert_eq!(&out[req.len()..], &[1, 2, 3][..]);
}

#[test]
fn label_of_64_bytes_does_not_decode() {
    let label = "b".repeat(64);
    let mut buf = bytes::BytesMut::new();
    encode_name(&mut buf, &label);
    assert_eq!(buf[0], 64);
    let mut src = buf.freeze();
    assert_eq!(decode_name(&mut src, &Vec::new()), Err(DnsError::MalformedName));
}

#[test]
fn empty_label_ends_name_early() {
    let mut buf = bytes::BytesMut::new();
    encode_name(&mut buf, "a..b");
    assert_eq!(&buf[..], &[1, b'a', 0, 1, b'b', 0][..]);
    let mut src = buf.freeze();
    assert_eq!(decode_name(&mut src, &Vec::new()), Ok("a".to_string()));
    assert_eq!(&src[..], &[1, b'b', 0][..]);
}
