//! The fixed twelve-byte message header.

use bytes::{Bytes, BytesMut};
use vstd::prelude::*;

use crate::buffer::{
    be16, bytes_mut_view, bytes_view, from_be16, get_u16, get_u8, put_u16, put_u8,
};
use crate::types::{DnsError, QueryResponse, ResponseCode};

verus! {

/// The length of an encoded header.
pub const HEADER_LENGTH: usize = 12;

/// A message header. `opcode` holds four bits and `reserved` three.
#[derive(Debug, Clone, Copy, PartialEq, Eq, Structural)]
pub struct Header {
    pub packet_id: u16,
    pub qr_indicator: QueryResponse,
    pub opcode: u8,
    pub authoritative_answer: bool,
    pub truncation: bool,
    pub recursion_desired: bool,
    pub recursion_available: bool,
    pub reserved: u8,
    pub response_code: ResponseCode,
    pub qd_count: u16,
    pub an_count: u16,
    pub ns_count: u16,
    pub ar_count: u16,
}

/// One for `true`, zero for `false`.
pub open spec fn bit(b: bool) -> u8 {
    if b {
        1
    } else {
        0
    }
}

/// The third header byte: QR, opcode, AA, TC and RD, high bit first.
pub open spec fn flags_byte(qr: u8, opcode: u8, aa: bool, tc: bool, rd: bool) -> u8 {
    (qr << 7u8) | (opcode << 3u8) | (bit(aa) << 2u8) | (bit(tc) << 1u8) | bit(rd)
}

/// The fourth header byte: RA, the reserved bits and the response code.
pub open spec fn code_byte(ra: bool, reserved: u8, rcode: u8) -> u8 {
    (bit(ra) << 7u8) | (reserved << 4u8) | rcode
}

/// The header that twelve or more bytes begin with.
pub open spec fn parse_header(s: Seq<u8>) -> Result<Header, DnsError> {
    if s.len() < 12 {
        Err(DnsError::MalformedHeader)
    } else {
        match (
            QueryResponse::spec_from_code((s[2] >> 7u8) & 1u8),
            ResponseCode::spec_from_code(s[3] & 0xfu8),
        ) {
            (Some(qr), Some(rcode)) => Ok(
                Header {
                    packet_id: from_be16(s[0], s[1]),
                    qr_indicator: qr,
                    opcode: (s[2] >> 3u8) & 0xfu8,
                    authoritative_answer: (s[2] >> 2u8) & 1u8 != 0,
                    truncation: (s[2] >> 1u8) & 1u8 != 0,
                    recursion_desired: s[2] & 1u8 != 0,
                    recursion_available: (s[3] >> 7u8) & 1u8 != 0,
                    reserved: (s[3] >> 4u8) & 7u8,
                    response_code: rcode,
                    qd_count: from_be16(s[4], s[5]),
                    an_count: from_be16(s[6], s[7]),
                    ns_count: from_be16(s[8], s[9]),
                    ar_count: from_be16(s[10], s[11]),
                },
            ),
            _ => Err(DnsError::MalformedHeader),
        }
    }
}

impl Header {
    /// The fields fit their bit widths on the wire.
    pub open spec fn wf(self) -> bool {
        self.opcode < 16 && self.reserved < 8
    }

    /// The twelve bytes of the header.
    pub open spec fn spec_bytes(self) -> Seq<u8> {
        be16(self.packet_id) + seq![
            flags_byte(
                self.qr_indicator.spec_code(),
                self.opcode,
                self.authoritative_answer,
                self.truncation,
                self.recursion_desired,
            ),
            code_byte(self.recursion_available, self.reserved, self.response_code.spec_code()),
        ] + be16(self.qd_count) + be16(self.an_count) + be16(self.ns_count) + be16(
            self.ar_count,
        )
    }

    pub fn to_bytes(&self) -> (r: BytesMut)
        ensures
            bytes_mut_view(r) == self.spec_bytes(),
            bytes_mut_view(r).len() == HEADER_LENGTH,
    {
        let mut s = BytesMut::with_capacity(HEADER_LENGTH);
        put_u16(&mut s, self.packet_id);
        let aa: u8 = if self.authoritative_answer { 1 } else { 0 };
        let tc: u8 = if self.truncation { 1 } else { 0 };
        let rd: u8 = if self.recursion_desired { 1 } else { 0 };
        let ra: u8 = if self.recursion_available { 1 } else { 0 };
        put_u8(
            &mut s,
            (self.qr_indicator.code() << 7u8) | (self.opcode << 3u8) | (aa << 2u8) | (tc << 1u8)
                | rd,
        );
        put_u8(&mut s, (ra << 7u8) | (self.reserved << 4u8) | self.response_code.code());
        put_u16(&mut s, self.qd_count);
        put_u16(&mut s, self.an_count);
        put_u16(&mut s, self.ns_count);
        put_u16(&mut s, self.ar_count);
        s
    }

    /// Decodes a header from the front of `src`. With twelve bytes or more
    /// it takes exactly twelve, also when they are malformed; with fewer it
    /// takes none.
    pub fn from_bytes(src: &mut Bytes) -> (r: Result<Header, DnsError>)
        ensures
            r == parse_header(bytes_view(*old(src))),
            bytes_view(*old(src)).len() < 12 ==> bytes_view(*final(src)) == bytes_view(*old(src)),
            bytes_view(*old(src)).len() >= 12 ==> bytes_view(*final(src)) == bytes_view(
                *old(src),
            ).skip(12),
    {
        if src.len() < HEADER_LENGTH {
            return Err(DnsError::MalformedHeader);
        }
        let ghost s = bytes_view(*src);
        let packet_id = get_u16(src);
        let next = get_u8(src);
        let qr = QueryResponse::from_code((next >> 7u8) & 1u8);
        let opcode = (next >> 3u8) & 0xfu8;
        let authoritative_answer = (next >> 2u8) & 1u8 != 0;
        let truncation = (next >> 1u8) & 1u8 != 0;
        let recursion_desired = next & 1u8 != 0;
        let next = get_u8(src);
        let recursion_available = (next >> 7u8) & 1u8 != 0;
        let reserved = (next >> 4u8) & 7u8;
        let rcode = ResponseCode::from_code(next & 0xfu8);
        let qd_count = get_u16(src);
        let an_count = get_u16(src);
        let ns_count = get_u16(src);
        let ar_count = get_u16(src);
        assert(bytes_view(*src) == s.skip(12));
        match (qr, rcode) {
            (Some(qr_indicator), Some(response_code)) => Ok(
                Header {
                    packet_id,
                    qr_indicator,
                    opcode,
                    authoritative_answer,
                    truncation,
                    recursion_desired,
                    recursion_available,
                    reserved,
                    response_code,
                    qd_count,
                    an_count,
                    ns_count,
                    ar_count,
                },
            ),
            _ => Err(DnsError::MalformedHeader),
        }
    }
}

proof fn lemma_be16(v: u16)
    ensures
        from_be16(be16(v)[0], be16(v)[1]) == v,
{
}

proof fn lemma_flags_byte(qr: u8, opcode: u8, aa: u8, tc: u8, rd: u8)
    requires
        qr < 2,
        opcode < 16,
        aa < 2,
        tc < 2,
        rd < 2,
    ensures
        ({
            let b = (qr << 7u8) | (opcode << 3u8) | (aa << 2u8) | (tc << 1u8) | rd;
            &&& (b >> 7u8) & 1u8 == qr
            &&& (b >> 3u8) & 0xfu8 == opcode
            &&& (b >> 2u8) & 1u8 == aa
            &&& (b >> 1u8) & 1u8 == tc
            &&& b & 1u8 == rd
        }),
{
    assert(({
        let b = (qr << 7u8) | (opcode << 3u8) | (aa << 2u8) | (tc << 1u8) | rd;
        &&& (b >> 7u8) & 1u8 == qr
        &&& (b >> 3u8) & 0xfu8 == opcode
        &&& (b >> 2u8) & 1u8 == aa
        &&& (b >> 1u8) & 1u8 == tc
        &&& b & 1u8 == rd
    })) by (bit_vector)
        requires
            qr < 2,
            opcode < 16,
            aa < 2,
            tc < 2,
            rd < 2,
    ;
}

proof fn lemma_code_byte(ra: u8, reserved: u8, rcode: u8)
    requires
        ra < 2,
        reserved < 8,
        rcode < 16,
    ensures
        ({
            let b = (ra << 7u8) | (reserved << 4u8) | rcode;
            &&& (b >> 7u8) & 1u8 == ra
            &&& (b >> 4u8) & 7u8 == reserved
            &&& b & 0xfu8 == rcode
        }),
{
    assert(({
        let b = (ra << 7u8) | (reserved << 4u8) | rcode;
        &&& (b >> 7u8) & 1u8 == ra
        &&& (b >> 4u8) & 7u8 == reserved
        &&& b & 0xfu8 == rcode
    })) by (bit_vector)
        requires
            ra < 2,
            reserved < 8,
            rcode < 16,
    ;
}

/// Decoding the encoding of a header whose fields fit their bit widths
/// gives the header back, whatever bytes follow it.
pub proof fn lemma_header_round_trip(h: Header, rest: Seq<u8>)
    requires
        h.wf(),
    ensures
        parse_header(h.spec_bytes() + rest) == Ok::<Header, DnsError>(h),
{
    let s = h.spec_bytes() + rest;
    lemma_be16(h.packet_id);
    lemma_be16(h.qd_count);
    lemma_be16(h.an_count);
    lemma_be16(h.ns_count);
    lemma_be16(h.ar_count);
    lemma_flags_byte(
        h.qr_indicator.spec_code(),
        h.opcode,
        bit(h.authoritative_answer),
        bit(h.truncation),
        bit(h.recursion_desired),
    );
    lemma_code_byte(bit(h.recursion_available), h.reserved, h.response_code.spec_code());
    assert(s[0] == be16(h.packet_id)[0] && s[1] == be16(h.packet_id)[1]);
    assert(s[4] == be16(h.qd_count)[0] && s[5] == be16(h.qd_count)[1]);
    assert(s[6] == be16(h.an_count)[0] && s[7] == be16(h.an_count)[1]);
    assert(s[8] == be16(h.ns_count)[0] && s[9] == be16(h.ns_count)[1]);
    assert(s[10] == be16(h.ar_count)[0] && s[11] == be16(h.ar_count)[1]);
}

} // verus!
