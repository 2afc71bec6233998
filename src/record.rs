//! Question and answer records.

use bytes::{Bytes, BytesMut};
use vstd::prelude::*;

use vstd::utf8::encode_utf8;

use crate::buffer::{
    be16, be32, bytes_mut_view, bytes_view, from_be16, get_u16, put_u16, put_u32,
};
use crate::header::HEADER_LENGTH;
use crate::name::{decode_name, encode_name, name_wire, parse_name};
use crate::types::{Class, DnsError, Type};

verus! {

/// A question of a message. `offset` is where the question starts in the
/// message it was decoded from and `len` how many bytes it took there; later
/// questions of the same message resolve compression pointers against them.
#[derive(Debug)]
pub struct Question {
    pub name: String,
    pub q_type: Type,
    pub class: Class,
    pub offset: usize,
    pub len: usize,
}

/// An answer record whose data is a four-byte address.
#[derive(Debug)]
pub struct Answer {
    pub name: String,
    pub a_type: Type,
    pub class: Class,
    pub ttl: u32,
    pub rdlength: u16,
    pub data: u32,
}

/// Where the next question of a message starts, after the questions `prior`
/// decoded from it; the first starts right after the header.
pub open spec fn next_offset(prior: Seq<Question>) -> int {
    if prior.len() == 0 {
        HEADER_LENGTH as int
    } else {
        prior.last().offset + prior.last().len
    }
}

/// The question at the front of `s` as its name, type, class and the number
/// of bytes it takes, with pointers resolved against `prior`.
pub open spec fn parse_question(s: Seq<u8>, prior: Seq<Question>) -> Result<
    (Seq<char>, Type, Class, int),
    DnsError,
> {
    match parse_name(s, prior) {
        Err(e) => Err(e),
        Ok((n, u)) => if s.len() < u + 4 {
            Err(DnsError::MalformedName)
        } else {
            match Type::spec_from_code(from_be16(s[u], s[u + 1])) {
                None => Err(DnsError::UnknownType),
                Some(t) => match Class::spec_from_code(from_be16(s[u + 2], s[u + 3])) {
                    None => Err(DnsError::UnknownClass),
                    Some(c) => Ok((n, t, c, u + 4)),
                },
            }
        },
    }
}

/// The next offset after `prior` fits a `usize`.
pub open spec fn offsets_fit(prior: Seq<Question>) -> bool {
    prior.len() > 0 ==> prior.last().offset + prior.last().len <= usize::MAX
}

impl Question {
    /// The wire form: the uncompressed name, the type and the class.
    pub open spec fn spec_bytes(self) -> Seq<u8> {
        name_wire(self.name@) + be16(self.q_type.spec_code()) + be16(self.class.spec_code())
    }

    /// Appends the wire form of the question to `buf`.
    pub fn write_to(&self, buf: &mut BytesMut)
        requires
            bytes_mut_view(*old(buf)).len() + encode_utf8(self.name@).len() + 6 <= isize::MAX,
        ensures
            bytes_mut_view(*final(buf)) == bytes_mut_view(*old(buf)) + self.spec_bytes(),
    {
        encode_name(buf, self.name.as_str());
        put_u16(buf, self.q_type.code());
        put_u16(buf, self.class.code());
    }

    pub fn to_bytes(&self) -> (r: BytesMut)
        requires
            encode_utf8(self.name@).len() + 6 <= isize::MAX,
        ensures
            bytes_mut_view(r) == self.spec_bytes(),
    {
        let mut s = BytesMut::with_capacity(self.name.as_str().len() + 4);
        self.write_to(&mut s);
        assert(Seq::<u8>::empty() + self.spec_bytes() =~= self.spec_bytes());
        s
    }

    /// The wire form of the question, taking it.
    pub fn serialise(self) -> (r: BytesMut)
        requires
            encode_utf8(self.name@).len() + 6 <= isize::MAX,
        ensures
            bytes_mut_view(r) == self.spec_bytes(),
    {
        self.to_bytes()
    }

    /// Decodes a question from the front of `src`, with `questions` the
    /// questions decoded before it from the same message, in order. The
    /// question records where it starts, right after the last of
    /// `questions` or the header, and how many bytes it took.
    pub fn from_bytes(src: &mut Bytes, questions: &Vec<Question>) -> (r: Result<Question, DnsError>)
        requires
            offsets_fit(questions@),
        ensures
            match parse_question(bytes_view(*old(src)), questions@) {
                Ok((n, t, c, used)) => r matches Ok(q) && q.name@ == n && q.q_type == t && q.class
                    == c && q.offset == next_offset(questions@) && q.len == used && used
                    <= bytes_view(*old(src)).len() && bytes_view(
                    *final(src),
                ) == bytes_view(*old(src)).skip(used),
                Err(e) => r == Err::<Question, DnsError>(e),
            },
    {
        let ghost s0 = bytes_view(*src);
        let start_len = src.len();
        let name = decode_name(src, questions)?;
        let ghost used = s0.len() - bytes_view(*src).len();
        if src.len() < 4 {
            return Err(DnsError::MalformedName);
        }
        let ghost mid = bytes_view(*src);
        assert(mid[0] == s0[used] && mid[1] == s0[used + 1] && mid[2] == s0[used + 2] && mid[3]
            == s0[used + 3]);
        let q_type = match Type::from_code(get_u16(src)) {
            Some(t) => t,
            None => return Err(DnsError::UnknownType),
        };
        let class = match Class::from_code(get_u16(src)) {
            Some(c) => c,
            None => return Err(DnsError::UnknownClass),
        };
        assert(bytes_view(*src) =~= s0.skip(used + 4));
        let offset = if questions.len() == 0 {
            HEADER_LENGTH
        } else {
            let last = &questions[questions.len() - 1];
            last.offset + last.len
        };
        Ok(Question { name, q_type, class, offset, len: start_len - src.len() })
    }
}

impl Answer {
    /// The wire form: the uncompressed name, the type, the class, the TTL,
    /// the data length and the four data bytes.
    pub open spec fn spec_bytes(self) -> Seq<u8> {
        name_wire(self.name@) + be16(self.a_type.spec_code()) + be16(self.class.spec_code()) + be32(
            self.ttl,
        ) + be16(self.rdlength) + be32(self.data)
    }

    /// Appends the wire form of the answer to `buf`.
    pub fn write_to(&self, buf: &mut BytesMut)
        requires
            bytes_mut_view(*old(buf)).len() + encode_utf8(self.name@).len() + 16 <= isize::MAX,
        ensures
            bytes_mut_view(*final(buf)) == bytes_mut_view(*old(buf)) + self.spec_bytes(),
    {
        encode_name(buf, self.name.as_str());
        put_u16(buf, self.a_type.code());
        put_u16(buf, self.class.code());
        put_u32(buf, self.ttl);
        put_u16(buf, self.rdlength);
        put_u32(buf, self.data);
    }

    pub fn to_bytes(&self) -> (r: BytesMut)
        requires
            encode_utf8(self.name@).len() + 16 <= isize::MAX,
        ensures
            bytes_mut_view(r) == self.spec_bytes(),
    {
        let mut s = BytesMut::with_capacity(self.name.as_str().len() + 14);
        self.write_to(&mut s);
        assert(Seq::<u8>::empty() + self.spec_bytes() =~= self.spec_bytes());
        s
    }
}

} // verus!
