//! The closed enumerations of the wire format and the decoding errors.

use vstd::prelude::*;

verus! {

/// Why a message could not be decoded.
#[derive(Debug, Clone, Copy, PartialEq, Eq, Structural)]
pub enum DnsError {
    /// The header is short, or a flag or the response code is unknown.
    MalformedHeader,
    /// A label length has a reserved bit pattern, or the buffer ends early.
    MalformedName,
    /// A compression pointer that resolves to no earlier name.
    DanglingPointer,
    /// A record type code outside the known set.
    UnknownType,
    /// A record class code outside the known set.
    UnknownClass,
}

/// The four-bit response code of a header.
#[derive(Debug, Clone, Copy, PartialEq, Eq, Structural)]
pub enum ResponseCode {
    NoError,
    FormatError,
    ServerFailure,
    NameError,
    NotImplemented,
    Refused,
}

impl ResponseCode {
    /// The wire value of the code.
    pub open spec fn spec_code(self) -> u8 {
        match self {
            ResponseCode::NoError => 0,
            ResponseCode::FormatError => 1,
            ResponseCode::ServerFailure => 2,
            ResponseCode::NameError => 3,
            ResponseCode::NotImplemented => 4,
            ResponseCode::Refused => 5,
        }
    }

    /// The code whose wire value is `v`, if any.
    pub open spec fn spec_from_code(v: u8) -> Option<ResponseCode> {
        match v {
            0 => Some(ResponseCode::NoError),
            1 => Some(ResponseCode::FormatError),
            2 => Some(ResponseCode::ServerFailure),
            3 => Some(ResponseCode::NameError),
            4 => Some(ResponseCode::NotImplemented),
            5 => Some(ResponseCode::Refused),
            _ => None,
        }
    }

    pub fn code(self) -> (r: u8)
        ensures
            r == self.spec_code(),
    {
        match self {
            ResponseCode::NoError => 0,
            ResponseCode::FormatError => 1,
            ResponseCode::ServerFailure => 2,
            ResponseCode::NameError => 3,
            ResponseCode::NotImplemented => 4,
            ResponseCode::Refused => 5,
        }
    }

    pub fn from_code(v: u8) -> (r: Option<ResponseCode>)
        ensures
            r == Self::spec_from_code(v),
            r is Some <==> v <= 5,
            r matches Some(c) ==> c.spec_code() == v,
    {
        match v {
            0 => Some(ResponseCode::NoError),
            1 => Some(ResponseCode::FormatError),
            2 => Some(ResponseCode::ServerFailure),
            3 => Some(ResponseCode::NameError),
            4 => Some(ResponseCode::NotImplemented),
            5 => Some(ResponseCode::Refused),
            _ => None,
        }
    }
}

impl TryFrom<u8> for ResponseCode {
    type Error = ();

    fn try_from(value: u8) -> (r: Result<Self, Self::Error>) {
        match ResponseCode::from_code(value) {
            Some(c) => Ok(c),
            None => Err(()),
        }
    }
}

impl vstd::std_specs::convert::TryFromSpecImpl<u8> for ResponseCode {
    open spec fn obeys_try_from_spec() -> bool {
        true
    }

    open spec fn try_from_spec(v: u8) -> Result<Self, Self::Error> {
        match Self::spec_from_code(v) {
            Some(c) => Ok(c),
            None => Err(()),
        }
    }
}

/// Whether a message is a query or a response.
#[derive(Debug, Clone, Copy, PartialEq, Eq, Structural)]
pub enum QueryResponse {
    Query,
    Response,
}

impl QueryResponse {
    /// The wire value of the code.
    pub open spec fn spec_code(self) -> u8 {
        match self {
            QueryResponse::Query => 0,
            QueryResponse::Response => 1,
        }
    }

    /// The variant whose wire value is `v`, if any.
    pub open spec fn spec_from_code(v: u8) -> Option<QueryResponse> {
        match v {
            0 => Some(QueryResponse::Query),
            1 => Some(QueryResponse::Response),
            _ => None,
        }
    }

    pub fn code(self) -> (r: u8)
        ensures
            r == self.spec_code(),
    {
        match self {
            QueryResponse::Query => 0,
            QueryResponse::Response => 1,
        }
    }

    pub fn from_code(v: u8) -> (r: Option<QueryResponse>)
        ensures
            r == Self::spec_from_code(v),
            r is Some <==> v <= 1,
            r matches Some(c) ==> c.spec_code() == v,
    {
        match v {
            0 => Some(QueryResponse::Query),
            1 => Some(QueryResponse::Response),
            _ => None,
        }
    }
}

impl TryFrom<u8> for QueryResponse {
    type Error = ();

    fn try_from(value: u8) -> (r: Result<Self, Self::Error>) {
        match QueryResponse::from_code(value) {
            Some(c) => Ok(c),
            None => Err(()),
        }
    }
}

impl vstd::std_specs::convert::TryFromSpecImpl<u8> for QueryResponse {
    open spec fn obeys_try_from_spec() -> bool {
        true
    }

    open spec fn try_from_spec(v: u8) -> Result<Self, Self::Error> {
        match Self::spec_from_code(v) {
            Some(c) => Ok(c),
            None => Err(()),
        }
    }
}

/// The record types, with codes from one up.
#[derive(Debug, Clone, Copy, PartialEq, Eq, Structural)]
pub enum Type {
    A,
    NS,
    MD,
    MF,
    CNAME,
    SOA,
    MB,
    MG,
    MR,
    NULL,
    WKS,
    PTR,
    HINFO,
    MINFO,
    MX,
    TXT,
}

impl Type {
    /// The wire value of the code.
    pub open spec fn spec_code(self) -> u16 {
        match self {
            Type::A => 1,
            Type::NS => 2,
            Type::MD => 3,
            Type::MF => 4,
            Type::CNAME => 5,
            Type::SOA => 6,
            Type::MB => 7,
            Type::MG => 8,
            Type::MR => 9,
            Type::NULL => 10,
            Type::WKS => 11,
            Type::PTR => 12,
            Type::HINFO => 13,
            Type::MINFO => 14,
            Type::MX => 15,
            Type::TXT => 16,
        }
    }

    /// The variant whose wire value is `v`, if any.
    pub open spec fn spec_from_code(v: u16) -> Option<Type> {
        match v {
            1 => Some(Type::A),
            2 => Some(Type::NS),
            3 => Some(Type::MD),
            4 => Some(Type::MF),
            5 => Some(Type::CNAME),
            6 => Some(Type::SOA),
            7 => Some(Type::MB),
            8 => Some(Type::MG),
            9 => Some(Type::MR),
            10 => Some(Type::NULL),
            11 => Some(Type::WKS),
            12 => Some(Type::PTR),
            13 => Some(Type::HINFO),
            14 => Some(Type::MINFO),
            15 => Some(Type::MX),
            16 => Some(Type::TXT),
            _ => None,
        }
    }

    pub fn code(self) -> (r: u16)
        ensures
            r == self.spec_code(),
    {
        match self {
            Type::A => 1,
            Type::NS => 2,
            Type::MD => 3,
            Type::MF => 4,
            Type::CNAME => 5,
            Type::SOA => 6,
            Type::MB => 7,
            Type::MG => 8,
            Type::MR => 9,
            Type::NULL => 10,
            Type::WKS => 11,
            Type::PTR => 12,
            Type::HINFO => 13,
            Type::MINFO => 14,
            Type::MX => 15,
            Type::TXT => 16,
        }
    }

    pub fn from_code(v: u16) -> (r: Option<Type>)
        ensures
            r == Self::spec_from_code(v),
            r is Some <==> 1 <= v <= 16,
            r matches Some(c) ==> c.spec_code() == v,
    {
        match v {
            1 => Some(Type::A),
            2 => Some(Type::NS),
            3 => Some(Type::MD),
            4 => Some(Type::MF),
            5 => Some(Type::CNAME),
            6 => Some(Type::SOA),
            7 => Some(Type::MB),
            8 => Some(Type::MG),
            9 => Some(Type::MR),
            10 => Some(Type::NULL),
            11 => Some(Type::WKS),
            12 => Some(Type::PTR),
            13 => Some(Type::HINFO),
            14 => Some(Type::MINFO),
            15 => Some(Type::MX),
            16 => Some(Type::TXT),
            _ => None,
        }
    }
}

impl TryFrom<u16> for Type {
    type Error = ();

    fn try_from(value: u16) -> (r: Result<Self, Self::Error>) {
        match Type::from_code(value) {
            Some(c) => Ok(c),
            None => Err(()),
        }
    }
}

impl vstd::std_specs::convert::TryFromSpecImpl<u16> for Type {
    open spec fn obeys_try_from_spec() -> bool {
        true
    }

    open spec fn try_from_spec(v: u16) -> Result<Self, Self::Error> {
        match Self::spec_from_code(v) {
            Some(c) => Ok(c),
            None => Err(()),
        }
    }
}

/// The record classes, with codes from one up.
#[derive(Debug, Clone, Copy, PartialEq, Eq, Structural)]
pub enum Class {
    IN,
    CS,
    CH,
    HS,
}

impl Class {
    /// The wire value of the code.
    pub open spec fn spec_code(self) -> u16 {
        match self {
            Class::IN => 1,
            Class::CS => 2,
            Class::CH => 3,
            Class::HS => 4,
        }
    }

    /// The variant whose wire value is `v`, if any.
    pub open spec fn spec_from_code(v: u16) -> Option<Class> {
        match v {
            1 => Some(Class::IN),
            2 => Some(Class::CS),
            3 => Some(Class::CH),
            4 => Some(Class::HS),
            _ => None,
        }
    }

    pub fn code(self) -> (r: u16)
        ensures
            r == self.spec_code(),
    {
        match self {
            Class::IN => 1,
            Class::CS => 2,
            Class::CH => 3,
            Class::HS => 4,
        }
    }

    pub fn from_code(v: u16) -> (r: Option<Class>)
        ensures
            r == Self::spec_from_code(v),
            r is Some <==> 1 <= v <= 4,
            r matches Some(c) ==> c.spec_code() == v,
    {
        match v {
            1 => Some(Class::IN),
            2 => Some(Class::CS),
            3 => Some(Class::CH),
            4 => Some(Class::HS),
            _ => None,
        }
    }
}

impl TryFrom<u16> for Class {
    type Error = ();

    fn try_from(value: u16) -> (r: Result<Self, Self::Error>) {
        match Class::from_code(value) {
            Some(c) => Ok(c),
            None => Err(()),
        }
    }
}

impl vstd::std_specs::convert::TryFromSpecImpl<u16> for Class {
    open spec fn obeys_try_from_spec() -> bool {
        true
    }

    open spec fn try_from_spec(v: u16) -> Result<Self, Self::Error> {
        match Self::spec_from_code(v) {
            Some(c) => Ok(c),
            None => Err(()),
        }
    }
}

} // verus!
