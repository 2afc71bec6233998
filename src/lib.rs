//! A codec for the DNS wire format: the fixed header, questions with
//! compressed names, and answer records, and the handling of one request,
//! answered locally or relayed to an upstream resolver.

pub mod buffer;
pub mod header;
pub mod message;
pub mod name;
pub mod record;
pub mod types;

pub use header::{Header, HEADER_LENGTH};
pub use message::{
    decode_questions, decode_request, forward_query, local_answer, read_upstream_reply,
    relay_response, respond_locally, response_header, LOCAL_ADDRESS, LOCAL_TTL,
};
pub use name::{decode_name, encode_name};
pub use record::{Answer, Question};
pub use types::{Class, DnsError, QueryResponse, ResponseCode, Type};
