//! What the resolver is asked and what it answers, free of any wire form.

use crate::name::DomainName;
use vstd::prelude::*;

verus! {

/// The time to live of every answer, in seconds.
pub const ANSWER_TTL: u32 = 60;

/// The operation that a message asks for.
#[derive(Clone, Copy, Debug, PartialEq, Eq)]
pub enum OpCode {
    Query,
    Status,
    Notify,
    Update,
}

/// Whether a message asks or answers.
#[derive(Clone, Copy, Debug, PartialEq, Eq)]
pub enum MessageType {
    Query,
    Response,
}

/// What of a request the resolver reads.
#[derive(Clone, Debug, PartialEq, Eq)]
pub struct Request {
    pub op_code: OpCode,
    pub message_type: MessageType,
    /// The name that is asked for.
    pub name: DomainName,
}

/// The kinds of record that are answered.
#[derive(Clone, Copy, Debug, PartialEq, Eq)]
pub enum RecordType {
    A,
    TXT,
}

/// The data of an answer.
#[derive(Clone, Debug, PartialEq, Eq)]
pub enum RData {
    /// The four octets of an address.
    A([u8; 4]),
    /// A text.
    TXT(String),
}

/// One answer record.
#[derive(Clone, Debug, PartialEq, Eq)]
pub struct Answer {
    pub name: DomainName,
    pub record_type: RecordType,
    pub ttl: u32,
    pub rdata: RData,
}

/// The response codes that are given.
#[derive(Clone, Copy, Debug, PartialEq, Eq)]
pub enum ResponseCode {
    NoError,
    ServFail,
}

/// What of a response the resolver decides.
#[derive(Clone, Debug, PartialEq, Eq)]
pub struct Response {
    pub authoritative: bool,
    pub response_code: ResponseCode,
    pub answers: Vec<Answer>,
}

/// The data of an answer, as mathematics.
pub enum RDataView {
    A([u8; 4]),
    TXT(Seq<char>),
}

/// An answer, as mathematics.
pub struct AnswerView {
    pub name: Seq<Seq<u8>>,
    pub record_type: RecordType,
    pub ttl: u32,
    pub rdata: RDataView,
}

/// A response, as mathematics.
pub struct ResponseView {
    pub authoritative: bool,
    pub response_code: ResponseCode,
    pub answers: Seq<AnswerView>,
}

impl View for RData {
    type V = RDataView;

    open spec fn view(&self) -> RDataView {
        match self {
            RData::A(octets) => RDataView::A(*octets),
            RData::TXT(text) => RDataView::TXT(text@),
        }
    }
}

impl View for Answer {
    type V = AnswerView;

    open spec fn view(&self) -> AnswerView {
        AnswerView {
            name: self.name@,
            record_type: self.record_type,
            ttl: self.ttl,
            rdata: self.rdata@,
        }
    }
}

impl View for Response {
    type V = ResponseView;

    open spec fn view(&self) -> ResponseView {
        ResponseView {
            authoritative: self.authoritative,
            response_code: self.response_code,
            answers: Seq::new(self.answers@.len(), |i: int| self.answers@[i]@),
        }
    }
}

} // verus!
