//! The resolver: from a request and the record store to an answer or an
//! error, and from there to a response.
//!
//! A request is first checked to be a standard query. Its name is then
//! classified: names in the counter zone are answered with the next value
//! of a counter, other names in the root zone are looked up in the store,
//! and every other name is an error. Every error becomes a server failure.

use crate::address::{address_of, is_ipv4_text, parse_ipv4};
use crate::decimal::{decimal, to_decimal};
use crate::message::{
    Answer, AnswerView, MessageType, OpCode, RData, RDataView, RecordType, Request, Response,
    ResponseCode, ResponseView, ANSWER_TTL,
};
use crate::models::{address_type, is_address_type, Record};
use crate::name::{
    bytes_eq, is_lower, is_name, label_fits, labels_fit, lemma_lower_bytes_is_lower,
    lemma_name_len_concat, lemma_name_len_push, name_len, name_text, parsed_name, zone_of,
    DomainName, MAX_NAME_LEN,
};
use crate::options::Options;
use crate::store::{lookup, RecordStore};
use vstd::prelude::*;
use vstd::string::StringExecFns;

verus! {

/// Why a request is not answered.
#[derive(Clone, Debug, PartialEq, Eq)]
pub enum Error {
    /// The request asks for another operation than a query.
    InvalidOpCode(OpCode),
    /// The message is not a query.
    InvalidMessageType(MessageType),
    /// The name is in no zone of the server, or nothing is stored for it.
    InvalidZone(DomainName),
    /// The record of the name is of a type that is not resolved.
    InvalidRecordType(String),
}

/// An error, as mathematics.
pub enum ErrorView {
    InvalidOpCode(OpCode),
    InvalidMessageType(MessageType),
    InvalidZone(Seq<Seq<u8>>),
    InvalidRecordType(Seq<char>),
}

impl View for Error {
    type V = ErrorView;

    open spec fn view(&self) -> ErrorView {
        match self {
            Error::InvalidOpCode(op_code) => ErrorView::InvalidOpCode(*op_code),
            Error::InvalidMessageType(message_type) => ErrorView::InvalidMessageType(*message_type),
            Error::InvalidZone(name) => ErrorView::InvalidZone(name@),
            Error::InvalidRecordType(record_type) => ErrorView::InvalidRecordType(record_type@),
        }
    }
}

/// How an operation is written.
pub open spec fn op_code_text(op_code: OpCode) -> Seq<char> {
    match op_code {
        OpCode::Query => "QUERY"@,
        OpCode::Status => "STATUS"@,
        OpCode::Notify => "NOTIFY"@,
        OpCode::Update => "UPDATE"@,
    }
}

/// How a message type is written.
pub open spec fn message_type_text(message_type: MessageType) -> Seq<char> {
    match message_type {
        MessageType::Query => "QUERY"@,
        MessageType::Response => "RESPONSE"@,
    }
}

/// What an error says: its kind, and the operation, type or name that was
/// refused.
pub open spec fn error_text(e: ErrorView) -> Seq<char> {
    match e {
        ErrorView::InvalidOpCode(op_code) => "Invalid OpCode "@ + op_code_text(op_code),
        ErrorView::InvalidMessageType(message_type) => "Invalid MessageType "@ + message_type_text(
            message_type,
        ),
        ErrorView::InvalidZone(name) => "Invalid Zone "@ + name_text(name),
        ErrorView::InvalidRecordType(record_type) => "Invalid Record Type "@ + record_type,
    }
}

impl Error {
    /// What the error says, for a log.
    pub fn message(&self) -> (r: String)
        ensures
            r@ == error_text(self@),
    {
        match self {
            Error::InvalidOpCode(op_code) => {
                let mut out = "Invalid OpCode ".to_owned();
                match op_code {
                    OpCode::Query => out.append("QUERY"),
                    OpCode::Status => out.append("STATUS"),
                    OpCode::Notify => out.append("NOTIFY"),
                    OpCode::Update => out.append("UPDATE"),
                }
                out
            },
            Error::InvalidMessageType(message_type) => {
                let mut out = "Invalid MessageType ".to_owned();
                match message_type {
                    MessageType::Query => out.append("QUERY"),
                    MessageType::Response => out.append("RESPONSE"),
                }
                out
            },
            Error::InvalidZone(name) => {
                let mut out = "Invalid Zone ".to_owned();
                let text = name.full_text();
                out.append(text.as_str());
                out
            },
            Error::InvalidRecordType(record_type) => {
                let mut out = "Invalid Record Type ".to_owned();
                out.append(record_type.as_str());
                out
            },
        }
    }
}

/// The zone that a name belongs to.
#[derive(Clone, Copy, Debug, PartialEq, Eq)]
pub enum ZoneKind {
    /// The counter zone: `counter` under the root domain, and all below it.
    Counter,
    /// The root domain and all below it, but for the counter zone.
    ServiceDiscovery,
    /// Everything else.
    Unrecognized,
}

/// The label `counter`.
pub open spec fn counter_label() -> Seq<u8> {
    seq![0x63u8, 0x6fu8, 0x75u8, 0x6eu8, 0x74u8, 0x65u8, 0x72u8]
}

/// The label `myip`.
pub open spec fn myip_label() -> Seq<u8> {
    seq![0x6du8, 0x79u8, 0x69u8, 0x70u8]
}

/// The label `hello`.
pub open spec fn hello_label() -> Seq<u8> {
    seq![0x68u8, 0x65u8, 0x6cu8, 0x6cu8, 0x6fu8]
}

/// The zone one label below a root domain.
pub open spec fn zone_under(label: Seq<u8>, root: Seq<Seq<u8>>) -> Seq<Seq<u8>> {
    seq![label] + root
}

/// The zone of a name under a root domain. The counter zone is asked
/// first, because it lies within the root domain.
pub open spec fn zone_kind(name: Seq<Seq<u8>>, root: Seq<Seq<u8>>) -> ZoneKind {
    if zone_of(zone_under(counter_label(), root), name) {
        ZoneKind::Counter
    } else if zone_of(root, name) {
        ZoneKind::ServiceDiscovery
    } else {
        ZoneKind::Unrecognized
    }
}

/// The root domain that a configured domain stands for: the name it parses
/// to, where the longest zone below it still fits in a name.
pub open spec fn zone_root(domain: Seq<char>) -> Option<Seq<Seq<u8>>> {
    match parsed_name(domain) {
        Some(root) => if name_len(root) + counter_label().len() + 1 <= MAX_NAME_LEN {
            Some(root)
        } else {
            None
        },
        None => None,
    }
}

/// The value of the counter after one more request. At the largest value
/// it starts again at zero.
pub open spec fn next_count(count: u64) -> u64 {
    if count == u64::MAX {
        0
    } else {
        (count + 1) as u64
    }
}

/// The answer of the counter zone: the value of the counter as text.
pub open spec fn count_answer(name: Seq<Seq<u8>>, count: u64) -> AnswerView {
    AnswerView {
        name,
        record_type: RecordType::TXT,
        ttl: ANSWER_TTL,
        rdata: RDataView::TXT(decimal(count as nat)),
    }
}

/// What is wrong with a request before its name is looked at, if anything:
/// it must ask for a query, and be a query.
pub open spec fn request_error(op_code: OpCode, message_type: MessageType) -> Option<ErrorView> {
    if op_code != OpCode::Query {
        Some(ErrorView::InvalidOpCode(op_code))
    } else if message_type != MessageType::Query {
        Some(ErrorView::InvalidMessageType(message_type))
    } else {
        None
    }
}

/// What a looked-up record makes of a request. No record is a zone error.
/// A record of another type than the address type is a record type error.
/// A value that is no address is a zone error as well.
pub open spec fn record_outcome(found: Option<Record>, name: Seq<Seq<u8>>) -> Result<
    AnswerView,
    ErrorView,
> {
    match found {
        None => Err(ErrorView::InvalidZone(name)),
        Some(record) => if record.record_type@ != address_type() {
            Err(ErrorView::InvalidRecordType(record.record_type@))
        } else if !is_ipv4_text(record.value@) {
            Err(ErrorView::InvalidZone(name))
        } else {
            Ok(
                AnswerView {
                    name,
                    record_type: RecordType::A,
                    ttl: ANSWER_TTL,
                    rdata: RDataView::A(address_of(record.value@)),
                },
            )
        },
    }
}

/// Whether a request takes a value of the counter.
pub open spec fn counts(
    root: Seq<Seq<u8>>,
    op_code: OpCode,
    message_type: MessageType,
    name: Seq<Seq<u8>>,
) -> bool {
    request_error(op_code, message_type) is None && zone_kind(name, root) == ZoneKind::Counter
}

/// The outcome of a request: for a resolver of the root domain `root`
/// whose counter stands at `count`, over a store of the zone `store_zone`
/// with the given contents.
pub open spec fn resolve(
    root: Seq<Seq<u8>>,
    count: u64,
    store_zone: Seq<Seq<u8>>,
    contents: Map<Seq<Seq<u8>>, Record>,
    op_code: OpCode,
    message_type: MessageType,
    name: Seq<Seq<u8>>,
) -> Result<AnswerView, ErrorView> {
    match request_error(op_code, message_type) {
        Some(e) => Err(e),
        None => match zone_kind(name, root) {
            ZoneKind::Counter => Ok(count_answer(name, next_count(count))),
            ZoneKind::ServiceDiscovery => record_outcome(
                lookup(store_zone, contents, name),
                name,
            ),
            ZoneKind::Unrecognized => Err(ErrorView::InvalidZone(name)),
        },
    }
}

/// The response code of an error. Every error is a server failure.
pub open spec fn error_code(e: ErrorView) -> ResponseCode {
    ResponseCode::ServFail
}

/// The response to an outcome: an answer goes out alone in an
/// authoritative response without error; an error goes out as its code,
/// with no answer.
pub open spec fn response_of(outcome: Result<AnswerView, ErrorView>) -> ResponseView {
    match outcome {
        Ok(answer) => ResponseView {
            authoritative: true,
            response_code: ResponseCode::NoError,
            answers: seq![answer],
        },
        Err(e) => ResponseView {
            authoritative: false,
            response_code: error_code(e),
            answers: Seq::empty(),
        },
    }
}

/// An outcome, as mathematics.
pub open spec fn outcome_view(outcome: Result<Answer, Error>) -> Result<AnswerView, ErrorView> {
    match outcome {
        Ok(answer) => Ok(answer@),
        Err(e) => Err(e@),
    }
}

/// A name is in the zone one label below a root exactly when it is in the
/// root, is longer than the root, and has that label in front of the
/// root's.
pub proof fn lemma_zone_under(label: Seq<u8>, root: Seq<Seq<u8>>, name: Seq<Seq<u8>>)
    ensures
        zone_of(zone_under(label, root), name) <==> (zone_of(root, name) && name.len() > root.len()
            && name[name.len() - root.len() - 1] == label),
{
    let zone = zone_under(label, root);
    let m = name.len() as int;
    let n = root.len() as int;
    if zone_of(zone, name) {
        let tail = name.subrange(m - n - 1, m);
        assert(tail[0] == zone[0]);
        assert(name.subrange(m - n, m) =~= root) by {
            assert forall|i: int| 0 <= i < n implies name.subrange(m - n, m)[i] == root[i] by {
                assert(tail[i + 1] == zone[i + 1]);
            }
        }
    }
    if zone_of(root, name) && m > n && name[m - n - 1] == label {
        let tail = name.subrange(m - n, m);
        assert(name.subrange(m - n - 1, m) =~= zone) by {
            assert forall|i: int| 0 <= i < n + 1 implies name.subrange(m - n - 1, m)[i]
                == zone[i] by {
                if i > 0 {
                    assert(tail[i - 1] == root[i - 1]);
                }
            }
        }
    }
}

/// A label that fits, in front of a name with room for it, makes labels
/// that fit.
pub proof fn lemma_zone_under_fits(label: Seq<u8>, root: Seq<Seq<u8>>)
    requires
        is_name(root),
        label_fits(label),
        name_len(root) + label.len() + 1 <= MAX_NAME_LEN,
    ensures
        labels_fit(zone_under(label, root)),
{
    let zone = zone_under(label, root);
    lemma_name_len_concat(seq![label], root);
    lemma_name_len_push(Seq::empty(), label);
    assert(seq![label] =~= Seq::<Seq<u8>>::empty().push(label));
    assert forall|i: int| 0 <= i < zone.len() implies label_fits(#[trigger] zone[i]) by {
        if i > 0 {
            assert(zone[i] == root[i - 1]);
            assert(label_fits(root[i - 1]));
        }
    }
}

/// The bytes of the label `counter`.
fn counter_bytes() -> (r: Vec<u8>)
    ensures
        r@ == counter_label(),
{
    let mut r: Vec<u8> = Vec::new();
    r.push(0x63);
    r.push(0x6f);
    r.push(0x75);
    r.push(0x6e);
    r.push(0x74);
    r.push(0x65);
    r.push(0x72);
    assert(r@ =~= counter_label());
    r
}

/// The bytes of the label `myip`.
fn myip_bytes() -> (r: Vec<u8>)
    ensures
        r@ == myip_label(),
{
    let mut r: Vec<u8> = Vec::new();
    r.push(0x6d);
    r.push(0x79);
    r.push(0x69);
    r.push(0x70);
    assert(r@ =~= myip_label());
    r
}

/// The bytes of the label `hello`.
fn hello_bytes() -> (r: Vec<u8>)
    ensures
        r@ == hello_label(),
{
    let mut r: Vec<u8> = Vec::new();
    r.push(0x68);
    r.push(0x65);
    r.push(0x6c);
    r.push(0x6c);
    r.push(0x6f);
    assert(r@ =~= hello_label());
    r
}

/// The zone that a name belongs to under a root domain.
pub fn classify(query_name: &DomainName, root_domain: &DomainName) -> (kind: ZoneKind)
    ensures
        kind == zone_kind(query_name@, root_domain@),
{
    proof {
        lemma_zone_under(counter_label(), root_domain@, query_name@);
    }
    if !root_domain.zone_of(query_name) {
        return ZoneKind::Unrecognized;
    }
    let n = root_domain.label_count();
    let m = query_name.label_count();
    if m > n {
        let label = counter_bytes();
        if bytes_eq(query_name.label(m - n - 1), label.as_slice()) {
            return ZoneKind::Counter;
        }
    }
    ZoneKind::ServiceDiscovery
}

/// The value of the counter after one more request.
pub fn count_after(count: u64) -> (r: u64)
    ensures
        r == next_count(count),
{
    if count == u64::MAX {
        0
    } else {
        count + 1
    }
}

/// Checks that a request asks for a query and is a query.
pub fn check_request(request: &Request) -> (r: Result<(), Error>)
    ensures
        match r {
            Ok(_) => request_error(request.op_code, request.message_type) is None,
            Err(e) => request_error(request.op_code, request.message_type) == Some(e@),
        },
{
    match request.op_code {
        OpCode::Query => {},
        _ => {
            return Err(Error::InvalidOpCode(request.op_code));
        },
    }
    match request.message_type {
        MessageType::Query => {},
        _ => {
            return Err(Error::InvalidMessageType(request.message_type));
        },
    }
    Ok(())
}

/// The answer of the counter zone to a request for `name`, where the
/// counter has just reached `count`.
pub fn answer_count(name: &DomainName, count: u64) -> (r: Answer)
    ensures
        r@ == count_answer(name@, count),
{
    Answer {
        name: name.clone(),
        record_type: RecordType::TXT,
        ttl: ANSWER_TTL,
        rdata: RData::TXT(to_decimal(count)),
    }
}

/// What a looked-up record makes of a request for `name`.
pub fn answer_record(found: Option<&Record>, name: &DomainName) -> (r: Result<Answer, Error>)
    ensures
        outcome_view(r) == record_outcome(
            match found {
                Some(record) => Some(*record),
                None => None,
            },
            name@,
        ),
{
    let record = match found {
        Some(record) => record,
        None => {
            return Err(Error::InvalidZone(name.clone()));
        },
    };
    if !is_address_type(record.record_type.as_str()) {
        return Err(Error::InvalidRecordType(record.record_type.clone()));
    }
    match parse_ipv4(record.value.as_str()) {
        Some(octets) => Ok(
            Answer {
                name: name.clone(),
                record_type: RecordType::A,
                ttl: ANSWER_TTL,
                rdata: RData::A(octets),
            },
        ),
        None => Err(Error::InvalidZone(name.clone())),
    }
}

/// The response code of an error.
pub fn response_code(e: &Error) -> (r: ResponseCode)
    ensures
        r == error_code(e@),
{
    ResponseCode::ServFail
}

/// The response to an outcome.
pub fn respond(outcome: Result<Answer, Error>) -> (r: Response)
    ensures
        r@ == response_of(outcome_view(outcome)),
{
    match outcome {
        Ok(answer) => {
            let mut answers: Vec<Answer> = Vec::new();
            let ghost a = answer@;
            answers.push(answer);
            let r = Response {
                authoritative: true,
                response_code: ResponseCode::NoError,
                answers,
            };
            assert(r@.answers =~= seq![a]);
            r
        },
        Err(e) => {
            let r = Response {
                authoritative: false,
                response_code: response_code(&e),
                answers: Vec::new(),
            };
            assert(r@.answers =~= Seq::<AnswerView>::empty());
            r
        },
    }
}

/// The record type and the value that are stored for a name, or a zone
/// error where nothing is.
pub fn get_matching_record(store: &RecordStore, query_name: &DomainName) -> (r: Result<
    (String, String),
    Error,
>)
    ensures
        match lookup(store.zone(), store.contents(), query_name@) {
            Some(record) => r matches Ok((record_type, value)) && record_type@
                == record.record_type@ && value@ == record.value@,
            None => r matches Err(e) && e@ == ErrorView::InvalidZone(query_name@),
        },
{
    match store.get_by_domain(query_name) {
        Some(record) => Ok((record.record_type.clone(), record.value.clone())),
        None => Err(Error::InvalidZone(query_name.clone())),
    }
}

/// DNS Request Handler
#[derive(Debug, PartialEq, Eq)]
pub struct DNSHandler {
    root_zone: DomainName,
    counter: u64,
    counter_zone: DomainName,
    myip_zone: DomainName,
    hello_zone: DomainName,
}

impl Clone for DNSHandler {
    fn clone(&self) -> (r: Self)
        ensures
            r.root() == self.root(),
            r.count() == self.count(),
    {
        proof {
            use_type_invariant(self);
        }
        DNSHandler {
            root_zone: self.root_zone.clone(),
            counter: self.counter,
            counter_zone: self.counter_zone.clone(),
            myip_zone: self.myip_zone.clone(),
            hello_zone: self.hello_zone.clone(),
        }
    }
}

impl DNSHandler {
    /// The labels of the root domain.
    pub closed spec fn root(&self) -> Seq<Seq<u8>> {
        self.root_zone@
    }

    /// Where the counter stands: the value that was given out last.
    pub closed spec fn count(&self) -> u64 {
        self.counter
    }

    /// The zones of a handler lie one label below its root domain.
    #[verifier::type_invariant]
    pub closed spec fn wf(&self) -> bool {
        &&& is_name(self.root_zone@)
        &&& self.counter_zone@ == zone_under(counter_label(), self.root_zone@)
        &&& self.myip_zone@ == zone_under(myip_label(), self.root_zone@)
        &&& self.hello_zone@ == zone_under(hello_label(), self.root_zone@)
    }

    /// Create a new handler from the command-line options. The counter
    /// starts at zero. The domain of the options must be a name below which
    /// the zones of the handler fit; `try_from_options` tests that.
    pub fn from_options(options: &Options) -> (r: DNSHandler)
        requires
            zone_root(options.domain@) is Some,
        ensures
            Some(r.root()) == zone_root(options.domain@),
            r.count() == 0,
    {
        let root = DomainName::parse(options.domain.as_str()).unwrap();
        proof {
            use_type_invariant(&root);
            let c = counter_label();
            let m = myip_label();
            let h = hello_label();
            assert(is_lower(c) && is_lower(m) && is_lower(h));
            lemma_lower_bytes_is_lower(c);
            lemma_lower_bytes_is_lower(m);
            lemma_lower_bytes_is_lower(h);
            lemma_zone_under_fits(c, root@);
            lemma_zone_under_fits(m, root@);
            lemma_zone_under_fits(h, root@);
        }
        let counter_zone = root.child(counter_bytes().as_slice()).unwrap();
        let myip_zone = root.child(myip_bytes().as_slice()).unwrap();
        let hello_zone = root.child(hello_bytes().as_slice()).unwrap();
        DNSHandler { root_zone: root, counter: 0, counter_zone, myip_zone, hello_zone }
    }

    /// Create a new handler from the command-line options, where the
    /// domain of the options is a name below which the zones of the handler
    /// fit. `None` where it is not.
    pub fn try_from_options(options: &Options) -> (r: Option<DNSHandler>)
        ensures
            r is Some <==> zone_root(options.domain@) is Some,
            r matches Some(handler) ==> Some(handler.root()) == zone_root(options.domain@)
                && handler.count() == 0,
    {
        match DomainName::parse(options.domain.as_str()) {
            Some(root) => {
                if root.len() + 8 <= MAX_NAME_LEN {
                    Some(DNSHandler::from_options(options))
                } else {
                    None
                }
            },
            None => None,
        }
    }

    /// The root domain.
    pub fn root_zone(&self) -> (r: &DomainName)
        ensures
            r@ == self.root(),
    {
        &self.root_zone
    }

    /// The counter zone.
    pub fn counter_zone(&self) -> (r: &DomainName)
        ensures
            r@ == zone_under(counter_label(), self.root()),
    {
        proof {
            use_type_invariant(self);
        }
        &self.counter_zone
    }

    /// The zone `myip`, which is kept free and not answered.
    pub fn myip_zone(&self) -> (r: &DomainName)
        ensures
            r@ == zone_under(myip_label(), self.root()),
    {
        proof {
            use_type_invariant(self);
        }
        &self.myip_zone
    }

    /// The zone `hello`, which is kept free and not answered.
    pub fn hello_zone(&self) -> (r: &DomainName)
        ensures
            r@ == zone_under(hello_label(), self.root()),
    {
        proof {
            use_type_invariant(self);
        }
        &self.hello_zone
    }

    /// Where the counter stands.
    pub fn counter(&self) -> (r: u64)
        ensures
            r == self.count(),
    {
        self.counter
    }

    /// The zone that a name belongs to.
    pub fn classify(&self, name: &DomainName) -> (kind: ZoneKind)
        ensures
            kind == zone_kind(name@, self.root()),
    {
        classify(name, &self.root_zone)
    }

    /// Whether a request takes a value of the counter: whether it is a
    /// standard query for a name in the counter zone.
    pub fn takes_count(&self, request: &Request) -> (r: bool)
        ensures
            r == counts(self.root(), request.op_code, request.message_type, request.name@),
    {
        match check_request(request) {
            Ok(_) => match self.classify(&request.name) {
                ZoneKind::Counter => true,
                _ => false,
            },
            Err(_) => false,
        }
    }

    /// The outcome of a request where the counter is kept elsewhere:
    /// `count` is where the counter stood before the request, and matters
    /// only where the request takes a value of the counter.
    pub fn resolve_request(&self, store: &RecordStore, request: &Request, count: u64) -> (r:
        Result<Answer, Error>)
        ensures
            outcome_view(r) == resolve(
                self.root(),
                count,
                store.zone(),
                store.contents(),
                request.op_code,
                request.message_type,
                request.name@,
            ),
    {
        match check_request(request) {
            Ok(_) => {},
            Err(e) => {
                return Err(e);
            },
        }
        match self.classify(&request.name) {
            ZoneKind::Counter => Ok(answer_count(&request.name, count_after(count))),
            ZoneKind::ServiceDiscovery => self.do_handle_deployment_request(store, request),
            ZoneKind::Unrecognized => Err(Error::InvalidZone(request.name.clone())),
        }
    }

    /// Handle requests for counter.{domain}: the counter goes one up, and
    /// its new value is the answer.
    pub fn do_handle_request_count(&mut self, request: &Request) -> (r: Result<Answer, Error>)
        ensures
            final(self).root() == old(self).root(),
            final(self).count() == next_count(old(self).count()),
            outcome_view(r) == Ok::<AnswerView, ErrorView>(
                count_answer(request.name@, next_count(old(self).count())),
            ),
    {
        proof {
            use_type_invariant(&*self);
        }
        let count = count_after(self.counter);
        self.counter = count;
        Ok(answer_count(&request.name, count))
    }

    /// Handle requests for names of the root domain: the record of the
    /// name is looked up and its address is the answer.
    pub fn do_handle_deployment_request(&self, store: &RecordStore, request: &Request) -> (r:
        Result<Answer, Error>)
        ensures
            outcome_view(r) == record_outcome(
                lookup(store.zone(), store.contents(), request.name@),
                request.name@,
            ),
    {
        answer_record(store.get_by_domain(&request.name), &request.name)
    }

    /// Handle a request: check it, classify its name, and answer it from
    /// the counter or from the store.
    pub fn do_handle_request(&mut self, store: &RecordStore, request: &Request) -> (r: Result<
        Answer,
        Error,
    >)
        ensures
            final(self).root() == old(self).root(),
            final(self).count() == (if counts(
                old(self).root(),
                request.op_code,
                request.message_type,
                request.name@,
            ) {
                next_count(old(self).count())
            } else {
                old(self).count()
            }),
            outcome_view(r) == resolve(
                old(self).root(),
                old(self).count(),
                store.zone(),
                store.contents(),
                request.op_code,
                request.message_type,
                request.name@,
            ),
    {
        match check_request(request) {
            Ok(_) => {},
            Err(e) => {
                return Err(e);
            },
        }
        match self.classify(&request.name) {
            ZoneKind::Counter => self.do_handle_request_count(request),
            ZoneKind::ServiceDiscovery => self.do_handle_deployment_request(store, request),
            ZoneKind::Unrecognized => Err(Error::InvalidZone(request.name.clone())),
        }
    }

    /// Handle a request and make the response to it.
    pub fn handle_request(&mut self, store: &RecordStore, request: &Request) -> (r: Response)
        ensures
            final(self).root() == old(self).root(),
            final(self).count() == (if counts(
                old(self).root(),
                request.op_code,
                request.message_type,
                request.name@,
            ) {
                next_count(old(self).count())
            } else {
                old(self).count()
            }),
            r@ == response_of(
                resolve(
                    old(self).root(),
                    old(self).count(),
                    store.zone(),
                    store.contents(),
                    request.op_code,
                    request.message_type,
                    request.name@,
                ),
            ),
    {
        respond(self.do_handle_request(store, request))
    }
}

} // verus!
