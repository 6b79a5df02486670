use arkdns::admin_handlers::{delete_deployment, upsert_record, AdminError, RecordUpsertParams};
use arkdns::dns_handler::{
    answer_count, answer_record, check_request, classify, count_after, get_matching_record,
    respond, response_code, DNSHandler, Error, ZoneKind,
};
use arkdns::message::{
    Answer, MessageType, OpCode, RData, RecordType, Request, Response, ResponseCode, ANSWER_TTL,
};
use arkdns::name::DomainName;
use arkdns::options::Options;
use arkdns::store::RecordStore;

fn name(text: &str) -> DomainName {
    DomainName::parse(text).unwrap()
}

fn query(text: &str) -> Request {
    Request { op_code: OpCode::Query, message_type: MessageType::Query, name: name(text) }
}

fn params(app_name: &str, value: &str) -> RecordUpsertParams {
    RecordUpsertParams { app_name: app_name.to_string(), value: value.to_string() }
}

fn handler_for(domain: &str) -> DNSHandler {
    let options = Options { domain: domain.to_string(), ..Options::default() };
    DNSHandler::try_from_options(&options).unwrap()
}

fn address(text: &str, octets: [u8; 4]) -> Answer {
    Answer { name: name(text), record_type: RecordType::A, ttl: 60, rdata: RData::A(octets) }
}

fn count(text: &str, value: &str) -> Answer {
    Answer {
        name: name(text),
        record_type: RecordType::TXT,
        ttl: 60,
        rdata: RData::TXT(value.to_string()),
    }
}

#[test]
fn upserted_record_resolves_to_its_address() {
    let mut handler = DNSHandler::from_options(&Options::default());
    let mut store = RecordStore::new(handler.root_zone().clone());
    let record = upsert_record(&mut store, "prod", "main", params("web", "10.0.0.5")).unwrap();
    assert_eq!(record.domain_name, "web.main.prod.internal.");
    assert_eq!(record.guid, 1);
    assert_eq!(record.record_type, "A");

    let expected = address("web.main.prod.internal.", [10, 0, 0, 5]);
    let with_dot = handler.do_handle_request(&store, &query("web.main.prod.internal."));
    assert_eq!(with_dot, Ok(expected.clone()));
    let without_dot = handler.do_handle_request(&store, &query("web.main.prod.internal"));
    assert_eq!(without_dot, Ok(expected.clone()));

    let response = handler.handle_request(&store, &query("web.main.prod.internal."));
    assert!(response.authoritative);
    assert_eq!(response.response_code, ResponseCode::NoError);
    assert_eq!(response.answers, vec![expected]);

    let missing = handler.do_handle_request(&store, &query("api.main.prod.internal."));
    assert_eq!(missing, Err(Error::InvalidZone(name("api.main.prod.internal."))));
    let response = handler.handle_request(&store, &query("api.main.prod.internal."));
    assert!(!response.authoritative);
    assert_eq!(response.response_code, ResponseCode::ServFail);
    assert!(response.answers.is_empty());
}

#[test]
fn records_resolve_under_any_root_domain() {
    for (domain, queried) in [
        ("example.com", "Web.Main.Prod.example.COM."),
        ("svc.cluster.local.", "web.main.prod.svc.cluster.local"),
        (".", "web.main.prod."),
        ("", "web.main.prod"),
    ] {
        let mut handler = handler_for(domain);
        let mut store = RecordStore::new(handler.root_zone().clone());
        upsert_record(&mut store, "prod", "main", params("web", "192.168.7.250")).unwrap();
        assert_eq!(
            handler.do_handle_request(&store, &query(queried)),
            Ok(address(queried, [192, 168, 7, 250])),
            "{domain}"
        );
    }
}

#[test]
fn upsert_refuses_a_malformed_address() {
    let handler = DNSHandler::from_options(&Options::default());
    let mut store = RecordStore::new(handler.root_zone().clone());
    for value in ["", "10.0.0", "10.0.0.256", "010.0.0.1", "10.0.0.5 ", "a.b.c.d", "1.2.3.4.5"] {
        let r = upsert_record(&mut store, "prod", "main", params("web", value));
        assert_eq!(r, Err(AdminError::InvalidAddress), "{value}");
    }
    assert_eq!(store.len(), 0);
}

#[test]
fn names_outside_the_root_domain_are_zone_errors() {
    let mut handler = DNSHandler::from_options(&Options::default());
    let mut store = RecordStore::new(handler.root_zone().clone());
    upsert_record(&mut store, "prod", "main", params("web", "10.0.0.5")).unwrap();
    for text in [
        "web.main.prod.external.",
        "web.main.prod.",
        "internal.example.",
        "notinternal.",
        "counter.external.",
        ".",
    ] {
        assert_eq!(handler.classify(&name(text)), ZoneKind::Unrecognized, "{text}");
        assert_eq!(
            handler.do_handle_request(&store, &query(text)),
            Err(Error::InvalidZone(name(text))),
            "{text}"
        );
        let response = handler.handle_request(&store, &query(text));
        assert_eq!(
            response,
            Response { authoritative: false, response_code: ResponseCode::ServFail, answers: vec![] }
        );
    }
    assert_eq!(handler.counter(), 0);
}

#[test]
fn names_are_classified_by_their_labels() {
    let root = name("example");
    assert_eq!(classify(&name("counter.example"), &root), ZoneKind::Counter);
    assert_eq!(classify(&name("a.b.Counter.Example."), &root), ZoneKind::Counter);
    assert_eq!(classify(&name("evilcounter.example"), &root), ZoneKind::ServiceDiscovery);
    assert_eq!(classify(&name("counter.x.example"), &root), ZoneKind::ServiceDiscovery);
    assert_eq!(classify(&name("example"), &root), ZoneKind::ServiceDiscovery);
    assert_eq!(classify(&name("myip.example"), &root), ZoneKind::ServiceDiscovery);
    assert_eq!(classify(&name("hello.example"), &root), ZoneKind::ServiceDiscovery);
    assert_eq!(classify(&name("counter"), &root), ZoneKind::Unrecognized);
    assert_eq!(classify(&name("counter.example.com"), &root), ZoneKind::Unrecognized);
    assert_eq!(classify(&name("counter"), &DomainName::root()), ZoneKind::Counter);
    assert_eq!(classify(&name("."), &DomainName::root()), ZoneKind::ServiceDiscovery);
}

#[test]
fn the_counter_goes_up_by_one_with_each_query() {
    let mut handler = DNSHandler::from_options(&Options::default());
    let store = RecordStore::new(handler.root_zone().clone());
    assert_eq!(handler.counter(), 0);
    assert_eq!(
        handler.do_handle_request(&store, &query("counter.internal.")),
        Ok(count("counter.internal.", "1"))
    );
    assert_eq!(
        handler.do_handle_request(&store, &query("x.counter.internal.")),
        Ok(count("x.counter.internal.", "2"))
    );
    let response = handler.handle_request(&store, &query("counter.internal."));
    assert!(response.authoritative);
    assert_eq!(response.response_code, ResponseCode::NoError);
    assert_eq!(response.answers, vec![count("counter.internal.", "3")]);
    assert_eq!(handler.counter(), 3);
    let mut last = 3u64;
    for _ in 0..100 {
        let answer = handler.do_handle_request(&store, &query("counter.internal.")).unwrap();
        let value = match answer.rdata {
            RData::TXT(text) => text.parse::<u64>().unwrap(),
            RData::A(_) => panic!("no text"),
        };
        assert!(value > last);
        last = value;
    }
    assert_eq!(last, 103);
}

#[test]
fn the_counter_is_left_alone_by_other_requests() {
    let mut handler = DNSHandler::from_options(&Options::default());
    let mut store = RecordStore::new(handler.root_zone().clone());
    upsert_record(&mut store, "prod", "main", params("web", "10.0.0.5")).unwrap();
    let _ = handler.do_handle_request(&store, &query("web.main.prod.internal."));
    let _ = handler.do_handle_request(&store, &query("api.main.prod.internal."));
    let _ = handler.do_handle_request(&store, &query("elsewhere."));
    let mut notify = query("counter.internal.");
    notify.op_code = OpCode::Notify;
    let _ = handler.do_handle_request(&store, &notify);
    assert_eq!(handler.counter(), 0);
}

#[test]
fn the_counter_starts_again_after_its_largest_value() {
    assert_eq!(count_after(0), 1);
    assert_eq!(count_after(41), 42);
    assert_eq!(count_after(u64::MAX - 1), u64::MAX);
    assert_eq!(count_after(u64::MAX), 0);
    assert_eq!(
        answer_count(&name("counter.internal"), u64::MAX),
        count("counter.internal", "18446744073709551615")
    );
}

#[test]
fn the_counter_zone_comes_before_the_store() {
    let mut handler = DNSHandler::from_options(&Options::default());
    let mut store = RecordStore::new(handler.root_zone().clone());
    upsert_record(&mut store, "counter", "main", params("web", "10.0.0.5")).unwrap();
    assert_eq!(
        handler.do_handle_request(&store, &query("web.main.counter.internal.")),
        Ok(count("web.main.counter.internal.", "1"))
    );
    upsert_record(&mut store, "prod", "counter", params("web", "10.0.0.6")).unwrap();
    assert_eq!(
        handler.do_handle_request(&store, &query("web.counter.prod.internal.")),
        Ok(address("web.counter.prod.internal.", [10, 0, 0, 6]))
    );
}

#[test]
fn requests_that_are_no_standard_queries_are_refused() {
    let mut handler = DNSHandler::from_options(&Options::default());
    let mut store = RecordStore::new(handler.root_zone().clone());
    upsert_record(&mut store, "prod", "main", params("web", "10.0.0.5")).unwrap();
    for op_code in [OpCode::Status, OpCode::Notify, OpCode::Update] {
        let mut request = query("web.main.prod.internal.");
        request.op_code = op_code;
        request.message_type = MessageType::Response;
        assert_eq!(check_request(&request), Err(Error::InvalidOpCode(op_code)));
        assert_eq!(handler.do_handle_request(&store, &request), Err(Error::InvalidOpCode(op_code)));
        let response = handler.handle_request(&store, &request);
        assert_eq!(response.response_code, ResponseCode::ServFail);
        assert!(response.answers.is_empty());
    }
    let mut request = query("web.main.prod.internal.");
    request.message_type = MessageType::Response;
    assert_eq!(check_request(&request), Err(Error::InvalidMessageType(MessageType::Response)));
    assert_eq!(
        handler.do_handle_request(&store, &request),
        Err(Error::InvalidMessageType(MessageType::Response))
    );
    assert_eq!(check_request(&query("web.main.prod.internal.")), Ok(()));
}

#[test]
fn a_record_of_another_type_is_a_record_type_error() {
    let mut handler = DNSHandler::from_options(&Options::default());
    let mut store = RecordStore::new(handler.root_zone().clone());
    store.put("prod", "main", "web", "CNAME", "10.0.0.5").unwrap();
    assert_eq!(
        handler.do_handle_request(&store, &query("web.main.prod.internal.")),
        Err(Error::InvalidRecordType("CNAME".to_string()))
    );
    assert_eq!(
        handler.handle_request(&store, &query("web.main.prod.internal.")).response_code,
        ResponseCode::ServFail
    );
    assert_eq!(
        get_matching_record(&store, &name("web.main.prod.internal")),
        Ok(("CNAME".to_string(), "10.0.0.5".to_string()))
    );
    assert_eq!(
        get_matching_record(&store, &name("api.main.prod.internal")),
        Err(Error::InvalidZone(name("api.main.prod.internal")))
    );
}

#[test]
fn a_stored_value_that_is_no_address_is_a_zone_error() {
    let mut handler = DNSHandler::from_options(&Options::default());
    let mut store = RecordStore::new(handler.root_zone().clone());
    let record = store.put("prod", "main", "web", "A", "not-an-address").unwrap();
    assert_eq!(
        handler.do_handle_request(&store, &query("web.main.prod.internal.")),
        Err(Error::InvalidZone(name("web.main.prod.internal.")))
    );
    assert_eq!(
        answer_record(Some(&record), &name("web.main.prod.internal.")),
        Err(Error::InvalidZone(name("web.main.prod.internal.")))
    );
    assert_eq!(
        answer_record(None, &name("web.main.prod.internal.")),
        Err(Error::InvalidZone(name("web.main.prod.internal.")))
    );
}

#[test]
fn a_deleted_deployment_no_longer_resolves() {
    let mut handler = DNSHandler::from_options(&Options::default());
    let mut store = RecordStore::new(handler.root_zone().clone());
    upsert_record(&mut store, "prod", "main", params("web", "10.0.0.5")).unwrap();
    upsert_record(&mut store, "prod", "main", params("api", "10.0.0.6")).unwrap();
    upsert_record(&mut store, "prod", "side", params("web", "10.0.0.7")).unwrap();
    assert_eq!(delete_deployment(&mut store, "prod", "main"), 2);
    for text in ["web.main.prod.internal.", "api.main.prod.internal.", "main.prod.internal."] {
        assert_eq!(
            handler.do_handle_request(&store, &query(text)),
            Err(Error::InvalidZone(name(text)))
        );
    }
    assert_eq!(
        handler.do_handle_request(&store, &query("web.side.prod.internal.")),
        Ok(address("web.side.prod.internal.", [10, 0, 0, 7]))
    );
    assert_eq!(delete_deployment(&mut store, "prod", "main"), 0);
    assert_eq!(delete_deployment(&mut store, "never", "there"), 0);
}

#[test]
fn a_second_upsert_shows_at_the_next_query() {
    let mut handler = DNSHandler::from_options(&Options::default());
    let mut store = RecordStore::new(handler.root_zone().clone());
    upsert_record(&mut store, "prod", "main", params("web", "10.0.0.5")).unwrap();
    assert_eq!(
        handler.do_handle_request(&store, &query("web.main.prod.internal.")),
        Ok(address("web.main.prod.internal.", [10, 0, 0, 5]))
    );
    upsert_record(&mut store, "prod", "main", params("web", "10.0.0.9")).unwrap();
    assert_eq!(
        handler.do_handle_request(&store, &query("web.main.prod.internal.")),
        Ok(address("web.main.prod.internal.", [10, 0, 0, 9]))
    );
    assert_eq!(store.len(), 1);
}

#[test]
fn a_store_of_another_zone_finds_nothing() {
    let mut handler = DNSHandler::from_options(&Options::default());
    let mut store = RecordStore::new(name("corp"));
    upsert_record(&mut store, "prod", "main", params("web", "10.0.0.5")).unwrap();
    assert_eq!(
        handler.do_handle_request(&store, &query("web.main.prod.internal.")),
        Err(Error::InvalidZone(name("web.main.prod.internal.")))
    );
}

#[test]
fn the_handler_knows_its_zones() {
    let handler = DNSHandler::from_options(&Options::default());
    assert_eq!(handler.root_zone(), &name("internal"));
    assert_eq!(handler.counter_zone(), &name("counter.internal"));
    assert_eq!(handler.myip_zone(), &name("myip.internal"));
    assert_eq!(handler.hello_zone(), &name("hello.internal"));
    assert_eq!(handler.counter(), 0);
    assert_eq!(handler.clone(), handler);
    let upper = handler_for("Internal.");
    assert_eq!(upper.root_zone(), &name("internal"));
}

#[test]
fn a_handler_is_not_made_from_a_domain_that_is_no_name() {
    for domain in ["a..b", "bad domain", &"a".repeat(64)] {
        let options = Options { domain: domain.to_string(), ..Options::default() };
        assert!(DNSHandler::try_from_options(&options).is_none(), "{domain}");
    }
    let a = "a".repeat(63);
    let long = format!("{a}.{a}.{a}.{}", "b".repeat(55));
    assert!(DomainName::parse(&long).is_some());
    let options = Options { domain: long, ..Options::default() };
    assert!(DNSHandler::try_from_options(&options).is_none());
    let fits = format!("{a}.{a}.{a}.{}", "b".repeat(54));
    let options = Options { domain: fits, ..Options::default() };
    assert!(DNSHandler::try_from_options(&options).is_some());
}

#[test]
fn the_options_have_their_defaults() {
    let options = Options::default();
    assert_eq!(options.udp, vec!["0.0.0.0:1053".to_string()]);
    assert!(options.tcp.is_empty());
    assert_eq!(options.admin_addr, "0.0.0.0:4500");
    assert_eq!(options.domain, "internal");
}

#[test]
fn every_error_is_a_server_failure() {
    let errors = [
        Error::InvalidOpCode(OpCode::Update),
        Error::InvalidMessageType(MessageType::Response),
        Error::InvalidZone(name("elsewhere")),
        Error::InvalidRecordType("TXT".to_string()),
    ];
    for e in errors {
        assert_eq!(response_code(&e), ResponseCode::ServFail);
        assert_eq!(
            respond(Err(e)),
            Response { authoritative: false, response_code: ResponseCode::ServFail, answers: vec![] }
        );
    }
    let answer = address("web.main.prod.internal", [10, 0, 0, 5]);
    assert_eq!(
        respond(Ok(answer.clone())),
        Response { authoritative: true, response_code: ResponseCode::NoError, answers: vec![answer] }
    );
    assert_eq!(ANSWER_TTL, 60);
}

#[test]
fn errors_say_what_was_refused() {
    assert_eq!(Error::InvalidOpCode(OpCode::Query).message(), "Invalid OpCode QUERY");
    assert_eq!(Error::InvalidOpCode(OpCode::Status).message(), "Invalid OpCode STATUS");
    assert_eq!(Error::InvalidOpCode(OpCode::Notify).message(), "Invalid OpCode NOTIFY");
    assert_eq!(Error::InvalidOpCode(OpCode::Update).message(), "Invalid OpCode UPDATE");
    assert_eq!(Error::InvalidMessageType(MessageType::Query).message(), "Invalid MessageType QUERY");
    assert_eq!(
        Error::InvalidMessageType(MessageType::Response).message(),
        "Invalid MessageType RESPONSE"
    );
    assert_eq!(
        Error::InvalidZone(name("Web.main.prod.external")).message(),
        "Invalid Zone web.main.prod.external."
    );
    assert_eq!(Error::InvalidZone(DomainName::root()).message(), "Invalid Zone .");
    assert_eq!(Error::InvalidRecordType("CNAME".to_string()).message(), "Invalid Record Type CNAME");
}
