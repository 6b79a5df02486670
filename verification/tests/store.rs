use arkdns::admin_handlers::{
    delete_deployment, get_deployment_records, upsert_record, AdminError, RecordUpsertParams,
};
use arkdns::models::{check_label, is_address_type, label_matches, same_label, Record};
use arkdns::name::DomainName;
use arkdns::store::RecordStore;

fn name(text: &str) -> DomainName {
    DomainName::parse(text).unwrap()
}

fn store() -> RecordStore {
    RecordStore::new(name("internal"))
}

fn params(app_name: &str, value: &str) -> RecordUpsertParams {
    RecordUpsertParams { app_name: app_name.to_string(), value: value.to_string() }
}

fn apps(records: &[Record]) -> Vec<String> {
    records.iter().map(|r| r.app_name.clone()).collect()
}

#[test]
fn a_new_store_is_empty() {
    let store = store();
    assert_eq!(store.len(), 0);
    assert_eq!(store.root(), &name("internal."));
    assert!(store.get_by_domain(&name("web.main.prod.internal")).is_none());
    assert!(store.list_by_stack_and_deployment("prod", "main").is_empty());
}

#[test]
fn put_stores_the_record_with_its_name_and_a_fresh_identifier() {
    let mut store = store();
    let first = store.put("prod", "main", "web", "A", "10.0.0.5").unwrap();
    assert_eq!(
        first,
        Record {
            guid: 1,
            stack_id: "prod".to_string(),
            deployment_name: "main".to_string(),
            app_name: "web".to_string(),
            record_type: "A".to_string(),
            domain_name: "web.main.prod.internal.".to_string(),
            value: "10.0.0.5".to_string(),
        }
    );
    let second = store.put("prod", "main", "api", "A", "10.0.0.6").unwrap();
    assert_eq!(second.guid, 2);
    assert_eq!(second.domain_name, "api.main.prod.internal.");
    assert_eq!(store.len(), 2);
    assert_eq!(store.get_by_domain(&name("web.main.prod.internal.")), Some(&first));
    assert_eq!(store.get_by_domain(&name("api.main.prod.internal.")), Some(&second));
}

#[test]
fn put_under_the_root_zone_ends_the_name_after_the_stack() {
    let mut store = RecordStore::new(DomainName::root());
    let record = store.put("prod", "main", "web", "A", "10.0.0.5").unwrap();
    assert_eq!(record.domain_name, "web.main.prod.");
    assert_eq!(store.get_by_domain(&name("web.main.prod.")), Some(&record));
}

#[test]
fn put_replaces_the_record_of_the_same_name() {
    let mut store = store();
    let old = store.put("prod", "main", "web", "A", "10.0.0.5").unwrap();
    let other = store.put("prod", "main", "api", "A", "10.0.0.6").unwrap();
    let new = store.put("Prod", "MAIN", "Web", "A", "10.0.0.7").unwrap();
    assert_eq!(old.guid, 1);
    assert_eq!(new.guid, 3);
    assert_eq!(new.domain_name, "Web.MAIN.Prod.internal.");
    assert_eq!(store.len(), 2);
    assert_eq!(store.get_by_domain(&name("web.main.prod.internal")), Some(&new));
    assert_eq!(store.get_by_domain(&name("api.main.prod.internal")), Some(&other));
}

#[test]
fn get_by_domain_wants_exactly_the_name_of_the_record() {
    let mut store = store();
    store.put("prod", "main", "web", "A", "10.0.0.5").unwrap();
    for text in [
        "main.prod.internal",
        "x.web.main.prod.internal",
        "web.main.prod",
        "web.main.prod.external",
        "web.main.prod.internal.internal",
        "web.main.dev.internal",
        "web.side.prod.internal",
        "internal",
        ".",
    ] {
        assert!(store.get_by_domain(&name(text)).is_none(), "{text}");
    }
    assert!(store.get_by_domain(&name("WEB.main.PROD.Internal")).is_some());
}

#[test]
fn put_refuses_what_is_no_label() {
    let mut store = store();
    let long = "a".repeat(64);
    for (stack, deployment, app) in [
        ("", "main", "web"),
        ("prod", "", "web"),
        ("prod", "main", ""),
        ("pr.od", "main", "web"),
        ("prod", "main.", "web"),
        ("prod", "main", ".web"),
        (long.as_str(), "main", "web"),
        ("prod", long.as_str(), "web"),
        ("prod", "main", long.as_str()),
    ] {
        let r = store.put(stack, deployment, app, "A", "10.0.0.5");
        assert_eq!(r, Err(AdminError::InvalidLabel), "{stack} {deployment} {app}");
    }
    assert_eq!(store.len(), 0);
    let fits = "a".repeat(63);
    assert!(store.put(&fits, "main", "web", "A", "10.0.0.5").is_ok());
}

#[test]
fn put_refuses_a_name_that_is_too_long() {
    let a = "a".repeat(63);
    let b = "b".repeat(63);
    let mut store = store();
    // 64 + 64 + (len + 1) + 9 <= 255 leaves 117 bytes, so a label of 63 fits
    assert!(store.put(&a, &b, &"c".repeat(63), "A", "10.0.0.5").is_ok());
    let root = DomainName::from_labels(vec![vec![b'r'; 63], vec![b's'; 30]]).unwrap();
    assert_eq!(root.len(), 95);
    let mut store = RecordStore::new(root);
    // 64 + 64 + (len + 1) + 95 <= 255 leaves room for a label of 31 bytes
    assert!(store.put(&a, &b, &"c".repeat(31), "A", "10.0.0.5").is_ok());
    let r = store.put(&a, &b, &"c".repeat(32), "A", "10.0.0.5");
    assert_eq!(r, Err(AdminError::NameTooLong));
    assert_eq!(store.len(), 1);
}

#[test]
fn put_refuses_when_no_identifier_is_left() {
    let mut store = RecordStore::with_first_guid(name("internal"), u32::MAX - 1);
    let last = store.put("prod", "main", "web", "A", "10.0.0.5").unwrap();
    assert_eq!(last.guid, u32::MAX - 1);
    let r = store.put("prod", "main", "api", "A", "10.0.0.6");
    assert_eq!(r, Err(AdminError::StoreFull));
    let r = store.put("prod", "main", "web", "A", "10.0.0.6");
    assert_eq!(r, Err(AdminError::StoreFull));
    assert_eq!(store.get_by_domain(&name("web.main.prod.internal")), Some(&last));
    assert_eq!(store.len(), 1);
}

#[test]
fn put_keeps_any_record_type_and_value() {
    let mut store = store();
    let record = store.put("prod", "main", "web", "CNAME", "elsewhere").unwrap();
    assert_eq!(record.record_type, "CNAME");
    assert_eq!(record.value, "elsewhere");
}

#[test]
fn list_gives_the_records_of_one_deployment_in_the_order_of_their_identifiers() {
    let mut store = store();
    store.put("prod", "main", "web", "A", "10.0.0.1").unwrap();
    store.put("prod", "side", "web", "A", "10.0.0.2").unwrap();
    store.put("prod", "main", "api", "A", "10.0.0.3").unwrap();
    store.put("dev", "main", "web", "A", "10.0.0.4").unwrap();
    store.put("PROD", "Main", "db", "A", "10.0.0.5").unwrap();
    store.put("prod", "main", "web", "A", "10.0.0.6").unwrap();
    let listed = store.list_by_stack_and_deployment("prod", "main");
    assert_eq!(apps(&listed), vec!["api", "db", "web"]);
    assert_eq!(listed.iter().map(|r| r.guid).collect::<Vec<_>>(), vec![3, 5, 6]);
    assert_eq!(listed[2].value, "10.0.0.6");
    assert_eq!(get_deployment_records(&store, "prod", "main"), listed);
    assert_eq!(apps(&get_deployment_records(&store, "Prod", "SIDE")), vec!["web"]);
    assert!(get_deployment_records(&store, "main", "prod").is_empty());
    assert!(get_deployment_records(&store, "prod", "none").is_empty());
}

#[test]
fn delete_removes_the_records_of_one_deployment() {
    let mut store = store();
    store.put("prod", "main", "web", "A", "10.0.0.1").unwrap();
    store.put("prod", "side", "web", "A", "10.0.0.2").unwrap();
    store.put("prod", "main", "api", "A", "10.0.0.3").unwrap();
    store.put("dev", "main", "web", "A", "10.0.0.4").unwrap();
    assert_eq!(store.delete_by_stack_and_deployment("Prod", "main"), 2);
    assert_eq!(store.len(), 2);
    assert!(store.get_by_domain(&name("web.main.prod.internal")).is_none());
    assert!(store.get_by_domain(&name("api.main.prod.internal")).is_none());
    assert!(store.get_by_domain(&name("web.side.prod.internal")).is_some());
    assert!(store.get_by_domain(&name("web.main.dev.internal")).is_some());
    assert!(store.list_by_stack_and_deployment("prod", "main").is_empty());
}

#[test]
fn delete_of_nothing_changes_nothing() {
    let mut store = store();
    assert_eq!(delete_deployment(&mut store, "prod", "main"), 0);
    store.put("prod", "main", "web", "A", "10.0.0.1").unwrap();
    assert_eq!(delete_deployment(&mut store, "prod", "other"), 0);
    assert_eq!(delete_deployment(&mut store, "", "a.b"), 0);
    assert_eq!(store.len(), 1);
    assert_eq!(delete_deployment(&mut store, "prod", "main"), 1);
    assert_eq!(delete_deployment(&mut store, "prod", "main"), 0);
    assert_eq!(store.len(), 0);
}

#[test]
fn identifiers_are_not_given_out_again_after_a_delete() {
    let mut store = store();
    assert_eq!(store.put("prod", "main", "web", "A", "10.0.0.1").unwrap().guid, 1);
    assert_eq!(delete_deployment(&mut store, "prod", "main"), 1);
    assert_eq!(store.put("prod", "main", "web", "A", "10.0.0.1").unwrap().guid, 2);
}

#[test]
fn upsert_stores_an_address_record() {
    let mut store = store();
    let record = upsert_record(&mut store, "prod", "main", params("web", "10.0.0.5")).unwrap();
    assert_eq!(record.record_type, "A");
    assert_eq!(record.value, "10.0.0.5");
    assert_eq!(record.stack_id, "prod");
    assert_eq!(record.deployment_name, "main");
    assert_eq!(record.app_name, "web");
    assert_eq!(record.domain_name, "web.main.prod.internal.");
    assert_eq!(store.get_by_domain(&name("web.main.prod.internal")), Some(&record));
}

#[test]
fn upsert_gives_each_error_for_its_input() {
    let mut store = RecordStore::with_first_guid(name("internal"), u32::MAX);
    let long = "a".repeat(63);
    assert_eq!(
        upsert_record(&mut store, "prod", "main", params("web", "10.0.0")),
        Err(AdminError::InvalidAddress)
    );
    assert_eq!(
        upsert_record(&mut store, "pr.od", "main", params("web", "10.0.0")),
        Err(AdminError::InvalidAddress)
    );
    assert_eq!(
        upsert_record(&mut store, "pr.od", "main", params("web", "10.0.0.5")),
        Err(AdminError::InvalidLabel)
    );
    let mut deep = RecordStore::new(DomainName::from_labels(vec![vec![b'r'; 63], vec![b's'; 30]]).unwrap());
    assert_eq!(
        upsert_record(&mut deep, &long, &long, params(&long, "10.0.0.5")),
        Err(AdminError::NameTooLong)
    );
    assert_eq!(
        upsert_record(&mut store, "prod", "main", params("web", "10.0.0.5")),
        Err(AdminError::StoreFull)
    );
}

#[test]
fn labels_are_told_and_matched_by_their_bytes() {
    assert!(check_label("web"));
    assert!(check_label("my app"));
    assert!(check_label("é"));
    assert!(!check_label(""));
    assert!(!check_label("a.b"));
    assert!(check_label(&"é".repeat(31)));
    assert!(!check_label(&"é".repeat(32)));
    assert!(label_matches("Web", b"web"));
    assert!(!label_matches("Web", b"Web"));
    assert!(!label_matches("web", b"we"));
    assert!(same_label("PROD", "prod"));
    assert!(!same_label("prod", "prod1"));
    assert!(!same_label("É", "é"));
    assert!(is_address_type("A"));
    assert!(!is_address_type("a"));
    assert!(!is_address_type("AAAA"));
    assert!(!is_address_type(""));
}

#[test]
fn a_record_is_copied_with_all_its_fields() {
    let mut store = store();
    let record = store.put("prod", "main", "web", "A", "10.0.0.5").unwrap();
    assert_eq!(record.clone(), record);
}
