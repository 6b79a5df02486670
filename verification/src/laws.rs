//! What holds of the resolver and the store together, proved from the
//! contracts of their operations.

use crate::address::{address_of, ipv4_text, is_ipv4_text};
use crate::admin_handlers::upsert_error;
use crate::decimal::{decimal, lemma_decimal_value};
use crate::dns_handler::{
    count_answer, counter_label, lemma_zone_under, next_count, request_error, resolve, response_of,
    zone_kind, zone_under, ErrorView, ZoneKind,
};
use crate::message::{
    AnswerView, MessageType, OpCode, RDataView, RecordType, ResponseCode, ANSWER_TTL,
};
use crate::models::{address_type, key_of, label_key, record_key, Record};
use crate::name::{is_name, zone_of};
use crate::store::{deployment_keys, in_deployment, lookup, lookup_key};
use vstd::prelude::*;

verus! {

/// The name of a mapping under a zone: the labels of app, deployment and
/// stack, then the labels of the zone.
pub open spec fn mapping_name(
    app_name: Seq<char>,
    deployment_name: Seq<char>,
    stack_id: Seq<char>,
    zone: Seq<Seq<u8>>,
) -> Seq<Seq<u8>> {
    key_of(app_name, deployment_name, stack_id) + zone
}

/// The name of a mapping lies in the zone, and its key is the key of the
/// mapping. It lies in the counter zone only where the stack is called
/// `counter`.
pub proof fn lemma_mapping_name(
    app_name: Seq<char>,
    deployment_name: Seq<char>,
    stack_id: Seq<char>,
    zone: Seq<Seq<u8>>,
)
    ensures
        zone_of(zone, mapping_name(app_name, deployment_name, stack_id, zone)),
        lookup_key(zone, mapping_name(app_name, deployment_name, stack_id, zone)) == Some(
            key_of(app_name, deployment_name, stack_id),
        ),
        zone_kind(mapping_name(app_name, deployment_name, stack_id, zone), zone) == (if label_key(
            stack_id,
        ) == counter_label() {
            ZoneKind::Counter
        } else {
            ZoneKind::ServiceDiscovery
        }),
{
    let key = key_of(app_name, deployment_name, stack_id);
    let name = key + zone;
    assert(name.subrange(name.len() - zone.len(), name.len() as int) =~= zone);
    assert(name.take(3) =~= key);
    lemma_zone_under(counter_label(), zone, name);
    assert(name[name.len() - zone.len() - 1] == key[2]);
}

/// A record that was upserted resolves: after an upsert of a value for an
/// app of a stack and deployment, a query for the name of the mapping is
/// answered with an address record of that name, with a time to live of 60
/// seconds, whose address is the one that the value is the text of; and the
/// response is authoritative, without error, and carries that one answer.
/// This holds whatever the store held before and wherever the counter
/// stands. The stack must not be called `counter`: such names belong to
/// the counter zone.
pub proof fn law_upserted_record_resolves(
    root: Seq<Seq<u8>>,
    count: u64,
    contents: Map<Seq<Seq<u8>>, Record>,
    next_guid: u32,
    stack_id: Seq<char>,
    deployment_name: Seq<char>,
    app_name: Seq<char>,
    value: Seq<char>,
    stored: Record,
)
    requires
        is_name(root),
        upsert_error(root, next_guid, stack_id, deployment_name, app_name, value) is None,
        stored.stack_id@ == stack_id,
        stored.deployment_name@ == deployment_name,
        stored.app_name@ == app_name,
        stored.record_type@ == address_type(),
        stored.value@ == value,
        label_key(stack_id) != counter_label(),
    ensures
        ({
            let name = mapping_name(app_name, deployment_name, stack_id, root);
            let answer = AnswerView {
                name,
                record_type: RecordType::A,
                ttl: 60,
                rdata: RDataView::A(address_of(value)),
            };
            let outcome = resolve(
                root,
                count,
                root,
                contents.insert(record_key(stored), stored),
                OpCode::Query,
                MessageType::Query,
                name,
            );
            &&& outcome == Ok::<AnswerView, ErrorView>(answer)
            &&& ipv4_text(address_of(value)) == value
            &&& response_of(outcome).authoritative
            &&& response_of(outcome).response_code == ResponseCode::NoError
            &&& response_of(outcome).answers == seq![answer]
        }),
{
    lemma_mapping_name(app_name, deployment_name, stack_id, root);
    assert(record_key(stored) == key_of(app_name, deployment_name, stack_id));
}

/// A name outside the root domain is a zone error: a query for a name that
/// is neither the root domain nor below it is answered with a zone error
/// for that name, and the response is a server failure without an answer.
/// Such a name is not in the counter zone either.
pub proof fn law_name_outside_root_fails(
    root: Seq<Seq<u8>>,
    count: u64,
    store_zone: Seq<Seq<u8>>,
    contents: Map<Seq<Seq<u8>>, Record>,
    name: Seq<Seq<u8>>,
)
    requires
        !zone_of(root, name),
    ensures
        ({
            let outcome = resolve(
                root,
                count,
                store_zone,
                contents,
                OpCode::Query,
                MessageType::Query,
                name,
            );
            &&& zone_kind(name, root) == ZoneKind::Unrecognized
            &&& outcome == Err::<AnswerView, ErrorView>(ErrorView::InvalidZone(name))
            &&& !response_of(outcome).authoritative
            &&& response_of(outcome).response_code == ResponseCode::ServFail
            &&& response_of(outcome).answers == Seq::<AnswerView>::empty()
        }),
{
    lemma_zone_under(counter_label(), root, name);
}

/// Every error is a server failure: whatever is asked, a response either
/// carries exactly one answer, authoritative and without error, or is a
/// server failure that carries none.
pub proof fn law_errors_are_server_failures(
    root: Seq<Seq<u8>>,
    count: u64,
    store_zone: Seq<Seq<u8>>,
    contents: Map<Seq<Seq<u8>>, Record>,
    op_code: OpCode,
    message_type: MessageType,
    name: Seq<Seq<u8>>,
)
    ensures
        ({
            let outcome = resolve(root, count, store_zone, contents, op_code, message_type, name);
            let response = response_of(outcome);
            &&& outcome is Ok ==> response.authoritative && response.response_code
                == ResponseCode::NoError && response.answers.len() == 1 && response.answers[0].ttl
                == ANSWER_TTL && response.answers[0].name == name
            &&& outcome is Err ==> !response.authoritative && response.response_code
                == ResponseCode::ServFail && response.answers.len() == 0
            &&& request_error(op_code, message_type) is Some ==> outcome is Err
        }),
{
}

/// The counter only goes up: a query in the counter zone is answered with
/// the text of the value one above the value given out before, and the
/// query after it with the text of the value one above that. The two texts
/// differ. This holds until the counter has reached the largest value
/// that it can hold.
pub proof fn law_counter_increases(
    root: Seq<Seq<u8>>,
    count: u64,
    store_zone: Seq<Seq<u8>>,
    contents: Map<Seq<Seq<u8>>, Record>,
    first: Seq<Seq<u8>>,
    second: Seq<Seq<u8>>,
)
    requires
        zone_of(zone_under(counter_label(), root), first),
        zone_of(zone_under(counter_label(), root), second),
        count < u64::MAX - 1,
    ensures
        resolve(
            root,
            count,
            store_zone,
            contents,
            OpCode::Query,
            MessageType::Query,
            first,
        ) == Ok::<AnswerView, ErrorView>(count_answer(first, (count + 1) as u64)),
        resolve(
            root,
            next_count(count),
            store_zone,
            contents,
            OpCode::Query,
            MessageType::Query,
            second,
        ) == Ok::<AnswerView, ErrorView>(count_answer(second, (count + 2) as u64)),
        count < next_count(count) < next_count(next_count(count)),
        count_answer(first, (count + 1) as u64).rdata != count_answer(
            second,
            (count + 2) as u64,
        ).rdata,
{
    law_counts_have_their_own_text((count + 1) as u64, (count + 2) as u64);
}

/// No two values of the counter have the same text, so two requests that
/// took different values get different answers.
pub proof fn law_counts_have_their_own_text(a: u64, b: u64)
    requires
        a != b,
    ensures
        decimal(a as nat) != decimal(b as nat),
        forall|name: Seq<Seq<u8>>, other: Seq<Seq<u8>>|
            (#[trigger] count_answer(name, a)).rdata != (#[trigger] count_answer(other, b)).rdata,
{
    lemma_decimal_value(a as nat);
    lemma_decimal_value(b as nat);
}

/// A deleted deployment is gone: after the records of a stack and
/// deployment were deleted, the store holds no record of them, and a query
/// for any name at or below the deployment is answered with a zone error.
/// The stack must not be called `counter`: such names belong to the
/// counter zone.
pub proof fn law_deleted_deployment_is_gone(
    root: Seq<Seq<u8>>,
    count: u64,
    contents: Map<Seq<Seq<u8>>, Record>,
    stack_id: Seq<char>,
    deployment_name: Seq<char>,
    name: Seq<Seq<u8>>,
)
    requires
        zone_of(seq![label_key(deployment_name), label_key(stack_id)] + root, name),
        label_key(stack_id) != counter_label(),
    ensures
        ({
            let after = contents.remove_keys(deployment_keys(stack_id, deployment_name));
            &&& forall|k: Seq<Seq<u8>>|
                in_deployment(k, stack_id, deployment_name) ==> !#[trigger] after.contains_key(k)
            &&& lookup(root, after, name) is None
            &&& resolve(root, count, root, after, OpCode::Query, MessageType::Query, name) == Err::<
                AnswerView,
                ErrorView,
            >(ErrorView::InvalidZone(name))
        }),
{
    let stack = label_key(stack_id);
    let deployment = label_key(deployment_name);
    let zone = seq![deployment, stack] + root;
    let after = contents.remove_keys(deployment_keys(stack_id, deployment_name));
    let m = name.len() as int;
    let n = root.len() as int;
    let tail = name.subrange(m - n - 2, m);
    assert(tail == zone);
    assert(name[m - n - 2] == deployment) by {
        assert(tail[0] == zone[0]);
    }
    assert(name[m - n - 1] == stack) by {
        assert(tail[1] == zone[1]);
    }
    assert(name.subrange(m - n, m) =~= root) by {
        assert forall|i: int| 0 <= i < n implies name.subrange(m - n, m)[i] == root[i] by {
            assert(tail[i + 2] == zone[i + 2]);
        }
    }
    lemma_zone_under(counter_label(), root, name);
    if lookup_key(root, name) is Some {
        let k = name.take(3);
        assert(k[1] == name[1] && k[2] == name[2]);
        assert(in_deployment(k, stack_id, deployment_name));
        assert(deployment_keys(stack_id, deployment_name).contains(k));
    }
}

/// Deleting where there is nothing to delete changes nothing, so deleting
/// a deployment twice leaves the store as deleting it once.
pub proof fn law_delete_is_idempotent(
    contents: Map<Seq<Seq<u8>>, Record>,
    stack_id: Seq<char>,
    deployment_name: Seq<char>,
)
    ensures
        ({
            let keys = deployment_keys(stack_id, deployment_name);
            &&& contents.remove_keys(keys).remove_keys(keys) == contents.remove_keys(keys)
            &&& contents.remove_keys(keys).dom().intersect(keys).len() == 0
            &&& contents.dom().intersect(keys).len() == 0 && contents.dom().finite()
                ==> contents.remove_keys(keys) == contents
        }),
{
    let keys = deployment_keys(stack_id, deployment_name);
    let once = contents.remove_keys(keys);
    assert(once.remove_keys(keys) =~= once);
    assert(once.dom().intersect(keys) =~= Set::<Seq<Seq<u8>>>::empty());
    if contents.dom().intersect(keys).len() == 0 && contents.dom().finite() {
        let common = contents.dom().intersect(keys);
        vstd::set_lib::lemma_len_intersect::<Seq<Seq<u8>>>(contents.dom(), keys);
        assert(common.finite());
        assert(common =~= Set::<Seq<Seq<u8>>>::empty()) by {
            if common.len() == 0 && !(common =~= Set::<Seq<Seq<u8>>>::empty()) {
                let x = choose|x: Seq<Seq<u8>>| common.contains(x);
                assert(common.contains(x));
                vstd::set_lib::lemma_set_empty_equivalency_len(common);
            }
        }
        assert(once =~= contents) by {
            assert forall|k: Seq<Seq<u8>>| contents.contains_key(k) implies !keys.contains(k) by {
                if keys.contains(k) {
                    assert(common.contains(k));
                }
            }
        }
    }
}

/// An upsert replaces: after a second upsert for the same app, deployment
/// and stack, whatever their case, the store holds only the second record
/// under their key, and a query for the name of the mapping is answered
/// with the address of the second value.
pub proof fn law_upsert_replaces(
    root: Seq<Seq<u8>>,
    count: u64,
    contents: Map<Seq<Seq<u8>>, Record>,
    earlier: Record,
    later: Record,
)
    requires
        is_name(root),
        record_key(earlier) == record_key(later),
        later.record_type@ == address_type(),
        is_ipv4_text(later.value@),
        label_key(later.stack_id@) != counter_label(),
    ensures
        ({
            let key = record_key(later);
            let after = contents.insert(record_key(earlier), earlier).insert(key, later);
            let name = mapping_name(later.app_name@, later.deployment_name@, later.stack_id@, root);
            &&& after == contents.insert(key, later)
            &&& lookup(root, after, name) == Some(later)
            &&& resolve(root, count, root, after, OpCode::Query, MessageType::Query, name) == Ok::<
                AnswerView,
                ErrorView,
            >(
                AnswerView {
                    name,
                    record_type: RecordType::A,
                    ttl: 60,
                    rdata: RDataView::A(address_of(later.value@)),
                },
            )
        }),
{
    let key = record_key(later);
    let after = contents.insert(record_key(earlier), earlier).insert(key, later);
    assert(after =~= contents.insert(key, later));
    lemma_mapping_name(later.app_name@, later.deployment_name@, later.stack_id@, root);
}

/// A record is found under one name only: the name of its mapping. A
/// query for another name never finds it.
pub proof fn law_lookup_goes_by_key(
    zone: Seq<Seq<u8>>,
    contents: Map<Seq<Seq<u8>>, Record>,
    name: Seq<Seq<u8>>,
)
    requires
        forall|k: Seq<Seq<u8>>| #[trigger]
            contents.contains_key(k) ==> record_key(contents[k]) == k,
    ensures
        lookup(zone, contents, name) matches Some(record) ==> name == record_key(record) + zone,
{
    if lookup(zone, contents, name) is Some {
        let k = name.take(3);
        let m = name.len() as int;
        assert(name.subrange(m - zone.len(), m) == zone);
        assert(name =~= k + zone) by {
            assert forall|i: int| 3 <= i < m implies name[i] == (k + zone)[i] by {
                assert(name.subrange(m - zone.len(), m)[i - 3] == zone[i - 3]);
            }
        }
    }
}

} // verus!
