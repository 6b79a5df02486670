//! The administrative operations on the record store.

use crate::address::{is_ipv4_text, parse_ipv4};
use crate::models::{address_type, domain_text, record_key, Record};
use crate::store::{
    ascending_guids, deployment_keys, in_deployment, put_error, RecordStore,
};
use vstd::prelude::*;

verus! {

/// Why an administrative write was refused.
#[derive(Clone, Copy, Debug, PartialEq, Eq)]
pub enum AdminError {
    /// The value is not a dotted-quad address.
    InvalidAddress,
    /// Stack, deployment or app cannot be one label of a name.
    InvalidLabel,
    /// The name of the record would be longer than a name can be.
    NameTooLong,
    /// The store has given out every identifier.
    StoreFull,
}

/// What an upsert is given besides the stack and the deployment.
#[derive(Debug, PartialEq, Eq)]
pub struct RecordUpsertParams {
    pub app_name: String,
    pub value: String,
}

/// Why an upsert is refused, if it is: the value must be a dotted-quad
/// address, and the store must take the record.
pub open spec fn upsert_error(
    zone: Seq<Seq<u8>>,
    next_guid: u32,
    stack_id: Seq<char>,
    deployment_name: Seq<char>,
    app_name: Seq<char>,
    value: Seq<char>,
) -> Option<AdminError> {
    if !is_ipv4_text(value) {
        Some(AdminError::InvalidAddress)
    } else {
        put_error(zone, next_guid, app_name, deployment_name, stack_id)
    }
}

/// The records of a stack and deployment, in the order of their
/// identifiers.
pub fn get_deployment_records(store: &RecordStore, stack_id: &str, deployment_name: &str) -> (r:
    Vec<Record>)
    ensures
        forall|i: int|
            0 <= i < r@.len() ==> {
                let k = record_key(#[trigger] r@[i]);
                &&& in_deployment(k, stack_id@, deployment_name@)
                &&& store.contents().contains_key(k)
                &&& store.contents()[k] == r@[i]
            },
        forall|k: Seq<Seq<u8>>|
            store.contents().contains_key(k) && in_deployment(k, stack_id@, deployment_name@)
                ==> r@.contains(#[trigger] store.contents()[k]),
        ascending_guids(r@),
{
    store.list_by_stack_and_deployment(stack_id, deployment_name)
}

/// Deletes the records of a stack and deployment, and says how many there
/// were. Deleting where there is nothing to delete changes nothing.
pub fn delete_deployment(store: &mut RecordStore, stack_id: &str, deployment_name: &str) -> (n:
    usize)
    ensures
        final(store).zone() == old(store).zone(),
        final(store).next_guid() == old(store).next_guid(),
        final(store).contents() == old(store).contents().remove_keys(
            deployment_keys(stack_id@, deployment_name@),
        ),
        n == old(store).contents().dom().intersect(
            deployment_keys(stack_id@, deployment_name@),
        ).len(),
{
    store.delete_by_stack_and_deployment(stack_id, deployment_name)
}

/// Stores an address record for an app of a stack and deployment, in place
/// of the record of the same name if there is one, and hands back the
/// stored record with its identifier and its domain name. Refused, with
/// the store unchanged, where the value is no dotted-quad address or the
/// store does not take the record.
pub fn upsert_record(
    store: &mut RecordStore,
    stack_id: &str,
    deployment_name: &str,
    record_params: RecordUpsertParams,
) -> (r: Result<Record, AdminError>)
    ensures
        final(store).zone() == old(store).zone(),
        match r {
            Ok(rec) => {
                &&& upsert_error(
                    old(store).zone(),
                    old(store).next_guid(),
                    stack_id@,
                    deployment_name@,
                    record_params.app_name@,
                    record_params.value@,
                ) is None
                &&& rec.guid == old(store).next_guid()
                &&& rec.stack_id@ == stack_id@
                &&& rec.deployment_name@ == deployment_name@
                &&& rec.app_name@ == record_params.app_name@
                &&& rec.record_type@ == address_type()
                &&& rec.value@ == record_params.value@
                &&& rec.domain_name@ == domain_text(
                    record_params.app_name@,
                    deployment_name@,
                    stack_id@,
                    old(store).zone(),
                )
                &&& final(store).contents() == old(store).contents().insert(record_key(rec), rec)
                &&& final(store).next_guid() == old(store).next_guid() + 1
            },
            Err(e) => {
                &&& upsert_error(
                    old(store).zone(),
                    old(store).next_guid(),
                    stack_id@,
                    deployment_name@,
                    record_params.app_name@,
                    record_params.value@,
                ) == Some(e)
                &&& final(store).contents() == old(store).contents()
                &&& final(store).next_guid() == old(store).next_guid()
            },
        },
{
    if parse_ipv4(record_params.value.as_str()).is_none() {
        return Err(AdminError::InvalidAddress);
    }
    proof {
        reveal_strlit("A");
        assert("A"@ =~= address_type());
    }
    store.put(
        stack_id,
        deployment_name,
        record_params.app_name.as_str(),
        "A",
        record_params.value.as_str(),
    )
}

} // verus!
