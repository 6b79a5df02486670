//! The record store: the mappings of one zone, at most one for each name.
//!
//! Mathematically a store is a map from keys to records, where the key of a
//! record is made of the labels of its app, deployment and stack. A record
//! is found by a name exactly when the name is its key followed by the
//! labels of the zone.

use crate::admin_handlers::AdminError;
use crate::models::{
    check_label, domain_text, is_label_text, key_of, label_key, label_matches, record_key,
    same_label, Record,
};
use crate::name::{
    is_name, label_fits, labels_fit, lemma_lower_bytes_is_lower, lemma_name_len_bounds_count,
    lemma_name_len_concat, name_len, zone_of, DomainName, MAX_NAME_LEN,
};
use vstd::prelude::*;
use vstd::string::StringExecFns;
use vstd::string::StringSliceAdditionalSpecFns;
use vstd::utf8::encode_utf8;

verus! {

/// Some record has the key `k`.
pub open spec fn has_key(records: Seq<Record>, k: Seq<Seq<u8>>) -> bool {
    exists|i: int| 0 <= i < records.len() && record_key(#[trigger] records[i]) == k
}

/// Where the record with the key `k` stands.
pub open spec fn index_of(records: Seq<Record>, k: Seq<Seq<u8>>) -> int {
    choose|i: int| 0 <= i < records.len() && record_key(#[trigger] records[i]) == k
}

/// No two records have the same key.
pub open spec fn distinct_keys(records: Seq<Record>) -> bool {
    forall|i: int, j: int|
        0 <= i < j < records.len() ==> record_key(#[trigger] records[i]) != record_key(
            #[trigger] records[j],
        )
}

/// The records stand in the order of their identifiers.
pub open spec fn ascending_guids(records: Seq<Record>) -> bool {
    forall|i: int, j: int|
        0 <= i < j < records.len() ==> (#[trigger] records[i]).guid < (#[trigger] records[j]).guid
}

/// The map that a run of records with distinct keys stands for.
pub open spec fn contents_of(records: Seq<Record>) -> Map<Seq<Seq<u8>>, Record> {
    Map::new(|k: Seq<Seq<u8>>| has_key(records, k), |k: Seq<Seq<u8>>| records[index_of(records, k)])
}

/// A record is one of a store of the zone: stack, deployment and app are
/// labels, the name they form under the zone fits, and the domain name is
/// the text of that name.
pub open spec fn record_ok(r: Record, zone: Seq<Seq<u8>>) -> bool {
    &&& is_label_text(r.app_name@)
    &&& is_label_text(r.deployment_name@)
    &&& is_label_text(r.stack_id@)
    &&& labels_fit(record_key(r) + zone)
    &&& r.domain_name@ == domain_text(r.app_name@, r.deployment_name@, r.stack_id@, zone)
}

/// What holds of the contents of every store: each record stands under its
/// own key and is one of the zone, identifiers are below the next one to
/// be given out, and no identifier occurs twice.
pub open spec fn contents_ok(
    zone: Seq<Seq<u8>>,
    contents: Map<Seq<Seq<u8>>, Record>,
    next_guid: u32,
) -> bool {
    &&& is_name(zone)
    &&& forall|k: Seq<Seq<u8>>| #[trigger]
        contents.contains_key(k) ==> record_key(contents[k]) == k && record_ok(contents[k], zone)
            && contents[k].guid < next_guid
    &&& forall|k: Seq<Seq<u8>>, l: Seq<Seq<u8>>|
        #![trigger contents.contains_key(k), contents.contains_key(l)]
        contents.contains_key(k) && contents.contains_key(l) && k != l ==> contents[k].guid
            != contents[l].guid
}

/// The key that a name has in a store of the zone: the three labels in
/// front of the zone's, where the name has just these.
pub open spec fn lookup_key(zone: Seq<Seq<u8>>, name: Seq<Seq<u8>>) -> Option<Seq<Seq<u8>>> {
    if zone_of(zone, name) && name.len() == zone.len() + 3 {
        Some(name.take(3))
    } else {
        None
    }
}

/// The record that a name finds.
pub open spec fn lookup(
    zone: Seq<Seq<u8>>,
    contents: Map<Seq<Seq<u8>>, Record>,
    name: Seq<Seq<u8>>,
) -> Option<Record> {
    match lookup_key(zone, name) {
        Some(k) => if contents.contains_key(k) {
            Some(contents[k])
        } else {
            None
        },
        None => None,
    }
}

/// The key belongs to the stack and the deployment.
pub open spec fn in_deployment(
    k: Seq<Seq<u8>>,
    stack_id: Seq<char>,
    deployment_name: Seq<char>,
) -> bool {
    &&& k.len() == 3
    &&& k[1] == label_key(deployment_name)
    &&& k[2] == label_key(stack_id)
}

/// The keys of a stack and deployment.
pub open spec fn deployment_keys(stack_id: Seq<char>, deployment_name: Seq<char>) -> Set<
    Seq<Seq<u8>>,
> {
    Set::new(|k: Seq<Seq<u8>>| in_deployment(k, stack_id, deployment_name))
}

/// Why a put is refused, if it is.
pub open spec fn put_error(
    zone: Seq<Seq<u8>>,
    next_guid: u32,
    app_name: Seq<char>,
    deployment_name: Seq<char>,
    stack_id: Seq<char>,
) -> Option<AdminError> {
    if !(is_label_text(app_name) && is_label_text(deployment_name) && is_label_text(stack_id)) {
        Some(AdminError::InvalidLabel)
    } else if !labels_fit(key_of(app_name, deployment_name, stack_id) + zone) {
        Some(AdminError::NameTooLong)
    } else if next_guid == u32::MAX {
        Some(AdminError::StoreFull)
    } else {
        None
    }
}

/// The keys among the records that belong to the stack and deployment.
pub open spec fn matched_keys(
    records: Seq<Record>,
    stack_id: Seq<char>,
    deployment_name: Seq<char>,
) -> Set<Seq<Seq<u8>>> {
    Set::new(
        |k: Seq<Seq<u8>>| has_key(records, k) && in_deployment(k, stack_id, deployment_name),
    )
}

/// A record with distinct keys around it stands in the map under its key.
pub proof fn lemma_contents_at(records: Seq<Record>, i: int)
    requires
        distinct_keys(records),
        0 <= i < records.len(),
    ensures
        contents_of(records).contains_key(record_key(records[i])),
        contents_of(records)[record_key(records[i])] == records[i],
{
    let k = record_key(records[i]);
    assert(has_key(records, k));
    let j = index_of(records, k);
    assert(record_key(records[j]) == k);
    if j < i {
        assert(record_key(records[j]) != record_key(records[i]));
    } else if i < j {
        assert(record_key(records[i]) != record_key(records[j]));
    }
}

/// A map that holds just the records, each under its key, is the map that
/// the records stand for.
pub proof fn lemma_contents_are(records: Seq<Record>, m: Map<Seq<Seq<u8>>, Record>)
    requires
        distinct_keys(records),
        forall|i: int|
            0 <= i < records.len() ==> {
                let k = record_key(#[trigger] records[i]);
                m.contains_key(k) && m[k] == records[i]
            },
        forall|k: Seq<Seq<u8>>| #[trigger] m.contains_key(k) ==> has_key(records, k),
    ensures
        contents_of(records) == m,
{
    let c = contents_of(records);
    assert forall|k: Seq<Seq<u8>>| c.contains_key(k) <==> m.contains_key(k) by {
        if c.contains_key(k) {
            let i = index_of(records, k);
            assert(m.contains_key(record_key(records[i])));
        }
    }
    assert forall|k: Seq<Seq<u8>>| c.contains_key(k) implies c[k] == m[k] by {
        let i = index_of(records, k);
        assert(m[record_key(records[i])] == records[i]);
    }
    assert(c =~= m);
}

/// The keys of the records are a finite set, so the keys among them that
/// belong to a deployment can be counted.
pub proof fn lemma_matched_keys_finite(
    records: Seq<Record>,
    stack_id: Seq<char>,
    deployment_name: Seq<char>,
)
    ensures
        matched_keys(records, stack_id, deployment_name).finite(),
        records.len() == 0 ==> matched_keys(records, stack_id, deployment_name).len() == 0,
    decreases records.len(),
{
    let all = matched_keys(records, stack_id, deployment_name);
    if records.len() == 0 {
        assert(all =~= Set::<Seq<Seq<u8>>>::empty());
    } else {
        let front = records.drop_last();
        let k = record_key(records.last());
        lemma_matched_keys_finite(front, stack_id, deployment_name);
        let sub = matched_keys(front, stack_id, deployment_name);
        assert forall|x: Seq<Seq<u8>>| has_key(records, x) <==> (has_key(front, x) || x == k) by {
            if has_key(records, x) {
                let i = index_of(records, x);
                if i < front.len() {
                    assert(record_key(front[i]) == x);
                }
            }
            if has_key(front, x) {
                let i = index_of(front, x);
                assert(record_key(records[i]) == x);
            }
            if x == k {
                assert(record_key(records[records.len() - 1]) == x);
            }
        }
        if in_deployment(k, stack_id, deployment_name) {
            assert(all =~= sub.insert(k));
        } else {
            assert(all =~= sub);
        }
    }
}

/// One more record adds its key to the keys of a deployment if it belongs
/// to it, and changes nothing if not.
pub proof fn lemma_matched_keys_step(
    records: Seq<Record>,
    i: int,
    stack_id: Seq<char>,
    deployment_name: Seq<char>,
)
    requires
        distinct_keys(records),
        0 <= i < records.len(),
    ensures
        matched_keys(records.take(i + 1), stack_id, deployment_name).len() == matched_keys(
            records.take(i),
            stack_id,
            deployment_name,
        ).len() + (if in_deployment(record_key(records[i]), stack_id, deployment_name) {
            1nat
        } else {
            0nat
        }),
{
    let front = records.take(i);
    let more = records.take(i + 1);
    let k = record_key(records[i]);
    let sub = matched_keys(front, stack_id, deployment_name);
    let all = matched_keys(more, stack_id, deployment_name);
    lemma_matched_keys_finite(front, stack_id, deployment_name);
    assert forall|x: Seq<Seq<u8>>| has_key(more, x) <==> (has_key(front, x) || x == k) by {
        if has_key(more, x) {
            let j = index_of(more, x);
            if j < i {
                assert(record_key(front[j]) == x);
            }
        }
        if has_key(front, x) {
            let j = index_of(front, x);
            assert(record_key(more[j]) == x);
        }
        if x == k {
            assert(record_key(more[i]) == x);
        }
    }
    assert(!has_key(front, k)) by {
        if has_key(front, k) {
            let j = index_of(front, k);
            assert(record_key(records[j]) == k);
            assert(record_key(records[j]) != record_key(records[i]));
        }
    }
    if in_deployment(k, stack_id, deployment_name) {
        assert(all =~= sub.insert(k));
        assert(!sub.contains(k));
    } else {
        assert(all =~= sub);
    }
}

/// The record store of one zone.
#[derive(Debug)]
pub struct RecordStore {
    root: DomainName,
    records: Vec<Record>,
    next_guid: u32,
}

impl RecordStore {
    /// The labels of the zone whose mappings the store holds.
    pub closed spec fn zone(&self) -> Seq<Seq<u8>> {
        self.root@
    }

    /// What the store holds: the records by their keys.
    pub closed spec fn contents(&self) -> Map<Seq<Seq<u8>>, Record> {
        contents_of(self.records@)
    }

    /// The identifier that the next record gets.
    pub closed spec fn next_guid(&self) -> u32 {
        self.next_guid
    }

    /// What holds of every store.
    #[verifier::type_invariant]
    pub closed spec fn wf(&self) -> bool {
        &&& is_name(self.root@)
        &&& distinct_keys(self.records@)
        &&& ascending_guids(self.records@)
        &&& forall|i: int|
            0 <= i < self.records@.len() ==> record_ok(#[trigger] self.records@[i], self.root@)
                && self.records@[i].guid < self.next_guid
    }

    /// The contents of a store are well formed.
    pub proof fn lemma_contents_ok(&self)
        requires
            self.wf(),
        ensures
            contents_ok(self.zone(), self.contents(), self.next_guid()),
            self.contents().dom().finite(),
    {
        let records = self.records@;
        let c = self.contents();
        assert forall|k: Seq<Seq<u8>>| #[trigger] c.contains_key(k) implies record_key(c[k]) == k
            && record_ok(c[k], self.zone()) && c[k].guid < self.next_guid() by {
            let i = index_of(records, k);
            assert(record_ok(records[i], self.root@));
        }
        assert forall|k: Seq<Seq<u8>>, l: Seq<Seq<u8>>|
            c.contains_key(k) && c.contains_key(l) && k != l implies c[k].guid != c[l].guid by {
            let i = index_of(records, k);
            let j = index_of(records, l);
            if i < j {
                assert(records[i].guid < records[j].guid);
            } else if j < i {
                assert(records[j].guid < records[i].guid);
            }
        }
        lemma_dom_finite(records);
    }

    /// An empty store for the zone `root`. The first record gets the
    /// identifier 1.
    pub fn new(root: DomainName) -> (r: RecordStore)
        ensures
            r.zone() == root@,
            r.contents() == Map::<Seq<Seq<u8>>, Record>::empty(),
            r.next_guid() == 1,
    {
        RecordStore::with_first_guid(root, 1)
    }

    /// An empty store for the zone `root` whose first record gets the
    /// identifier `first_guid`.
    pub fn with_first_guid(root: DomainName, first_guid: u32) -> (r: RecordStore)
        ensures
            r.zone() == root@,
            r.contents() == Map::<Seq<Seq<u8>>, Record>::empty(),
            r.next_guid() == first_guid,
    {
        proof {
            use_type_invariant(&root);
        }
        let records: Vec<Record> = Vec::new();
        assert(contents_of(records@) =~= Map::<Seq<Seq<u8>>, Record>::empty());
        RecordStore { root, records, next_guid: first_guid }
    }

    /// The zone whose mappings the store holds.
    pub fn root(&self) -> (r: &DomainName)
        ensures
            r@ == self.zone(),
    {
        &self.root
    }

    /// The number of records.
    pub fn len(&self) -> (n: usize)
        ensures
            n == self.contents().dom().len(),
    {
        proof {
            use_type_invariant(self);
            lemma_dom_len(self.records@);
        }
        self.records.len()
    }

    /// Stores a mapping under a fresh identifier, in place of the mapping
    /// with the same key if there is one, and hands back the stored record.
    /// Refused, with the store unchanged, where stack, deployment or app is
    /// no label, where the name would not fit, and where no identifier is
    /// left.
    pub fn put(
        &mut self,
        stack_id: &str,
        deployment_name: &str,
        app_name: &str,
        record_type: &str,
        value: &str,
    ) -> (r: Result<Record, AdminError>)
        ensures
            final(self).zone() == old(self).zone(),
            match r {
                Ok(rec) => {
                    &&& put_error(
                        old(self).zone(),
                        old(self).next_guid(),
                        app_name@,
                        deployment_name@,
                        stack_id@,
                    ) is None
                    &&& rec.guid == old(self).next_guid()
                    &&& rec.stack_id@ == stack_id@
                    &&& rec.deployment_name@ == deployment_name@
                    &&& rec.app_name@ == app_name@
                    &&& rec.record_type@ == record_type@
                    &&& rec.value@ == value@
                    &&& rec.domain_name@ == domain_text(
                        app_name@,
                        deployment_name@,
                        stack_id@,
                        old(self).zone(),
                    )
                    &&& final(self).contents() == old(self).contents().insert(record_key(rec), rec)
                    &&& final(self).next_guid() == old(self).next_guid() + 1
                },
                Err(e) => {
                    &&& put_error(
                        old(self).zone(),
                        old(self).next_guid(),
                        app_name@,
                        deployment_name@,
                        stack_id@,
                    ) == Some(e)
                    &&& final(self).contents() == old(self).contents()
                    &&& final(self).next_guid() == old(self).next_guid()
                },
            },
    {
        proof {
            use_type_invariant(&*self);
            use_type_invariant(&self.root);
        }
        if !(check_label(app_name) && check_label(deployment_name) && check_label(stack_id)) {
            return Err(AdminError::InvalidLabel);
        }
        let ghost key = key_of(app_name@, deployment_name@, stack_id@);
        let ghost zone = self.root@;
        proof {
            lemma_key_len(app_name@, deployment_name@, stack_id@);
            lemma_name_len_concat(key, zone);
            assert forall|i: int| 0 <= i < (key + zone).len() implies label_fits(
                #[trigger] (key + zone)[i],
            ) by {
                if i >= 3 {
                    assert((key + zone)[i] == zone[i - 3]);
                    assert(label_fits(zone[i - 3]));
                }
            }
        }
        let need = app_name.as_bytes().len() + deployment_name.as_bytes().len()
            + stack_id.as_bytes().len() + 3 + self.root.len();
        if need > MAX_NAME_LEN {
            return Err(AdminError::NameTooLong);
        }
        if self.next_guid == u32::MAX {
            return Err(AdminError::StoreFull);
        }
        let mut text = app_name.to_owned();
        text.push('.');
        text.append(deployment_name);
        text.push('.');
        text.append(stack_id);
        text.push('.');
        let zone_text = self.root.text();
        text.append(zone_text.as_str());
        assert(text@ =~= domain_text(app_name@, deployment_name@, stack_id@, zone));
        let rec = Record {
            guid: self.next_guid,
            stack_id: stack_id.to_owned(),
            deployment_name: deployment_name.to_owned(),
            app_name: app_name.to_owned(),
            record_type: record_type.to_owned(),
            domain_name: text,
            value: value.to_owned(),
        };
        assert(record_key(rec) == key);
        let mut records: Vec<Record> = Vec::new();
        std::mem::swap(&mut records, &mut self.records);
        let ghost before = records@;
        let mut i: usize = 0;
        while i < records.len()
            invariant
                i <= records.len(),
                records@ == before,
                rec.app_name@ == app_name@,
                rec.deployment_name@ == deployment_name@,
                rec.stack_id@ == stack_id@,
                key == key_of(app_name@, deployment_name@, stack_id@),
                forall|j: int| 0 <= j < i ==> record_key(#[trigger] before[j]) != record_key(rec),
            ensures
                i <= records.len(),
                records@ == before,
                i < records.len() ==> record_key(before[i as int]) == record_key(rec),
                forall|j: int| 0 <= j < i ==> record_key(#[trigger] before[j]) != record_key(rec),
            decreases records.len() - i,
        {
            let r = &records[i];
            if same_label(r.app_name.as_str(), app_name) && same_label(
                r.deployment_name.as_str(),
                deployment_name,
            ) && same_label(r.stack_id.as_str(), stack_id) {
                break ;
            }
            assert(record_key(before[i as int]) != record_key(rec)) by {
                let k = record_key(before[i as int]);
                assert(k[0] == label_key(r.app_name@));
                assert(k[1] == label_key(r.deployment_name@));
                assert(k[2] == label_key(r.stack_id@));
                assert(key[0] == label_key(app_name@));
                assert(key[1] == label_key(deployment_name@));
                assert(key[2] == label_key(stack_id@));
            }
            i += 1;
        }
        if i < records.len() {
            records.remove(i);
        }
        let ghost kept = records@;
        let stored = rec.clone();
        records.push(stored);
        proof {
            lemma_put(before, kept, rec, i as int, zone);
        }
        self.next_guid = self.next_guid + 1;
        self.records = records;
        Ok(rec)
    }

    /// The record of a name: the record whose key is made of the three
    /// labels that the name has in front of the labels of the zone.
    pub fn get_by_domain(&self, name: &DomainName) -> (r: Option<&Record>)
        ensures
            r is Some <==> lookup(self.zone(), self.contents(), name@) is Some,
            r matches Some(rec) ==> Some(*rec) == lookup(self.zone(), self.contents(), name@),
    {
        proof {
            use_type_invariant(self);
            use_type_invariant(&self.root);
            use_type_invariant(name);
        }
        proof {
            lemma_name_len_bounds_count(self.root@);
        }
        if name.label_count() != self.root.label_count() + 3 {
            return None;
        }
        if !self.root.zone_of(name) {
            return None;
        }
        let ghost k = name@.take(3);
        let mut i: usize = 0;
        while i < self.records.len()
            invariant
                i <= self.records.len(),
                name@.len() == self.root@.len() + 3,
                zone_of(self.root@, name@),
                k == name@.take(3),
                distinct_keys(self.records@),
                forall|j: int| 0 <= j < i ==> record_key(#[trigger] self.records@[j]) != k,
            decreases self.records.len() - i,
        {
            let r = &self.records[i];
            if label_matches(r.app_name.as_str(), name.label(0)) && label_matches(
                r.deployment_name.as_str(),
                name.label(1),
            ) && label_matches(r.stack_id.as_str(), name.label(2)) {
                proof {
                    assert(record_key(*r) =~= k);
                    lemma_contents_at(self.records@, i as int);
                }
                return Some(r);
            }
            assert(record_key(self.records@[i as int]) != k) by {
                let rk = record_key(self.records@[i as int]);
                assert(rk[0] == label_key(r.app_name@));
                assert(rk[1] == label_key(r.deployment_name@));
                assert(rk[2] == label_key(r.stack_id@));
            }
            i += 1;
        }
        assert(!has_key(self.records@, k));
        None
    }

    /// The records of a stack and deployment, in the order of their
    /// identifiers.
    pub fn list_by_stack_and_deployment(&self, stack_id: &str, deployment_name: &str) -> (r: Vec<
        Record,
    >)
        ensures
            forall|i: int|
                0 <= i < r@.len() ==> {
                    let k = record_key(#[trigger] r@[i]);
                    &&& in_deployment(k, stack_id@, deployment_name@)
                    &&& self.contents().contains_key(k)
                    &&& self.contents()[k] == r@[i]
                },
            forall|k: Seq<Seq<u8>>|
                self.contents().contains_key(k) && in_deployment(k, stack_id@, deployment_name@)
                    ==> r@.contains(#[trigger] self.contents()[k]),
            ascending_guids(r@),
    {
        proof {
            use_type_invariant(self);
        }
        let mut out: Vec<Record> = Vec::new();
        let ghost mut from: Seq<int> = Seq::empty();
        let mut i: usize = 0;
        while i < self.records.len()
            invariant
                i <= self.records.len(),
                distinct_keys(self.records@),
                ascending_guids(self.records@),
                from.len() == out@.len(),
                forall|j: int|
                    0 <= j < out@.len() ==> 0 <= #[trigger] from[j] < i && out@[j]
                        == self.records@[from[j]] && in_deployment(
                        record_key(out@[j]),
                        stack_id@,
                        deployment_name@,
                    ),
                forall|a: int, b: int| 0 <= a < b < from.len() ==> from[a] < from[b],
                forall|j: int|
                    0 <= j < i && in_deployment(
                        record_key(#[trigger] self.records@[j]),
                        stack_id@,
                        deployment_name@,
                    ) ==> out@.contains(self.records@[j]),
            decreases self.records.len() - i,
        {
            let r = &self.records[i];
            if same_label(r.deployment_name.as_str(), deployment_name) && same_label(
                r.stack_id.as_str(),
                stack_id,
            ) {
                let ghost prev = out@;
                out.push(r.clone());
                proof {
                    from = from.push(i as int);
                    assert(out@[out@.len() - 1] == self.records@[i as int]);
                    assert forall|j: int|
                        0 <= j < i + 1 && in_deployment(
                            record_key(#[trigger] self.records@[j]),
                            stack_id@,
                            deployment_name@,
                        ) implies out@.contains(self.records@[j]) by {
                        if j < i {
                            let at = choose|at: int|
                                0 <= at < prev.len() && prev[at] == self.records@[j];
                            assert(out@[at] == self.records@[j]);
                        }
                    }
                }
            }
            i += 1;
        }
        proof {
            assert forall|j: int| 0 <= j < out@.len() implies {
                let k = record_key(#[trigger] out@[j]);
                &&& in_deployment(k, stack_id@, deployment_name@)
                &&& self.contents().contains_key(k)
                &&& self.contents()[k] == out@[j]
            } by {
                assert(out@[j] == self.records@[from[j]]);
                lemma_contents_at(self.records@, from[j]);
            }
            assert forall|k: Seq<Seq<u8>>|
                self.contents().contains_key(k) && in_deployment(
                    k,
                    stack_id@,
                    deployment_name@,
                ) implies out@.contains(#[trigger] self.contents()[k]) by {
                let j = index_of(self.records@, k);
                assert(record_key(self.records@[j]) == k);
            }
            assert forall|a: int, b: int| 0 <= a < b < out@.len() implies (#[trigger] out@[a]).guid
                < (#[trigger] out@[b]).guid by {
                assert(from[a] < from[b]);
            }
        }
        out
    }

    /// Removes the records of a stack and deployment, and says how many
    /// there were. Where there is none the store is left as it is.
    pub fn delete_by_stack_and_deployment(&mut self, stack_id: &str, deployment_name: &str) -> (n:
        usize)
        ensures
            final(self).zone() == old(self).zone(),
            final(self).next_guid() == old(self).next_guid(),
            final(self).contents() == old(self).contents().remove_keys(
                deployment_keys(stack_id@, deployment_name@),
            ),
            n == old(self).contents().dom().intersect(
                deployment_keys(stack_id@, deployment_name@),
            ).len(),
    {
        proof {
            use_type_invariant(&*self);
        }
        let mut records: Vec<Record> = Vec::new();
        std::mem::swap(&mut records, &mut self.records);
        let ghost before = records@;
        let ghost zone = self.root@;
        let ghost next = self.next_guid;
        let mut kept: Vec<Record> = Vec::new();
        let ghost mut from: Seq<int> = Seq::empty();
        let mut removed: usize = 0;
        let mut i: usize = 0;
        proof {
            lemma_matched_keys_finite(before.take(0), stack_id@, deployment_name@);
        }
        while i < records.len()
            invariant
                i <= records.len(),
                records@ == before,
                distinct_keys(before),
                ascending_guids(before),
                removed <= i,
                removed == matched_keys(before.take(i as int), stack_id@, deployment_name@).len(),
                from.len() == kept@.len(),
                forall|j: int|
                    0 <= j < kept@.len() ==> 0 <= #[trigger] from[j] < i && kept@[j]
                        == before[from[j]] && !in_deployment(
                        record_key(kept@[j]),
                        stack_id@,
                        deployment_name@,
                    ),
                forall|a: int, b: int| 0 <= a < b < from.len() ==> from[a] < from[b],
                forall|j: int|
                    0 <= j < i && !in_deployment(
                        record_key(#[trigger] before[j]),
                        stack_id@,
                        deployment_name@,
                    ) ==> kept@.contains(before[j]),
            decreases records.len() - i,
        {
            let r = &records[i];
            proof {
                lemma_matched_keys_step(before, i as int, stack_id@, deployment_name@);
            }
            if same_label(r.deployment_name.as_str(), deployment_name) && same_label(
                r.stack_id.as_str(),
                stack_id,
            ) {
                removed = removed + 1;
            } else {
                let ghost prev = kept@;
                kept.push(r.clone());
                proof {
                    from = from.push(i as int);
                    assert(kept@[kept@.len() - 1] == before[i as int]);
                    assert forall|j: int|
                        0 <= j < i + 1 && !in_deployment(
                            record_key(#[trigger] before[j]),
                            stack_id@,
                            deployment_name@,
                        ) implies kept@.contains(before[j]) by {
                        if j < i {
                            let at = choose|at: int| 0 <= at < prev.len() && prev[at] == before[j];
                            assert(kept@[at] == before[j]);
                        }
                    }
                }
            }
            i += 1;
        }
        proof {
            let gone = deployment_keys(stack_id@, deployment_name@);
            let target = contents_of(before).remove_keys(gone);
            assert(before.take(i as int) =~= before);
            assert(matched_keys(before, stack_id@, deployment_name@) =~= contents_of(
                before,
            ).dom().intersect(gone));
            assert forall|a: int, b: int| 0 <= a < b < kept@.len() implies record_key(
                #[trigger] kept@[a],
            ) != record_key(#[trigger] kept@[b]) && kept@[a].guid < kept@[b].guid by {
                assert(from[a] < from[b]);
                assert(record_key(before[from[a]]) != record_key(before[from[b]]));
                assert(before[from[a]].guid < before[from[b]].guid);
            }
            assert forall|j: int| 0 <= j < kept@.len() implies target.contains_key(
                record_key(#[trigger] kept@[j]),
            ) && target[record_key(kept@[j])] == kept@[j] by {
                lemma_contents_at(before, from[j]);
            }
            assert forall|k: Seq<Seq<u8>>| #[trigger] target.contains_key(k) implies has_key(
                kept@,
                k,
            ) by {
                let j = index_of(before, k);
                assert(record_key(before[j]) == k);
                assert(kept@.contains(before[j]));
                let at = choose|at: int| 0 <= at < kept@.len() && kept@[at] == before[j];
                assert(record_key(kept@[at]) == k);
            }
            lemma_contents_are(kept@, target);
            assert forall|j: int| 0 <= j < kept@.len() implies record_ok(
                #[trigger] kept@[j],
                zone,
            ) && kept@[j].guid < next by {
                assert(record_ok(before[from[j]], zone));
            }
        }
        self.records = kept;
        removed
    }
}

/// The key of three label texts has three labels that fit, and the length
/// of their bytes and separators.
pub proof fn lemma_key_len(app_name: Seq<char>, deployment_name: Seq<char>, stack_id: Seq<char>)
    requires
        is_label_text(app_name),
        is_label_text(deployment_name),
        is_label_text(stack_id),
    ensures
        name_len(key_of(app_name, deployment_name, stack_id)) == encode_utf8(app_name).len()
            + encode_utf8(deployment_name).len() + encode_utf8(stack_id).len() + 3,
        forall|i: int|
            0 <= i < 3 ==> label_fits(#[trigger] key_of(app_name, deployment_name, stack_id)[i]),
{
    let key = key_of(app_name, deployment_name, stack_id);
    reveal_with_fuel(name_len, 4);
    lemma_lower_bytes_is_lower(encode_utf8(app_name));
    lemma_lower_bytes_is_lower(encode_utf8(deployment_name));
    lemma_lower_bytes_is_lower(encode_utf8(stack_id));
    assert(key.drop_last() =~= seq![label_key(app_name), label_key(deployment_name)]);
    assert(key.drop_last().drop_last() =~= seq![label_key(app_name)]);
    assert(key.drop_last().drop_last().drop_last() =~= Seq::<Seq<u8>>::empty());
}

/// The keys of the records are a finite set.
pub proof fn lemma_dom_finite(records: Seq<Record>)
    ensures
        contents_of(records).dom().finite(),
    decreases records.len(),
{
    let dom = contents_of(records).dom();
    if records.len() == 0 {
        assert(dom =~= Set::<Seq<Seq<u8>>>::empty());
    } else {
        let front = records.drop_last();
        let k = record_key(records.last());
        lemma_dom_finite(front);
        assert(dom =~= contents_of(front).dom().insert(k)) by {
            assert forall|x: Seq<Seq<u8>>| has_key(records, x) <==> (has_key(front, x) || x
                == k) by {
                if has_key(records, x) {
                    let i = index_of(records, x);
                    if i < front.len() {
                        assert(record_key(front[i]) == x);
                    }
                }
                if has_key(front, x) {
                    let i = index_of(front, x);
                    assert(record_key(records[i]) == x);
                }
                if x == k {
                    assert(record_key(records[records.len() - 1]) == x);
                }
            }
        }
    }
}

/// Records with distinct keys are as many as their keys.
pub proof fn lemma_dom_len(records: Seq<Record>)
    requires
        distinct_keys(records),
    ensures
        contents_of(records).dom().finite(),
        contents_of(records).dom().len() == records.len(),
    decreases records.len(),
{
    let dom = contents_of(records).dom();
    lemma_dom_finite(records);
    if records.len() == 0 {
        assert(dom =~= Set::<Seq<Seq<u8>>>::empty());
    } else {
        let front = records.drop_last();
        let k = record_key(records.last());
        assert(distinct_keys(front)) by {
            assert forall|i: int, j: int| 0 <= i < j < front.len() implies record_key(
                #[trigger] front[i],
            ) != record_key(#[trigger] front[j]) by {
                assert(record_key(records[i]) != record_key(records[j]));
            }
        }
        lemma_dom_len(front);
        assert forall|x: Seq<Seq<u8>>| has_key(records, x) <==> (has_key(front, x) || x == k) by {
            if has_key(records, x) {
                let i = index_of(records, x);
                if i < front.len() {
                    assert(record_key(front[i]) == x);
                }
            }
            if has_key(front, x) {
                let i = index_of(front, x);
                assert(record_key(records[i]) == x);
            }
            if x == k {
                assert(record_key(records[records.len() - 1]) == x);
            }
        }
        assert(!has_key(front, k)) by {
            if has_key(front, k) {
                let j = index_of(front, k);
                assert(record_key(records[j]) != record_key(records[records.len() - 1]));
            }
        }
        assert(dom =~= contents_of(front).dom().insert(k));
    }
}

/// Taking out the record with the key of a new record, if there is one,
/// and adding the new record at the end puts the new record under its key
/// and leaves the other keys alone.
proof fn lemma_put(
    before: Seq<Record>,
    kept: Seq<Record>,
    rec: Record,
    i: int,
    zone: Seq<Seq<u8>>,
)
    requires
        distinct_keys(before),
        ascending_guids(before),
        0 <= i <= before.len(),
        forall|j: int| 0 <= j < i ==> record_key(#[trigger] before[j]) != record_key(rec),
        i < before.len() ==> record_key(before[i]) == record_key(rec),
        kept == (if i < before.len() {
            before.remove(i)
        } else {
            before
        }),
        forall|j: int|
            0 <= j < before.len() ==> (#[trigger] before[j]).guid < rec.guid && record_ok(
                before[j],
                zone,
            ),
        record_ok(rec, zone),
    ensures
        distinct_keys(kept.push(rec)),
        ascending_guids(kept.push(rec)),
        contents_of(kept.push(rec)) == contents_of(before).insert(record_key(rec), rec),
        forall|j: int|
            0 <= j < kept.push(rec).len() ==> record_ok(#[trigger] kept.push(rec)[j], zone)
                && kept.push(rec)[j].guid <= rec.guid,
{
    let after = kept.push(rec);
    let from = |j: int|
        if i < before.len() && j >= i {
            j + 1
        } else {
            j
        };
    assert forall|j: int| 0 <= j < kept.len() implies 0 <= from(j) < before.len() && kept[j]
        == before[from(j)] && from(j) != i by {}
    assert forall|j: int| 0 <= j < kept.len() implies record_key(#[trigger] kept[j]) != record_key(
        rec,
    ) by {
        let b = from(j);
        if b < i {
        } else {
            if i < b {
                assert(record_key(before[i]) != record_key(before[b]));
            }
        }
    }
    assert forall|a: int, b: int| 0 <= a < b < after.len() implies record_key(#[trigger] after[a])
        != record_key(#[trigger] after[b]) && after[a].guid < after[b].guid by {
        if b < kept.len() {
            assert(from(a) < from(b));
            assert(record_key(before[from(a)]) != record_key(before[from(b)]));
            assert(before[from(a)].guid < before[from(b)].guid);
        } else {
            assert(after[a] == kept[a]);
            assert(before[from(a)].guid < rec.guid);
        }
    }
    let target = contents_of(before).insert(record_key(rec), rec);
    assert forall|j: int| 0 <= j < after.len() implies target.contains_key(
        record_key(#[trigger] after[j]),
    ) && target[record_key(after[j])] == after[j] by {
        if j < kept.len() {
            assert(after[j] == kept[j]);
            lemma_contents_at(before, from(j));
        }
    }
    assert forall|k: Seq<Seq<u8>>| #[trigger] target.contains_key(k) implies has_key(after, k) by {
        if k == record_key(rec) {
            assert(record_key(after[kept.len() as int]) == k);
        } else {
            let b = index_of(before, k);
            assert(record_key(before[b]) == k);
            assert(b != i);
            let j = if i < before.len() && b > i {
                b - 1
            } else {
                b
            };
            assert(kept[j] == before[b]);
            assert(record_key(after[j]) == k);
        }
    }
    lemma_contents_are(after, target);
    assert forall|j: int| 0 <= j < after.len() implies record_ok(#[trigger] after[j], zone)
        && after[j].guid <= rec.guid by {
        if j < kept.len() {
            assert(after[j] == kept[j]);
            assert(record_ok(before[from(j)], zone));
        }
    }
}

} // verus!
