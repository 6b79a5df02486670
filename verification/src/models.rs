//! The record: one mapping from a name in the service-discovery namespace
//! to a value.

use crate::name::{label_fits, labels_text, lower_byte, lower_bytes, to_lower_byte, MAX_LABEL_LEN};
use vstd::prelude::*;
use vstd::string::StringSliceAdditionalSpecFns;
use vstd::utf8::encode_utf8;

verus! {

/// One mapping of the namespace.
#[derive(Debug, PartialEq, Eq)]
pub struct Record {
    /// A unique identifier for a DNS record
    pub guid: u32,
    /// The stack this record belongs to
    pub stack_id: String,
    /// The deployment this record belongs to
    pub deployment_name: String,
    /// The app this record belongs to
    pub app_name: String,
    /// The type of DNS record this is (currently only A records supported)
    pub record_type: String,
    /// The domain name this record resolves
    pub domain_name: String,
    /// The value of the record, in practice the IP address of the A record
    pub value: String,
}

impl Clone for Record {
    fn clone(&self) -> (r: Self)
        ensures
            r == *self,
    {
        Record {
            guid: self.guid,
            stack_id: self.stack_id.clone(),
            deployment_name: self.deployment_name.clone(),
            app_name: self.app_name.clone(),
            record_type: self.record_type.clone(),
            domain_name: self.domain_name.clone(),
            value: self.value.clone(),
        }
    }
}

/// The label that a part of the namespace key stands for: its bytes in
/// lower case.
pub open spec fn label_key(text: Seq<char>) -> Seq<u8> {
    lower_bytes(encode_utf8(text))
}

/// A text can be one label of a name: between one and `MAX_LABEL_LEN`
/// bytes, none of them a dot.
pub open spec fn is_label_text(text: Seq<char>) -> bool {
    let bytes = encode_utf8(text);
    &&& label_fits(bytes)
    &&& forall|i: int| 0 <= i < bytes.len() ==> #[trigger] bytes[i] != 0x2e
}

/// The key of a mapping: the labels of app, deployment and stack, in the
/// order in which they stand in its name.
pub open spec fn key_of(
    app_name: Seq<char>,
    deployment_name: Seq<char>,
    stack_id: Seq<char>,
) -> Seq<Seq<u8>> {
    seq![label_key(app_name), label_key(deployment_name), label_key(stack_id)]
}

/// The key of a record.
pub open spec fn record_key(r: Record) -> Seq<Seq<u8>> {
    key_of(r.app_name@, r.deployment_name@, r.stack_id@)
}

/// The fully qualified name of a mapping under a zone, as text: app,
/// deployment and stack as given, then the zone, a dot after each.
pub open spec fn domain_text(
    app_name: Seq<char>,
    deployment_name: Seq<char>,
    stack_id: Seq<char>,
    zone: Seq<Seq<u8>>,
) -> Seq<char> {
    app_name + seq!['.'] + deployment_name + seq!['.'] + stack_id + seq!['.'] + labels_text(zone)
}

/// The record type that is resolved: the address record.
pub open spec fn address_type() -> Seq<char> {
    seq!['A']
}

/// Whether a text can be one label of a name.
pub fn check_label(text: &str) -> (r: bool)
    ensures
        r == is_label_text(text@),
{
    let bytes = text.as_bytes();
    if bytes.len() == 0 || bytes.len() > MAX_LABEL_LEN {
        return false;
    }
    let mut i: usize = 0;
    while i < bytes.len()
        invariant
            i <= bytes.len(),
            bytes@ == encode_utf8(text@),
            forall|j: int| 0 <= j < i ==> #[trigger] bytes@[j] != 0x2e,
        decreases bytes.len() - i,
    {
        if bytes[i] == 0x2e {
            return false;
        }
        i += 1;
    }
    true
}

/// Whether `label` is the label that `text` stands for.
pub fn label_matches(text: &str, label: &[u8]) -> (r: bool)
    ensures
        r == (label_key(text@) == label@),
{
    let bytes = text.as_bytes();
    if bytes.len() != label.len() {
        assert(label_key(text@).len() != label@.len());
        return false;
    }
    let mut i: usize = 0;
    while i < bytes.len()
        invariant
            i <= bytes.len(),
            bytes.len() == label.len(),
            bytes@ == encode_utf8(text@),
            forall|j: int| 0 <= j < i ==> lower_byte(bytes@[j]) == label@[j],
        decreases bytes.len() - i,
    {
        if to_lower_byte(bytes[i]) != label[i] {
            assert(label_key(text@)[i as int] != label@[i as int]);
            return false;
        }
        i += 1;
    }
    assert(label_key(text@) =~= label@);
    true
}

/// Whether two texts stand for the same label.
pub fn same_label(a: &str, b: &str) -> (r: bool)
    ensures
        r == (label_key(a@) == label_key(b@)),
{
    let x = a.as_bytes();
    let y = b.as_bytes();
    if x.len() != y.len() {
        assert(label_key(a@).len() != label_key(b@).len());
        return false;
    }
    let mut i: usize = 0;
    while i < x.len()
        invariant
            i <= x.len(),
            x.len() == y.len(),
            x@ == encode_utf8(a@),
            y@ == encode_utf8(b@),
            forall|j: int| 0 <= j < i ==> lower_byte(x@[j]) == lower_byte(y@[j]),
        decreases x.len() - i,
    {
        if to_lower_byte(x[i]) != to_lower_byte(y[i]) {
            assert(label_key(a@)[i as int] != label_key(b@)[i as int]);
            return false;
        }
        i += 1;
    }
    assert(label_key(a@) =~= label_key(b@));
    true
}

/// Whether a record type is the address record.
pub fn is_address_type(record_type: &str) -> (r: bool)
    ensures
        r == (record_type@ == address_type()),
{
    if record_type.unicode_len() != 1 {
        return false;
    }
    let c = record_type.get_char(0);
    assert(c == 'A' ==> record_type@ =~= address_type());
    c == 'A'
}

} // verus!
