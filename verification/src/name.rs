//! Domain names as sequences of labels.
//!
//! A [`DomainName`] holds the labels of a name, first label first, each in
//! lower case. Names are compared label by label, so a zone contains a name
//! exactly when the zone's labels are the last labels of the name.

use std::str::FromStr;
use trust_dns_server::proto::rr::Name;
use vstd::prelude::*;

verus! {

/// The longest label, in bytes.
pub const MAX_LABEL_LEN: usize = 63;

/// The longest name, counting each label and one separator after it.
pub const MAX_NAME_LEN: usize = 255;

/// The lower-case form of an ASCII letter; any other byte is left alone.
pub open spec fn lower_byte(b: u8) -> u8 {
    if 0x41 <= b <= 0x5a {
        (b + 0x20) as u8
    } else {
        b
    }
}

/// A byte string with every ASCII capital replaced by its small letter.
pub open spec fn lower_bytes(s: Seq<u8>) -> Seq<u8> {
    Seq::new(s.len(), |i: int| lower_byte(s[i]))
}

/// No byte of `s` is an ASCII capital.
pub open spec fn is_lower(s: Seq<u8>) -> bool {
    forall|i: int| 0 <= i < s.len() ==> !(0x41 <= #[trigger] s[i] <= 0x5a)
}

/// Every label lowered.
pub open spec fn lower_labels(labels: Seq<Seq<u8>>) -> Seq<Seq<u8>> {
    Seq::new(labels.len(), |i: int| lower_bytes(labels[i]))
}

/// A label has between one and `MAX_LABEL_LEN` bytes.
pub open spec fn label_fits(label: Seq<u8>) -> bool {
    1 <= label.len() <= MAX_LABEL_LEN
}

/// The length of a name: the bytes of its labels and one separator for each.
pub open spec fn name_len(labels: Seq<Seq<u8>>) -> nat
    decreases labels.len(),
{
    if labels.len() == 0 {
        0
    } else {
        name_len(labels.drop_last()) + labels.last().len() + 1
    }
}

/// The labels can form a name: each fits, and so does the whole.
pub open spec fn labels_fit(labels: Seq<Seq<u8>>) -> bool {
    &&& forall|i: int| 0 <= i < labels.len() ==> label_fits(#[trigger] labels[i])
    &&& name_len(labels) <= MAX_NAME_LEN
}

/// The labels are those of a name in canonical form: they fit and are in
/// lower case.
pub open spec fn is_name(labels: Seq<Seq<u8>>) -> bool {
    &&& labels_fit(labels)
    &&& forall|i: int| 0 <= i < labels.len() ==> is_lower(#[trigger] labels[i])
}

/// `zone` contains `name`: the labels of `zone` are the last labels of
/// `name`. Every zone contains itself, and the root contains every name.
pub open spec fn zone_of(zone: Seq<Seq<u8>>, name: Seq<Seq<u8>>) -> bool {
    &&& zone.len() <= name.len()
    &&& name.subrange(name.len() - zone.len(), name.len() as int) == zone
}

/// How one byte of a label is written in text: a dot or a backslash behind
/// a backslash, any other printable ASCII byte as itself, and every other
/// byte as a backslash and its three decimal digits.
pub open spec fn byte_text(b: u8) -> Seq<char> {
    if b == 0x2e || b == 0x5c {
        seq!['\\', b as char]
    } else if 0x21 <= b <= 0x7e {
        seq![b as char]
    } else {
        seq![
            '\\',
            (0x30 + b / 100) as u8 as char,
            (0x30 + (b / 10) % 10) as u8 as char,
            (0x30 + b % 10) as u8 as char,
        ]
    }
}

/// The text of one label.
pub open spec fn label_text(label: Seq<u8>) -> Seq<char>
    decreases label.len(),
{
    if label.len() == 0 {
        Seq::empty()
    } else {
        label_text(label.drop_last()) + byte_text(label.last())
    }
}

/// The text of a run of labels, each followed by a dot. For the labels of a
/// name other than the root this is the fully qualified name.
pub open spec fn labels_text(labels: Seq<Seq<u8>>) -> Seq<char>
    decreases labels.len(),
{
    if labels.len() == 0 {
        Seq::empty()
    } else {
        labels_text(labels.drop_last()) + label_text(labels.last()) + seq!['.']
    }
}

/// The text of a fully qualified name: a single dot for the root, else each
/// label followed by a dot.
pub open spec fn name_text(labels: Seq<Seq<u8>>) -> Seq<char> {
    if labels.len() == 0 {
        seq!['.']
    } else {
        labels_text(labels)
    }
}

/// The labels that a vector of byte vectors holds.
pub open spec fn labels_of(labels: Seq<Vec<u8>>) -> Seq<Seq<u8>> {
    Seq::new(labels.len(), |i: int| labels[i]@)
}

/// What `Name::from_str` makes of a text: the labels of the name it parses,
/// case as parsed, or `None` where it refuses the text.
pub uninterp spec fn presentation_labels(text: Seq<char>) -> Option<Seq<Seq<u8>>>;

/// The name that a text stands for: what the parser finds in it, lowered,
/// where that fits in a name.
pub open spec fn parsed_name(text: Seq<char>) -> Option<Seq<Seq<u8>>> {
    match presentation_labels(text) {
        Some(labels) => if labels_fit(labels) {
            Some(lower_labels(labels))
        } else {
            None
        },
        None => None,
    }
}

/// Calls `trust_dns_server::proto::rr::Name::from_str` on `text` and hands
/// back the labels of the name it returns, first label first, or `None`
/// where it returns an error. Nothing is claimed of the labels but that the
/// same text always gives the same ones.
#[verifier::external_body]
fn parse_presentation(text: &str) -> (r: Option<Vec<Vec<u8>>>)
    ensures
        r is Some <==> presentation_labels(text@) is Some,
        r matches Some(labels) ==> Some(labels_of(labels@)) == presentation_labels(text@),
{
    match Name::from_str(text) {
        Ok(name) => Some(name.iter().map(|label| label.to_vec()).collect()),
        Err(_) => None,
    }
}

/// Appends one character to a string: `String::push`.
pub assume_specification[ String::push ](s: &mut String, c: char)
    ensures
        final(s)@ == old(s)@.push(c),
;

/// One more label adds its bytes and a separator to the length.
pub proof fn lemma_name_len_push(labels: Seq<Seq<u8>>, label: Seq<u8>)
    ensures
        name_len(labels.push(label)) == name_len(labels) + label.len() + 1,
{
    assert(labels.push(label).drop_last() =~= labels);
}

/// The first labels of a name are no longer than the name.
pub proof fn lemma_name_len_prefix(labels: Seq<Seq<u8>>, n: int)
    requires
        0 <= n <= labels.len(),
    ensures
        name_len(labels.take(n)) <= name_len(labels),
    decreases labels.len() - n,
{
    if n < labels.len() {
        lemma_name_len_prefix(labels, n + 1);
        assert(labels.take(n + 1).drop_last() =~= labels.take(n));
    } else {
        assert(labels.take(n) =~= labels);
    }
}

/// The length of two runs of labels is the sum of their lengths.
pub proof fn lemma_name_len_concat(a: Seq<Seq<u8>>, b: Seq<Seq<u8>>)
    ensures
        name_len(a + b) == name_len(a) + name_len(b),
    decreases b.len(),
{
    if b.len() == 0 {
        assert(a + b =~= a);
    } else {
        lemma_name_len_concat(a, b.drop_last());
        assert((a + b).drop_last() =~= a + b.drop_last());
    }
}

/// A name has no more labels than its length.
pub proof fn lemma_name_len_bounds_count(labels: Seq<Seq<u8>>)
    ensures
        labels.len() <= name_len(labels),
    decreases labels.len(),
{
    if labels.len() > 0 {
        lemma_name_len_bounds_count(labels.drop_last());
    }
}

/// Lowering leaves no capital and keeps the length, and changes nothing
/// where there was no capital.
pub proof fn lemma_lower_bytes_is_lower(s: Seq<u8>)
    ensures
        is_lower(lower_bytes(s)),
        lower_bytes(s).len() == s.len(),
        is_lower(s) ==> lower_bytes(s) == s,
{
    if is_lower(s) {
        assert(lower_bytes(s) =~= s);
    }
}

/// Lowering keeps the length of a name.
pub proof fn lemma_lower_labels_len(labels: Seq<Seq<u8>>)
    ensures
        name_len(lower_labels(labels)) == name_len(labels),
    decreases labels.len(),
{
    if labels.len() > 0 {
        lemma_lower_labels_len(labels.drop_last());
        assert(lower_labels(labels).drop_last() =~= lower_labels(labels.drop_last()));
    }
}

/// Lowered labels that fit are the labels of a name.
pub proof fn lemma_lower_labels_is_name(labels: Seq<Seq<u8>>)
    requires
        labels_fit(labels),
    ensures
        is_name(lower_labels(labels)),
        is_name(labels) ==> lower_labels(labels) == labels,
{
    lemma_lower_labels_len(labels);
    let low = lower_labels(labels);
    assert forall|i: int| 0 <= i < low.len() implies label_fits(#[trigger] low[i]) && is_lower(
        low[i],
    ) by {
        assert(label_fits(labels[i]));
        lemma_lower_bytes_is_lower(labels[i]);
    }
    if is_name(labels) {
        assert forall|i: int| 0 <= i < low.len() implies low[i] == labels[i] by {
            assert(is_lower(labels[i]));
            lemma_lower_bytes_is_lower(labels[i]);
        }
        assert(low =~= labels);
    }
}

/// The lower-case form of a byte.
pub fn to_lower_byte(b: u8) -> (r: u8)
    ensures
        r == lower_byte(b),
{
    if 0x41 <= b && b <= 0x5a {
        b + 0x20
    } else {
        b
    }
}

/// A copy of `s` in lower case.
pub fn to_lower_bytes(s: &[u8]) -> (r: Vec<u8>)
    ensures
        r@ == lower_bytes(s@),
{
    let mut out: Vec<u8> = Vec::new();
    let mut i: usize = 0;
    while i < s.len()
        invariant
            i <= s.len(),
            out@.len() == i,
            forall|j: int| 0 <= j < i ==> out@[j] == lower_byte(s@[j]),
        decreases s.len() - i,
    {
        out.push(to_lower_byte(s[i]));
        i += 1;
    }
    assert(out@ =~= lower_bytes(s@));
    out
}

/// Whether two byte strings are the same.
pub fn bytes_eq(a: &[u8], b: &[u8]) -> (r: bool)
    ensures
        r == (a@ == b@),
{
    if a.len() != b.len() {
        return false;
    }
    let mut i: usize = 0;
    while i < a.len()
        invariant
            i <= a.len(),
            a.len() == b.len(),
            forall|j: int| 0 <= j < i ==> a@[j] == b@[j],
        decreases a.len() - i,
    {
        if a[i] != b[i] {
            return false;
        }
        i += 1;
    }
    assert(a@ =~= b@);
    true
}

/// Appends the text of one byte of a label.
fn push_byte_text(out: &mut String, b: u8)
    ensures
        final(out)@ == old(out)@ + byte_text(b),
{
    if b == 0x2e || b == 0x5c {
        out.push('\\');
        out.push(b as char);
    } else if 0x21 <= b && b <= 0x7e {
        out.push(b as char);
    } else {
        out.push('\\');
        out.push((0x30 + b / 100) as char);
        out.push((0x30 + (b / 10) % 10) as char);
        out.push((0x30 + b % 10) as char);
    }
    assert(out@ =~= old(out)@ + byte_text(b));
}

/// A domain name: its labels, first label first, in lower case.
#[derive(Debug, PartialEq, Eq, Hash)]
pub struct DomainName {
    labels: Vec<Vec<u8>>,
}

impl View for DomainName {
    type V = Seq<Seq<u8>>;

    closed spec fn view(&self) -> Seq<Seq<u8>> {
        labels_of(self.labels@)
    }
}

impl Clone for DomainName {
    fn clone(&self) -> (r: Self)
        ensures
            r@ == self@,
    {
        proof {
            use_type_invariant(self);
        }
        DomainName { labels: self.to_labels() }
    }
}

impl DomainName {
    /// Every name is in canonical form.
    #[verifier::type_invariant]
    pub open spec fn wf(&self) -> bool {
        is_name(self@)
    }

    /// The root: the name without labels.
    pub fn root() -> (r: DomainName)
        ensures
            r@ == Seq::<Seq<u8>>::empty(),
    {
        let labels: Vec<Vec<u8>> = Vec::new();
        assert(labels_of(labels@) =~= Seq::<Seq<u8>>::empty());
        DomainName { labels }
    }

    /// The name with the given labels, lowered. `None` where a label is
    /// empty or longer than `MAX_LABEL_LEN`, or the name longer than
    /// `MAX_NAME_LEN`.
    pub fn from_labels(labels: Vec<Vec<u8>>) -> (r: Option<DomainName>)
        ensures
            r is Some <==> labels_fit(labels_of(labels@)),
            r matches Some(name) ==> name@ == lower_labels(labels_of(labels@)),
    {
        let ghost given = labels_of(labels@);
        let mut out: Vec<Vec<u8>> = Vec::new();
        let mut total: usize = 0;
        let mut i: usize = 0;
        while i < labels.len()
            invariant
                given == labels_of(labels@),
                i <= labels.len(),
                out.len() == i,
                total == name_len(given.take(i as int)),
                total <= MAX_NAME_LEN,
                forall|j: int| 0 <= j < i ==> label_fits(#[trigger] given[j]),
                forall|j: int| 0 <= j < i ==> out@[j]@ == lower_bytes(#[trigger] given[j]),
            decreases labels.len() - i,
        {
            let label = &labels[i];
            proof {
                assert(given[i as int] == label@);
                assert(given.take(i + 1) =~= given.take(i as int).push(given[i as int]));
                lemma_name_len_push(given.take(i as int), given[i as int]);
                lemma_name_len_prefix(given, i + 1);
            }
            if label.len() == 0 || label.len() > MAX_LABEL_LEN {
                assert(!label_fits(given[i as int]));
                return None;
            }
            if total + label.len() + 1 > MAX_NAME_LEN {
                return None;
            }
            total = total + label.len() + 1;
            out.push(to_lower_bytes(label.as_slice()));
            i += 1;
        }
        proof {
            assert(given.take(i as int) =~= given);
            assert(labels_of(out@) =~= lower_labels(given));
            lemma_lower_labels_is_name(given);
        }
        Some(DomainName { labels: out })
    }

    /// The name that `text` stands for, read by the name parser and lowered.
    /// `None` where the parser refuses the text.
    pub fn parse(text: &str) -> (r: Option<DomainName>)
        ensures
            r is Some <==> parsed_name(text@) is Some,
            r matches Some(name) ==> Some(name@) == parsed_name(text@),
    {
        match parse_presentation(text) {
            Some(labels) => DomainName::from_labels(labels),
            None => None,
        }
    }

    /// The number of labels.
    pub fn label_count(&self) -> (n: usize)
        ensures
            n == self@.len(),
    {
        self.labels.len()
    }

    /// The length of the name: the bytes of its labels and one separator
    /// for each.
    pub fn len(&self) -> (n: usize)
        ensures
            n == name_len(self@),
            n <= MAX_NAME_LEN,
    {
        proof {
            use_type_invariant(self);
        }
        let mut total: usize = 0;
        let mut i: usize = 0;
        while i < self.labels.len()
            invariant
                i <= self.labels.len(),
                total == name_len(self@.take(i as int)),
                name_len(self@) <= MAX_NAME_LEN,
            decreases self.labels.len() - i,
        {
            proof {
                assert(self@.take(i + 1) =~= self@.take(i as int).push(self@[i as int]));
                lemma_name_len_push(self@.take(i as int), self@[i as int]);
                lemma_name_len_prefix(self@, i + 1);
            }
            total = total + self.labels[i].len() + 1;
            i += 1;
        }
        assert(self@.take(i as int) =~= self@);
        total
    }

    /// The label at `index`, counted from the front.
    pub fn label(&self, index: usize) -> (l: &[u8])
        requires
            index < self@.len(),
        ensures
            l@ == self@[index as int],
    {
        self.labels[index].as_slice()
    }

    /// Whether this name, as a zone, contains `name`.
    pub fn zone_of(&self, name: &DomainName) -> (r: bool)
        ensures
            r == zone_of(self@, name@),
    {
        let n = self.labels.len();
        let m = name.labels.len();
        if n > m {
            return false;
        }
        let skip = m - n;
        let ghost tail = name@.subrange(m - n, m as int);
        let mut i: usize = 0;
        while i < n
            invariant
                n == self.labels.len(),
                m == name.labels.len(),
                n <= m,
                skip == m - n,
                i <= n,
                tail == name@.subrange(m - n, m as int),
                forall|j: int| 0 <= j < i ==> tail[j] == self@[j],
            decreases n - i,
        {
            if !bytes_eq(self.labels[i].as_slice(), name.labels[skip + i].as_slice()) {
                assert(tail[i as int] != self@[i as int]);
                return false;
            }
            i += 1;
        }
        assert(tail =~= self@);
        true
    }

    /// Whether the two names have the same labels.
    pub fn same_as(&self, other: &DomainName) -> (r: bool)
        ensures
            r == (self@ == other@),
    {
        if self.labels.len() != other.labels.len() {
            return false;
        }
        let r = self.zone_of(other);
        proof {
            assert(other@.subrange(0, other@.len() as int) =~= other@);
        }
        r
    }

    /// The name one label below this one: `label`, lowered, in front of the
    /// labels of this name. `None` where the label or the longer name does
    /// not fit.
    pub fn child(&self, label: &[u8]) -> (r: Option<DomainName>)
        ensures
            r is Some <==> labels_fit(seq![label@] + self@),
            r matches Some(name) ==> name@ == seq![lower_bytes(label@)] + self@,
    {
        proof {
            use_type_invariant(self);
        }
        let mut labels: Vec<Vec<u8>> = Vec::new();
        labels.push(to_lower_bytes(label));
        let mut rest = self.to_labels();
        labels.append(&mut rest);
        proof {
            let lowered = seq![lower_bytes(label@)] + self@;
            let given = seq![label@] + self@;
            assert(labels_of(labels@) =~= lowered);
            lemma_lower_bytes_is_lower(label@);
            lemma_lower_bytes_is_lower(lower_bytes(label@));
            lemma_lower_labels_len(given);
            assert(lower_labels(given) =~= lowered) by {
                assert forall|j: int| 1 <= j < given.len() implies lower_bytes(given[j])
                    == lowered[j] by {
                    assert(is_lower(self@[j - 1]));
                    lemma_lower_bytes_is_lower(self@[j - 1]);
                }
            }
            assert(labels_fit(given) == labels_fit(lowered)) by {
                assert forall|j: int| 0 <= j < given.len() implies label_fits(given[j])
                    == label_fits(lowered[j]) by {
                    lemma_lower_bytes_is_lower(given[j]);
                }
            }
            assert(lower_labels(lowered) =~= lowered) by {
                assert forall|j: int| 0 <= j < lowered.len() implies lower_bytes(lowered[j])
                    == lowered[j] by {
                    if j > 0 {
                        assert(is_lower(self@[j - 1]));
                        lemma_lower_bytes_is_lower(self@[j - 1]);
                    }
                }
            }
        }
        DomainName::from_labels(labels)
    }

    /// The text of the name: each label followed by a dot, so the root has
    /// the empty text.
    pub fn text(&self) -> (r: String)
        ensures
            r@ == labels_text(self@),
    {
        let mut out = String::new();
        let mut i: usize = 0;
        while i < self.labels.len()
            invariant
                i <= self.labels.len(),
                out@ == labels_text(self@.take(i as int)),
            decreases self.labels.len() - i,
        {
            let label = &self.labels[i];
            let ghost before = out@;
            let mut j: usize = 0;
            while j < label.len()
                invariant
                    j <= label.len(),
                    out@ == before + label_text(label@.take(j as int)),
                decreases label.len() - j,
            {
                let b = label[j];
                proof {
                    assert(label@.take(j + 1).drop_last() =~= label@.take(j as int));
                    assert(label@.take(j + 1).last() == b);
                }
                push_byte_text(&mut out, b);
                assert(out@ =~= before + label_text(label@.take(j + 1)));
                j += 1;
            }
            out.push('.');
            proof {
                assert(label@.take(j as int) =~= label@);
                assert(self@.take(i + 1).drop_last() =~= self@.take(i as int));
                assert(self@.take(i + 1).last() == label@);
                assert(out@ =~= labels_text(self@.take(i + 1)));
            }
            i += 1;
        }
        assert(self@.take(i as int) =~= self@);
        out
    }

    /// The text of the name as a fully qualified name: a single dot for the
    /// root, else each label followed by a dot.
    pub fn full_text(&self) -> (r: String)
        ensures
            r@ == name_text(self@),
    {
        if self.labels.len() == 0 {
            let mut out = String::new();
            out.push('.');
            assert(out@ =~= seq!['.']);
            out
        } else {
            self.text()
        }
    }

    /// The labels, each as a copy of its bytes.
    pub fn to_labels(&self) -> (r: Vec<Vec<u8>>)
        ensures
            labels_of(r@) == self@,
    {
        let mut labels: Vec<Vec<u8>> = Vec::new();
        let mut i: usize = 0;
        while i < self.labels.len()
            invariant
                i <= self.labels.len(),
                labels.len() == i,
                forall|j: int| 0 <= j < i ==> labels@[j]@ == self.labels@[j]@,
            decreases self.labels.len() - i,
        {
            labels.push(self.labels[i].clone());
            i += 1;
        }
        assert(labels_of(labels@) =~= labels_of(self.labels@));
        labels
    }
}

} // verus!
