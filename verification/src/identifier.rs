//! The identifier itself: an immutable value holding a namespace, a
//! nanosecond timestamp, a hostname and twelve random base-36 characters,
//! together with its canonical 36-character string form.

use vstd::prelude::*;
use vstd::string::StringExecFns;
use crate::codec::{
    all_base36, digit_char, digit_str, fixed_field, is_base36_char, lemma_digit_char_val,
    lemma_fixed_field_4, lemma_ts12_chars, string_to_fixed_field, timestamp_base36_parts, ts12,
};
use crate::env;
use crate::errors::Error;

verus! {

/// The mathematical content of an identifier: what each field holds.
pub struct UuidtData {
    pub namespace: Seq<char>,
    pub timestamp: u128,
    pub hostname: Seq<char>,
    pub random_chars: Seq<char>,
}

/// The construction invariant: a non-empty namespace and exactly twelve
/// base-36 random characters.
pub open spec fn wf(d: UuidtData) -> bool {
    &&& d.namespace.len() > 0
    &&& d.random_chars.len() == 12
    &&& all_base36(d.random_chars)
}

/// The canonical string of an identifier: the low 64 bits of the timestamp
/// as 12 base-36 characters split 8 + 4, the width-4 checksum fields of the
/// namespace and the hostname, and the random characters, all separated by
/// hyphens.
pub open spec fn canonical_chars(d: UuidtData) -> Seq<char> {
    ts12(d.timestamp as u64).take(8) + seq!['-'] + ts12(d.timestamp as u64).skip(8) + seq!['-']
        + fixed_field(d.namespace, 4) + seq!['-'] + fixed_field(d.hostname, 4) + seq!['-']
        + d.random_chars
}

/// A lexicographically time-sortable identifier. Values are immutable once
/// constructed, and only `create` (or `create_from_parts`) constructs them.
pub struct Uuidt {
    namespace: String,
    timestamp: u128,
    hostname: String,
    random_chars: String,
}

impl View for Uuidt {
    type V = UuidtData;

    closed spec fn view(&self) -> UuidtData {
        UuidtData {
            namespace: self.namespace@,
            timestamp: self.timestamp,
            hostname: self.hostname@,
            random_chars: self.random_chars@,
        }
    }
}

impl Uuidt {
    #[verifier::type_invariant]
    spec fn type_inv(self) -> bool {
        wf(self@)
    }

    /// Direct construction is not supported: `create` is the only way to
    /// obtain an identifier, and this constructor always refuses.
    pub fn new() -> (r: Result<Uuidt, Error>)
        ensures
            r == Err::<Uuidt, Error>(Error::UnsupportedConstruction),
    {
        Err(Error::UnsupportedConstruction)
    }

    /// The namespace this identifier was created under.
    pub fn namespace(&self) -> (r: &String)
        ensures
            r@ == self@.namespace,
    {
        &self.namespace
    }

    /// Nanoseconds since the Unix epoch at creation time.
    pub fn timestamp(&self) -> (r: u128)
        ensures
            r == self@.timestamp,
    {
        self.timestamp
    }

    /// The hostname of the machine that created this identifier.
    pub fn hostname(&self) -> (r: &String)
        ensures
            r@ == self@.hostname,
    {
        &self.hostname
    }

    /// The twelve random base-36 characters of this identifier.
    pub fn random_chars(&self) -> (r: &String)
        ensures
            r@ == self@.random_chars,
    {
        &self.random_chars
    }

    /// The canonical 36-character string form,
    /// `TTTTTTTT-TTTT-NNNN-HHHH-RRRRRRRRRRRR`.
    pub fn to_string(&self) -> (r: String)
        ensures
            r@ == canonical_chars(self@),
            r@.len() == 36,
    {
        proof {
            use_type_invariant(&*self);
            lemma_ts12_chars(self.timestamp as u64);
            lemma_fixed_field_4(self@.namespace);
            lemma_fixed_field_4(self@.hostname);
        }
        let (t1, t2) = timestamp_base36_parts(self.timestamp);
        let nsf = string_to_fixed_field(self.namespace.as_str(), 4);
        let hof = string_to_fixed_field(self.hostname.as_str(), 4);
        let mut r = t1;
        r.append("-");
        r.append(t2.as_str());
        r.append("-");
        r.append(nsf.as_str());
        r.append("-");
        r.append(hof.as_str());
        r.append("-");
        r.append(self.random_chars.as_str());
        proof {
            reveal_strlit("-");
            assert(("-")@ =~= seq!['-']);
            assert(r@ =~= canonical_chars(self@));
        }
        r
    }
}

/// Builds the identifier for the given namespace, timestamp and hostname,
/// drawing fresh random characters. The namespace must be non-empty; the
/// timestamp is nanoseconds since the Unix epoch. This is the encoder proper:
/// `create` merely supplies the clock and the machine's hostname.
pub fn create_from_parts(namespace: String, timestamp: u128, hostname: String) -> (r: Result<
    Uuidt,
    Error,
>)
    ensures
        namespace@.len() == 0 ==> r == Err::<Uuidt, Error>(Error::EmptyNamespace),
        namespace@.len() > 0 ==> r is Ok && wf((r->Ok_0)@) && (r->Ok_0)@.namespace == namespace@
            && (r->Ok_0)@.timestamp == timestamp && (r->Ok_0)@.hostname == hostname@,
{
    if namespace.as_str().is_empty() {
        return Err(Error::EmptyNamespace);
    }
    let digits = env::random_digit_values();
    let mut random_chars = String::new();
    let mut i: usize = 0;
    while i < 12
        invariant
            digits@.len() == 12,
            forall|j: int| 0 <= j < 12 ==> digits@[j] < 36,
            0 <= i <= 12,
            random_chars@.len() == i,
            all_base36(random_chars@),
        decreases 12 - i,
    {
        let d = digits[i];
        let ghost before = random_chars@;
        random_chars.append(digit_str(d));
        proof {
            lemma_digit_char_val(d as int);
            assert forall|j: int|
                0 <= j < random_chars@.len() implies is_base36_char(
                #[trigger] random_chars@[j],
            ) by {
                if j < before.len() {
                    assert(random_chars@[j] == before[j]);
                } else {
                    assert(random_chars@[j] == digit_char(d as int));
                }
            }
        }
        i = i + 1;
    }
    Ok(Uuidt { namespace, timestamp, hostname, random_chars })
}

/// Creates a new identifier under `namespace`, stamped with the current
/// wall-clock time and the machine's hostname. Fails exactly when the
/// namespace is empty.
pub fn create(namespace: String) -> (r: Result<Uuidt, Error>)
    ensures
        namespace@.len() == 0 ==> r == Err::<Uuidt, Error>(Error::EmptyNamespace),
        namespace@.len() > 0 ==> r is Ok && wf((r->Ok_0)@) && (r->Ok_0)@.namespace == namespace@,
{
    if namespace.as_str().is_empty() {
        return Err(Error::EmptyNamespace);
    }
    let timestamp = env::now_nanos();
    let hostname = env::machine_hostname();
    create_from_parts(namespace, timestamp, hostname)
}

} // verus!
