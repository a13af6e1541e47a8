//! The record model: a closed set of typed payload variants, each able to
//! report its own accounting footprint in bytes.

use vstd::prelude::*;
use vstd::utf8::encode_utf8;

verus! {

/// The mathematical content of a stored record.
pub enum ResourceView {
    Text { text: Seq<char> },
    Sensor { bits: u64 },
    Logs { entries: Seq<Seq<char>> },
}

/// Total UTF-8 byte length of a sequence of log entries. Separators and other
/// framing overhead are deliberately not counted: this is the accounting
/// size, not a serialized size.
pub open spec fn log_bytes(entries: Seq<Seq<char>>) -> nat
    decreases entries.len(),
{
    if entries.len() == 0 {
        0
    } else {
        log_bytes(entries.drop_last()) + encode_utf8(entries.last()).len()
    }
}

impl ResourceView {
    /// The accounting size of a record: a text message is its UTF-8 byte
    /// length, a sensor reading is the 8 bytes of its 64-bit value, and a log
    /// batch is the sum of its entries' UTF-8 byte lengths.
    pub open spec fn byte_size(self) -> nat {
        match self {
            ResourceView::Text { text } => encode_utf8(text).len(),
            ResourceView::Sensor { .. } => 8,
            ResourceView::Logs { entries } => log_bytes(entries),
        }
    }
}

/// Relies on `str::len`: the length of the string's UTF-8 encoding in bytes;
/// a string held in memory occupies that many bytes, so the length fits
/// `usize` and hence `u64`.
#[verifier::external_body]
pub(crate) fn str_byte_len(s: &str) -> (n: u64)
    ensures
        n == encode_utf8(s@).len(),
{
    s.len() as u64
}

/// One stored payload. A sensor reading is kept as the bit pattern of its
/// 64-bit floating point value, so that accounting and persistence work on
/// plain integers; callers convert with `f64::to_bits` and `f64::from_bits`.
#[derive(Debug, Clone)]
pub enum Resource {
    TextMessage(String),
    SensorData(u64),
    SystemLogs(Vec<String>),
}

impl View for Resource {
    type V = ResourceView;

    open spec fn view(&self) -> ResourceView {
        match self {
            Resource::TextMessage(s) => ResourceView::Text { text: s@ },
            Resource::SensorData(bits) => ResourceView::Sensor { bits: *bits },
            Resource::SystemLogs(logs) => ResourceView::Logs { entries: logs.deep_view() },
        }
    }
}

/// The byte count of a prefix of a log batch grows by the length of the entry
/// that the prefix gains.
pub proof fn lemma_log_bytes_take_succ(entries: Seq<Seq<char>>, i: int)
    requires
        0 <= i < entries.len(),
    ensures
        log_bytes(entries.take(i + 1)) == log_bytes(entries.take(i)) + encode_utf8(
            entries[i],
        ).len(),
{
    assert(entries.take(i + 1).drop_last() =~= entries.take(i));
    assert(entries.take(i + 1).last() == entries[i]);
}

/// No prefix of a log batch outweighs the whole batch.
pub proof fn lemma_log_bytes_prefix(entries: Seq<Seq<char>>, i: int)
    requires
        0 <= i <= entries.len(),
    ensures
        log_bytes(entries.take(i)) <= log_bytes(entries),
    decreases entries.len() - i,
{
    if i == entries.len() {
        assert(entries.take(i) =~= entries);
    } else {
        lemma_log_bytes_take_succ(entries, i);
        lemma_log_bytes_prefix(entries, i + 1);
    }
}

impl Resource {
    /// True when the accounting size fits in a `u64`; larger records cannot
    /// exist in memory and are out of range for the store's accounting.
    pub open spec fn fits_u64(self) -> bool {
        self@.byte_size() <= u64::MAX
    }

    /// The accounting size of the resource in bytes.
    pub fn size_bytes(&self) -> (bytes: u64)
        requires
            self.fits_u64(),
        ensures
            bytes == self@.byte_size(),
    {
        match self {
            Resource::TextMessage(s) => str_byte_len(s.as_str()),
            Resource::SensorData(_) => 8,
            Resource::SystemLogs(logs) => {
                let ghost entries = logs.deep_view();
                let mut total: u64 = 0;
                let mut i: usize = 0;
                while i < logs.len()
                    invariant
                        i <= logs.len(),
                        entries == logs.deep_view(),
                        entries.len() == logs.len(),
                        log_bytes(entries) <= u64::MAX,
                        total == log_bytes(entries.take(i as int)),
                    decreases logs.len() - i,
                {
                    proof {
                        lemma_log_bytes_take_succ(entries, i as int);
                        lemma_log_bytes_prefix(entries, i + 1);
                        assert(entries[i as int] == logs@[i as int]@);
                    }
                    total = total + str_byte_len(logs[i].as_str());
                    i = i + 1;
                }
                proof {
                    assert(entries.take(logs.len() as int) =~= entries);
                }
                total
            },
        }
    }

    /// The accounting size of the resource in bytes, or `None` when it does
    /// not fit in a `u64`.
    pub fn checked_size_bytes(&self) -> (r: Option<u64>)
        ensures
            match r {
                Some(bytes) => bytes == self@.byte_size(),
                None => self@.byte_size() > u64::MAX,
            },
    {
        match self {
            Resource::TextMessage(s) => Some(str_byte_len(s.as_str())),
            Resource::SensorData(_) => Some(8),
            Resource::SystemLogs(logs) => {
                let ghost entries = logs.deep_view();
                let mut total: u64 = 0;
                let mut i: usize = 0;
                while i < logs.len()
                    invariant
                        i <= logs.len(),
                        entries == logs.deep_view(),
                        entries.len() == logs.len(),
                        self@ == (ResourceView::Logs { entries }),
                        total == log_bytes(entries.take(i as int)),
                    decreases logs.len() - i,
                {
                    proof {
                        lemma_log_bytes_take_succ(entries, i as int);
                        assert(entries[i as int] == logs@[i as int]@);
                    }
                    let len = str_byte_len(logs[i].as_str());
                    match total.checked_add(len) {
                        Some(next) => {
                            total = next;
                        },
                        None => {
                            proof {
                                lemma_log_bytes_prefix(entries, i + 1);
                            }
                            return None;
                        },
                    }
                    i = i + 1;
                }
                proof {
                    assert(entries.take(logs.len() as int) =~= entries);
                }
                Some(total)
            },
        }
    }
}

fn logs_eq(a: &Vec<String>, b: &Vec<String>) -> (r: bool)
    ensures
        r == (a.deep_view() == b.deep_view()),
{
    if a.len() != b.len() {
        proof {
            assert(a.deep_view().len() != b.deep_view().len());
        }
        return false;
    }
    let mut i: usize = 0;
    while i < a.len()
        invariant
            i <= a.len(),
            a.len() == b.len(),
            a.deep_view().len() == a.len(),
            b.deep_view().len() == b.len(),
            forall|j: int| 0 <= j < i ==> a.deep_view()[j] == b.deep_view()[j],
        decreases a.len() - i,
    {
        let same = a[i] == b[i];
        if !same {
            proof {
                assert(a.deep_view()[i as int] == a@[i as int]@);
                assert(b.deep_view()[i as int] == b@[i as int]@);
                assert(a.deep_view() != b.deep_view());
            }
            return false;
        }
        proof {
            assert(a.deep_view()[i as int] == a@[i as int]@);
            assert(b.deep_view()[i as int] == b@[i as int]@);
        }
        i = i + 1;
    }
    proof {
        assert(a.deep_view() =~= b.deep_view());
    }
    true
}

impl PartialEq for Resource {
    /// Two resources are equal when they are the same variant with the same
    /// payload characters or bits.
    fn eq(&self, other: &Self) -> (r: bool) {
        match (self, other) {
            (Resource::TextMessage(a), Resource::TextMessage(b)) => *a == *b,
            (Resource::SensorData(a), Resource::SensorData(b)) => *a == *b,
            (Resource::SystemLogs(a), Resource::SystemLogs(b)) => logs_eq(a, b),
            _ => false,
        }
    }
}

impl vstd::std_specs::cmp::PartialEqSpecImpl for Resource {
    open spec fn obeys_eq_spec() -> bool {
        true
    }

    open spec fn eq_spec(&self, other: &Self) -> bool {
        self@ == other@
    }
}

} // verus!
