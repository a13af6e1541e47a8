//! The persistence adapter: the vault's full state as a flat text document
//! that can be written to and read back from durable storage, with a proved
//! round trip.
//!
//! The document is a plain character stream:
//!
//! ```text
//! document = str(location) capacity num(entry count) entry*
//! num(n)   = the decimal digits of n, then ';'
//! str(s)   = num(character count of s), then the characters of s
//! capacity = 'K' | 'M' | 'G' for the unit, then num(unit count)
//! entry    = str(key) record
//! record   = 'T' str(text) | 'S' num(bits) | 'L' num(k) str * k
//! ```
//!
//! Lengths are counted in characters, so no character of a stored string
//! needs escaping.

use vstd::arithmetic::div_mod::lemma_fundamental_div_mod;
use vstd::prelude::*;
use vstd::string::StrSliceExecFns;
use vstd::string::StringExecFns;
use crate::error::VaultError;
use crate::memory::MemorySize;
use crate::resource::Resource;
use crate::resource::ResourceView;
use crate::text::chars_to_string;
use crate::text::dec_chars;
use crate::text::dec_str;
use crate::text::digit_val;
use crate::text::is_digit;
use crate::text::lemma_dec_str_digits;
use crate::vault::entries_view;
use crate::vault::Vault;
use crate::vault::VaultSnapshot;

verus! {

// ---------------------------------------------------------------------------
// The document's form, as functions from state to characters.
// ---------------------------------------------------------------------------
/// The encoding of a number: its decimal digits, then `';'`.
pub open spec fn enc_num(n: nat) -> Seq<char> {
    dec_str(n) + seq![';']
}

/// The encoding of a string: its character count, then its characters.
pub open spec fn enc_str(s: Seq<char>) -> Seq<char> {
    enc_num(s.len()) + s
}

/// The encoding of a capacity: its unit letter, then its unit count.
pub open spec fn enc_capacity(c: MemorySize) -> Seq<char> {
    match c {
        MemorySize::KB(n) => seq!['K'] + enc_num(n as nat),
        MemorySize::MB(n) => seq!['M'] + enc_num(n as nat),
        MemorySize::GB(n) => seq!['G'] + enc_num(n as nat),
    }
}

/// The encoding of a log batch's entries, one string after another.
pub open spec fn enc_logs(entries: Seq<Seq<char>>) -> Seq<char>
    decreases entries.len(),
{
    if entries.len() == 0 {
        Seq::empty()
    } else {
        enc_logs(entries.drop_last()) + enc_str(entries.last())
    }
}

/// The encoding of one record: a variant tag, then its payload.
pub open spec fn enc_record(r: ResourceView) -> Seq<char> {
    match r {
        ResourceView::Text { text } => seq!['T'] + enc_str(text),
        ResourceView::Sensor { bits } => seq!['S'] + enc_num(bits as nat),
        ResourceView::Logs { entries } => seq!['L'] + enc_num(entries.len()) + enc_logs(entries),
    }
}

/// The encoding of the entry list, each key followed by its record.
pub open spec fn enc_entries(s: Seq<(Seq<char>, ResourceView)>) -> Seq<char>
    decreases s.len(),
{
    if s.len() == 0 {
        Seq::empty()
    } else {
        enc_entries(s.drop_last()) + enc_str(s.last().0) + enc_record(s.last().1)
    }
}

/// The whole document: location, capacity, entry count, entries.
pub open spec fn enc_snapshot(v: VaultSnapshot) -> Seq<char> {
    enc_str(v.location) + enc_capacity(v.storage_capacity) + enc_num(v.resources.len())
        + enc_entries(v.resources)
}

// ---------------------------------------------------------------------------
// Reading the document back, as functions from characters to state.
// ---------------------------------------------------------------------------
/// Splits the characters before the first `';'` from those after it.
pub open spec fn split_at_semi(s: Seq<char>) -> Option<(Seq<char>, Seq<char>)>
    decreases s.len(),
{
    if s.len() == 0 {
        None
    } else if s[0] == ';' {
        Some((Seq::empty(), s.drop_first()))
    } else {
        match split_at_semi(s.drop_first()) {
            Some(p) => Some((seq![s[0]] + p.0, p.1)),
            None => None,
        }
    }
}

/// The value of a digit string, or `None` when a character is not a digit or
/// the value exceeds `u64::MAX`.
pub open spec fn dec_val(ds: Seq<char>) -> Option<u64>
    decreases ds.len(),
{
    if ds.len() == 0 {
        Some(0u64)
    } else {
        match dec_val(ds.drop_last()) {
            Some(v) => {
                if is_digit(ds.last()) && v * 10 + digit_val(ds.last()) <= u64::MAX {
                    Some((v * 10 + digit_val(ds.last())) as u64)
                } else {
                    None
                }
            },
            None => None,
        }
    }
}

/// Reads a number and returns it with the unread remainder.
pub open spec fn parse_num(s: Seq<char>) -> Option<(u64, Seq<char>)> {
    match split_at_semi(s) {
        Some(p) => match dec_val(p.0) {
            Some(v) => Some((v, p.1)),
            None => None,
        },
        None => None,
    }
}

/// Reads a length-prefixed string and returns it with the unread remainder.
pub open spec fn parse_str(s: Seq<char>) -> Option<(Seq<char>, Seq<char>)> {
    match parse_num(s) {
        Some((n, rest)) => {
            if n <= rest.len() {
                Some((rest.take(n as int), rest.skip(n as int)))
            } else {
                None
            }
        },
        None => None,
    }
}

/// Reads a capacity and returns it with the unread remainder.
pub open spec fn parse_capacity(s: Seq<char>) -> Option<(MemorySize, Seq<char>)> {
    if s.len() == 0 {
        None
    } else if s[0] == 'K' {
        match parse_num(s.drop_first()) {
            Some((n, rest)) => Some((MemorySize::KB(n), rest)),
            None => None,
        }
    } else if s[0] == 'M' {
        match parse_num(s.drop_first()) {
            Some((n, rest)) => Some((MemorySize::MB(n), rest)),
            None => None,
        }
    } else if s[0] == 'G' {
        match parse_num(s.drop_first()) {
            Some((n, rest)) => Some((MemorySize::GB(n), rest)),
            None => None,
        }
    } else {
        None
    }
}

/// Reads `k` strings and returns them with the unread remainder.
pub open spec fn parse_logs(s: Seq<char>, k: nat) -> Option<(Seq<Seq<char>>, Seq<char>)>
    decreases k,
{
    if k == 0 {
        Some((Seq::empty(), s))
    } else {
        match parse_str(s) {
            Some((t, rest)) => match parse_logs(rest, (k - 1) as nat) {
                Some(p) => Some((seq![t] + p.0, p.1)),
                None => None,
            },
            None => None,
        }
    }
}

/// Reads one tagged record and returns it with the unread remainder.
pub open spec fn parse_record(s: Seq<char>) -> Option<(ResourceView, Seq<char>)> {
    if s.len() == 0 {
        None
    } else if s[0] == 'T' {
        match parse_str(s.drop_first()) {
            Some((t, rest)) => Some((ResourceView::Text { text: t }, rest)),
            None => None,
        }
    } else if s[0] == 'S' {
        match parse_num(s.drop_first()) {
            Some((b, rest)) => Some((ResourceView::Sensor { bits: b }, rest)),
            None => None,
        }
    } else if s[0] == 'L' {
        match parse_num(s.drop_first()) {
            Some((k, rest)) => match parse_logs(rest, k as nat) {
                Some(p) => Some((ResourceView::Logs { entries: p.0 }, p.1)),
                None => None,
            },
            None => None,
        }
    } else {
        None
    }
}

/// Reads `k` key/record entries and returns them with the unread remainder.
pub open spec fn parse_entries(s: Seq<char>, k: nat) -> Option<
    (Seq<(Seq<char>, ResourceView)>, Seq<char>),
>
    decreases k,
{
    if k == 0 {
        Some((Seq::empty(), s))
    } else {
        match parse_str(s) {
            Some((key, rest)) => match parse_record(rest) {
                Some((r, rest2)) => match parse_entries(rest2, (k - 1) as nat) {
                    Some(p) => Some((seq![(key, r)] + p.0, p.1)),
                    None => None,
                },
                None => None,
            },
            None => None,
        }
    }
}

/// Reads a whole document; fails when any part is malformed or characters
/// remain after the last entry.
pub open spec fn parse_snapshot(s: Seq<char>) -> Option<VaultSnapshot> {
    match parse_str(s) {
        Some((loc, s1)) => match parse_capacity(s1) {
            Some((cap, s2)) => match parse_num(s2) {
                Some((k, s3)) => match parse_entries(s3, k as nat) {
                    Some((es, s4)) => {
                        if s4.len() == 0 {
                            Some(
                                VaultSnapshot {
                                    location: loc,
                                    storage_capacity: cap,
                                    resources: es,
                                },
                            )
                        } else {
                            None
                        }
                    },
                    None => None,
                },
                None => None,
            },
            None => None,
        },
        None => None,
    }
}

/// What loading a document yields: the parsed state, provided it is a
/// well-formed vault state; anything else is rejected.
pub open spec fn spec_load(s: Seq<char>) -> Option<VaultSnapshot> {
    match parse_snapshot(s) {
        Some(v) => {
            if v.wf() {
                Some(v)
            } else {
                None
            }
        },
        None => None,
    }
}

/// True when every length that the encoding writes as a number fits `u64`.
/// Values held in memory always satisfy this.
pub open spec fn record_bounded(r: ResourceView) -> bool {
    match r {
        ResourceView::Text { text } => text.len() <= u64::MAX,
        ResourceView::Sensor { .. } => true,
        ResourceView::Logs { entries } => entries.len() <= u64::MAX && (forall|i: int|
            0 <= i < entries.len() ==> (#[trigger] entries[i]).len() <= u64::MAX),
    }
}

/// True when every length in the snapshot fits `u64`; see `record_bounded`.
pub open spec fn snapshot_bounded(v: VaultSnapshot) -> bool {
    &&& v.location.len() <= u64::MAX
    &&& v.resources.len() <= u64::MAX
    &&& forall|i: int|
        0 <= i < v.resources.len() ==> (#[trigger] v.resources[i]).0.len() <= u64::MAX
            && record_bounded(v.resources[i].1)
}

// ---------------------------------------------------------------------------
// Reading inverts writing.
// ---------------------------------------------------------------------------
proof fn lemma_split_at_semi_enc(ds: Seq<char>, rest: Seq<char>)
    requires
        forall|i: int| 0 <= i < ds.len() ==> ds[i] != ';',
    ensures
        split_at_semi(ds + seq![';'] + rest) == Some((ds, rest)),
    decreases ds.len(),
{
    let s = ds + seq![';'] + rest;
    if ds.len() == 0 {
        assert(s[0] == ';');
        assert(s.drop_first() =~= rest);
        assert(Seq::<char>::empty() =~= ds);
    } else {
        assert(s[0] == ds[0]);
        assert(s.drop_first() =~= ds.drop_first() + seq![';'] + rest);
        lemma_split_at_semi_enc(ds.drop_first(), rest);
        assert(seq![s[0]] + ds.drop_first() =~= ds);
    }
}

proof fn lemma_dec_val_dec_str(n: u64)
    ensures
        dec_val(dec_str(n as nat)) == Some(n),
    decreases n,
{
    if n < 10 {
        assert(dec_str(n as nat) =~= seq![crate::text::digit_char(n as nat)]);
        assert(dec_str(n as nat).drop_last() =~= Seq::<char>::empty());
        assert(dec_val(Seq::<char>::empty()) == Some(0u64));
    } else {
        lemma_dec_val_dec_str(n / 10);
        assert((n as nat) / 10 == (n / 10) as nat);
        assert((n as nat) % 10 == (n % 10) as nat);
        assert(dec_str(n as nat).drop_last() =~= dec_str((n / 10) as nat));
        assert(dec_str(n as nat).last() == crate::text::digit_char((n % 10) as nat));
        lemma_fundamental_div_mod(n as int, 10);
        assert((n / 10) * 10 + digit_val(crate::text::digit_char((n % 10) as nat)) == n);
    }
}

proof fn lemma_parse_num_enc(n: u64, rest: Seq<char>)
    ensures
        parse_num(enc_num(n as nat) + rest) == Some((n, rest)),
{
    lemma_dec_str_digits(n as nat);
    assert forall|i: int| 0 <= i < dec_str(n as nat).len() implies dec_str(n as nat)[i] != ';' by {
        assert(is_digit(dec_str(n as nat)[i]));
    }
    lemma_split_at_semi_enc(dec_str(n as nat), rest);
    assert(enc_num(n as nat) + rest =~= dec_str(n as nat) + seq![';'] + rest);
    lemma_dec_val_dec_str(n);
}

proof fn lemma_parse_str_enc(t: Seq<char>, rest: Seq<char>)
    requires
        t.len() <= u64::MAX,
    ensures
        parse_str(enc_str(t) + rest) == Some((t, rest)),
{
    let n: u64 = t.len() as u64;
    lemma_parse_num_enc(n, t + rest);
    assert(enc_str(t) + rest =~= enc_num(n as nat) + (t + rest));
    assert((t + rest).take(n as int) =~= t);
    assert((t + rest).skip(n as int) =~= rest);
}

proof fn lemma_parse_capacity_enc(c: MemorySize, rest: Seq<char>)
    ensures
        parse_capacity(enc_capacity(c) + rest) == Some((c, rest)),
{
    let s = enc_capacity(c) + rest;
    match c {
        MemorySize::KB(n) => {
            assert(s[0] == 'K');
            assert(s.drop_first() =~= enc_num(n as nat) + rest);
            lemma_parse_num_enc(n, rest);
        },
        MemorySize::MB(n) => {
            assert(s[0] == 'M');
            assert(s.drop_first() =~= enc_num(n as nat) + rest);
            lemma_parse_num_enc(n, rest);
        },
        MemorySize::GB(n) => {
            assert(s[0] == 'G');
            assert(s.drop_first() =~= enc_num(n as nat) + rest);
            lemma_parse_num_enc(n, rest);
        },
    }
}

proof fn lemma_enc_logs_first(entries: Seq<Seq<char>>)
    requires
        entries.len() > 0,
    ensures
        enc_logs(entries) == enc_str(entries[0]) + enc_logs(entries.drop_first()),
    decreases entries.len(),
{
    if entries.len() == 1 {
        assert(entries.drop_last() =~= Seq::<Seq<char>>::empty());
        assert(entries.drop_first() =~= Seq::<Seq<char>>::empty());
        assert(Seq::<char>::empty() + enc_str(entries.last()) =~= enc_str(entries[0]) + Seq::<
            char,
        >::empty());
    } else {
        lemma_enc_logs_first(entries.drop_last());
        assert(entries.drop_last()[0] == entries[0]);
        assert(entries.drop_last().drop_first() =~= entries.drop_first().drop_last());
        assert(entries.drop_first().last() == entries.last());
        assert((enc_str(entries[0]) + enc_logs(entries.drop_first().drop_last())) + enc_str(
            entries.last(),
        ) =~= enc_str(entries[0]) + (enc_logs(entries.drop_first().drop_last()) + enc_str(
            entries.drop_first().last(),
        )));
    }
}

proof fn lemma_parse_logs_enc(entries: Seq<Seq<char>>, rest: Seq<char>)
    requires
        entries.len() <= u64::MAX,
        forall|i: int| 0 <= i < entries.len() ==> (#[trigger] entries[i]).len() <= u64::MAX,
    ensures
        parse_logs(enc_logs(entries) + rest, entries.len()) == Some((entries, rest)),
    decreases entries.len(),
{
    if entries.len() == 0 {
        assert(enc_logs(entries) + rest =~= rest);
        assert(Seq::<Seq<char>>::empty() =~= entries);
    } else {
        lemma_enc_logs_first(entries);
        lemma_parse_str_enc(entries[0], enc_logs(entries.drop_first()) + rest);
        assert(enc_logs(entries) + rest =~= enc_str(entries[0]) + (enc_logs(entries.drop_first())
            + rest));
        assert(forall|i: int|
            0 <= i < entries.drop_first().len() ==> (#[trigger] entries.drop_first()[i]).len()
                <= u64::MAX);
        lemma_parse_logs_enc(entries.drop_first(), rest);
        assert(seq![entries[0]] + entries.drop_first() =~= entries);
    }
}

proof fn lemma_parse_record_enc(r: ResourceView, rest: Seq<char>)
    requires
        record_bounded(r),
    ensures
        parse_record(enc_record(r) + rest) == Some((r, rest)),
{
    let s = enc_record(r) + rest;
    match r {
        ResourceView::Text { text } => {
            assert(s[0] == 'T');
            assert(s.drop_first() =~= enc_str(text) + rest);
            lemma_parse_str_enc(text, rest);
        },
        ResourceView::Sensor { bits } => {
            assert(s[0] == 'S');
            assert(s.drop_first() =~= enc_num(bits as nat) + rest);
            lemma_parse_num_enc(bits, rest);
        },
        ResourceView::Logs { entries } => {
            assert(s[0] == 'L');
            assert(s.drop_first() =~= enc_num(entries.len()) + (enc_logs(entries) + rest));
            let n: u64 = entries.len() as u64;
            lemma_parse_num_enc(n, enc_logs(entries) + rest);
            lemma_parse_logs_enc(entries, rest);
        },
    }
}

proof fn lemma_enc_entries_first(s: Seq<(Seq<char>, ResourceView)>)
    requires
        s.len() > 0,
    ensures
        enc_entries(s) == enc_str(s[0].0) + (enc_record(s[0].1) + enc_entries(s.drop_first())),
    decreases s.len(),
{
    if s.len() == 1 {
        assert(s.drop_last() =~= Seq::<(Seq<char>, ResourceView)>::empty());
        assert(s.drop_first() =~= Seq::<(Seq<char>, ResourceView)>::empty());
        assert(Seq::<char>::empty() + enc_str(s.last().0) + enc_record(s.last().1) =~= enc_str(
            s[0].0,
        ) + (enc_record(s[0].1) + Seq::<char>::empty()));
    } else {
        lemma_enc_entries_first(s.drop_last());
        assert(s.drop_last()[0] == s[0]);
        assert(s.drop_last().drop_first() =~= s.drop_first().drop_last());
        assert(s.drop_first().last() == s.last());
        assert((enc_str(s[0].0) + (enc_record(s[0].1) + enc_entries(s.drop_first().drop_last())))
            + enc_str(s.last().0) + enc_record(s.last().1) =~= enc_str(s[0].0) + (enc_record(
            s[0].1,
        ) + (enc_entries(s.drop_first().drop_last()) + enc_str(s.drop_first().last().0)
            + enc_record(s.drop_first().last().1))));
    }
}

proof fn lemma_parse_entries_enc(s: Seq<(Seq<char>, ResourceView)>, rest: Seq<char>)
    requires
        s.len() <= u64::MAX,
        forall|i: int|
            0 <= i < s.len() ==> (#[trigger] s[i]).0.len() <= u64::MAX && record_bounded(s[i].1),
    ensures
        parse_entries(enc_entries(s) + rest, s.len()) == Some((s, rest)),
    decreases s.len(),
{
    if s.len() == 0 {
        assert(enc_entries(s) + rest =~= rest);
        assert(Seq::<(Seq<char>, ResourceView)>::empty() =~= s);
    } else {
        lemma_enc_entries_first(s);
        lemma_parse_str_enc(s[0].0, enc_record(s[0].1) + (enc_entries(s.drop_first()) + rest));
        assert(enc_entries(s) + rest =~= enc_str(s[0].0) + (enc_record(s[0].1) + (enc_entries(
            s.drop_first(),
        ) + rest)));
        lemma_parse_record_enc(s[0].1, enc_entries(s.drop_first()) + rest);
        assert(forall|i: int|
            0 <= i < s.drop_first().len() ==> (#[trigger] s.drop_first()[i]).0.len() <= u64::MAX
                && record_bounded(s.drop_first()[i].1));
        lemma_parse_entries_enc(s.drop_first(), rest);
        assert(seq![s[0]] + s.drop_first() =~= s);
    }
}

/// Law: loading a saved document reproduces the vault state exactly — the
/// location, the capacity, and every key/record entry.
pub proof fn lemma_save_load_round_trip(v: VaultSnapshot)
    requires
        v.wf(),
        snapshot_bounded(v),
    ensures
        spec_load(enc_snapshot(v)) == Some(v),
{
    let r1 = enc_capacity(v.storage_capacity) + (enc_num(v.resources.len()) + enc_entries(
        v.resources,
    ));
    lemma_parse_str_enc(v.location, r1);
    assert(enc_snapshot(v) =~= enc_str(v.location) + r1);
    let r2 = enc_num(v.resources.len()) + enc_entries(v.resources);
    lemma_parse_capacity_enc(v.storage_capacity, r2);
    let n: u64 = v.resources.len() as u64;
    lemma_parse_num_enc(n, enc_entries(v.resources));
    lemma_parse_entries_enc(v.resources, Seq::empty());
    assert(enc_entries(v.resources) + Seq::<char>::empty() =~= enc_entries(v.resources));
    assert(parse_snapshot(enc_snapshot(v)) == Some(v));
}

// ---------------------------------------------------------------------------
// Facts the reading functions need about the split and the digit value.
// ---------------------------------------------------------------------------
proof fn lemma_split_none(t: Seq<char>)
    requires
        forall|k: int| 0 <= k < t.len() ==> t[k] != ';',
    ensures
        split_at_semi(t) is None,
    decreases t.len(),
{
    if t.len() > 0 {
        assert forall|k: int| 0 <= k < t.drop_first().len() implies t.drop_first()[k] != ';' by {
            assert(t.drop_first()[k] == t[k + 1]);
        }
        lemma_split_none(t.drop_first());
    }
}

proof fn lemma_split_found(s: Seq<char>, pos: int, j: int)
    requires
        0 <= pos <= j < s.len(),
        s[j] == ';',
        forall|k: int| pos <= k < j ==> s[k] != ';',
    ensures
        split_at_semi(s.skip(pos)) == Some((s.subrange(pos, j), s.skip(j + 1))),
{
    assert(s.skip(pos) =~= s.subrange(pos, j) + seq![';'] + s.skip(j + 1));
    assert forall|k: int| 0 <= k < s.subrange(pos, j).len() implies s.subrange(pos, j)[k]
        != ';' by {
        assert(s.subrange(pos, j)[k] == s[pos + k]);
    }
    lemma_split_at_semi_enc(s.subrange(pos, j), s.skip(j + 1));
}

proof fn lemma_split_characterize(t: Seq<char>)
    ensures
        match split_at_semi(t) {
            Some(p) => {
                &&& p.0.len() < t.len()
                &&& p.0 == t.take(p.0.len() as int)
                &&& t[p.0.len() as int] == ';'
                &&& p.1 == t.skip(p.0.len() as int + 1)
            },
            None => true,
        },
    decreases t.len(),
{
    if t.len() == 0 {
    } else if t[0] == ';' {
        assert(Seq::<char>::empty() =~= t.take(0));
        assert(t.drop_first() =~= t.skip(1));
    } else {
        lemma_split_characterize(t.drop_first());
        match split_at_semi(t.drop_first()) {
            Some(q) => {
                let p0 = seq![t[0]] + q.0;
                assert(p0 =~= t.take(p0.len() as int));
                assert(t[p0.len() as int] == t.drop_first()[q.0.len() as int]);
                assert(t.drop_first().skip(q.0.len() as int + 1) =~= t.skip(p0.len() as int + 1));
            },
            None => {},
        }
    }
}

proof fn lemma_dec_val_none_extend(p: Seq<char>, t: Seq<char>)
    requires
        dec_val(p) is None,
        p.len() <= t.len(),
        p == t.take(p.len() as int),
    ensures
        dec_val(t) is None,
    decreases t.len(),
{
    if t.len() == p.len() {
        assert(t =~= p);
    } else {
        assert(t.drop_last().take(p.len() as int) =~= t.take(p.len() as int));
        lemma_dec_val_none_extend(p, t.drop_last());
    }
}

proof fn lemma_not_num(s: Seq<char>, pos: int, i: int)
    requires
        0 <= pos <= i < s.len(),
        forall|k: int| pos <= k <= i ==> s[k] != ';',
        dec_val(s.subrange(pos, i + 1)) is None,
    ensures
        parse_num(s.skip(pos)) is None,
{
    match split_at_semi(s.skip(pos)) {
        Some(p) => {
            lemma_split_characterize(s.skip(pos));
            let l = p.0.len() as int;
            assert(s.skip(pos)[l] == ';');
            assert(s.skip(pos)[l] == s[pos + l]);
            assert(pos + l > i);
            assert(p.0.take(i + 1 - pos) =~= s.subrange(pos, i + 1));
            lemma_dec_val_none_extend(s.subrange(pos, i + 1), p.0);
        },
        None => {},
    }
}

// ---------------------------------------------------------------------------
// Reading the document. Each function reads at a character position and
// reports the value with the position after it, against the corresponding
// specification on the unread suffix.
// ---------------------------------------------------------------------------
fn parse_num_at(s: &str, pos: usize, len: usize) -> (r: Option<(u64, usize)>)
    requires
        pos <= s@.len(),
        len == s@.len(),
    ensures
        match r {
            Some(p) => pos <= p.1 <= s@.len() && parse_num(s@.skip(pos as int)) == Some(
                (p.0, s@.skip(p.1 as int)),
            ),
            None => parse_num(s@.skip(pos as int)) is None,
        },
{
    let mut i: usize = pos;
    let mut acc: u64 = 0;
    proof {
        assert(s@.subrange(pos as int, pos as int) =~= Seq::<char>::empty());
    }
    while i < len
        invariant
            pos <= i <= len,
            len == s@.len(),
            forall|k: int| pos <= k < i ==> s@[k] != ';',
            dec_val(s@.subrange(pos as int, i as int)) == Some(acc),
        decreases len - i,
    {
        let c = s.get_char(i);
        if c == ';' {
            proof {
                lemma_split_found(s@, pos as int, i as int);
            }
            return Some((acc, i + 1));
        }
        proof {
            assert(s@.subrange(pos as int, i as int + 1).drop_last() =~= s@.subrange(
                pos as int,
                i as int,
            ));
            assert(s@.subrange(pos as int, i as int + 1).last() == s@[i as int]);
        }
        let code = c as u32;
        if code < 48 || code > 57 {
            proof {
                assert(!is_digit(s@[i as int]));
                lemma_not_num(s@, pos as int, i as int);
            }
            return None;
        }
        let d = (code - 48) as u64;
        proof {
            assert(is_digit(s@[i as int]));
            assert(digit_val(s@[i as int]) == d as nat);
        }
        match acc.checked_mul(10) {
            Some(m) => {
                match m.checked_add(d) {
                    Some(v) => {
                        acc = v;
                    },
                    None => {
                        proof {
                            lemma_not_num(s@, pos as int, i as int);
                        }
                        return None;
                    },
                }
            },
            None => {
                proof {
                    lemma_not_num(s@, pos as int, i as int);
                }
                return None;
            },
        }
        i = i + 1;
    }
    proof {
        assert forall|k: int| 0 <= k < s@.skip(pos as int).len() implies s@.skip(pos as int)[k]
            != ';' by {
            assert(s@.skip(pos as int)[k] == s@[pos + k]);
        }
        lemma_split_none(s@.skip(pos as int));
    }
    None
}

fn parse_str_at(s: &str, pos: usize, len: usize) -> (r: Option<(String, usize)>)
    requires
        pos <= s@.len(),
        len == s@.len(),
    ensures
        match r {
            Some(p) => pos <= p.1 <= s@.len() && parse_str(s@.skip(pos as int)) == Some(
                (p.0@, s@.skip(p.1 as int)),
            ),
            None => parse_str(s@.skip(pos as int)) is None,
        },
{
    match parse_num_at(s, pos, len) {
        Some((n, p1)) => {
            let remaining = (len - p1) as u64;
            proof {
                assert(s@.skip(p1 as int).len() == len - p1);
            }
            if n > remaining {
                return None;
            }
            let nn = n as usize;
            let end = p1 + nn;
            let sub = s.substring_char(p1, end);
            let t = sub.to_owned();
            proof {
                assert(s@.skip(p1 as int).take(n as int) =~= s@.subrange(p1 as int, end as int));
                assert(s@.skip(p1 as int).skip(n as int) =~= s@.skip(end as int));
            }
            Some((t, end))
        },
        None => None,
    }
}

fn parse_capacity_at(s: &str, pos: usize, len: usize) -> (r: Option<(MemorySize, usize)>)
    requires
        pos <= s@.len(),
        len == s@.len(),
    ensures
        match r {
            Some(p) => pos <= p.1 <= s@.len() && parse_capacity(s@.skip(pos as int)) == Some(
                (p.0, s@.skip(p.1 as int)),
            ),
            None => parse_capacity(s@.skip(pos as int)) is None,
        },
{
    if pos == len {
        return None;
    }
    let c = s.get_char(pos);
    proof {
        assert(s@.skip(pos as int)[0] == s@[pos as int]);
        assert(s@.skip(pos as int).drop_first() =~= s@.skip(pos as int + 1));
    }
    if c == 'K' {
        match parse_num_at(s, pos + 1, len) {
            Some((n, p1)) => Some((MemorySize::KB(n), p1)),
            None => None,
        }
    } else if c == 'M' {
        match parse_num_at(s, pos + 1, len) {
            Some((n, p1)) => Some((MemorySize::MB(n), p1)),
            None => None,
        }
    } else if c == 'G' {
        match parse_num_at(s, pos + 1, len) {
            Some((n, p1)) => Some((MemorySize::GB(n), p1)),
            None => None,
        }
    } else {
        None
    }
}

fn parse_record_at(s: &str, pos: usize, len: usize) -> (r: Option<(Resource, usize)>)
    requires
        pos <= s@.len(),
        len == s@.len(),
    ensures
        match r {
            Some(p) => pos <= p.1 <= s@.len() && parse_record(s@.skip(pos as int)) == Some(
                (p.0@, s@.skip(p.1 as int)),
            ),
            None => parse_record(s@.skip(pos as int)) is None,
        },
{
    if pos == len {
        return None;
    }
    let c = s.get_char(pos);
    proof {
        assert(s@.skip(pos as int)[0] == s@[pos as int]);
        assert(s@.skip(pos as int).drop_first() =~= s@.skip(pos as int + 1));
    }
    if c == 'T' {
        match parse_str_at(s, pos + 1, len) {
            Some((t, p1)) => Some((Resource::TextMessage(t), p1)),
            None => None,
        }
    } else if c == 'S' {
        match parse_num_at(s, pos + 1, len) {
            Some((b, p1)) => Some((Resource::SensorData(b), p1)),
            None => None,
        }
    } else if c == 'L' {
        match parse_num_at(s, pos + 1, len) {
            Some((k, p1)) => {
                let mut logs: Vec<String> = Vec::new();
                let mut cur = p1;
                let mut j: u64 = 0;
                proof {
                    assert(logs.deep_view() =~= Seq::<Seq<char>>::empty());
                    assert(logs.deep_view() + Seq::<Seq<char>>::empty() =~= logs.deep_view());
                }
                while j < k
                    invariant
                        j <= k,
                        pos < p1 <= cur <= len,
                        len == s@.len(),
                        parse_record(s@.skip(pos as int)) == (match parse_logs(
                            s@.skip(p1 as int),
                            k as nat,
                        ) {
                            Some(q) => Some((ResourceView::Logs { entries: q.0 }, q.1)),
                            None => None::<(ResourceView, Seq<char>)>,
                        }),
                        parse_logs(s@.skip(p1 as int), k as nat) == (match parse_logs(
                            s@.skip(cur as int),
                            (k - j) as nat,
                        ) {
                            Some(q) => Some((logs.deep_view() + q.0, q.1)),
                            None => None::<(Seq<Seq<char>>, Seq<char>)>,
                        }),
                    decreases k - j,
                {
                    match parse_str_at(s, cur, len) {
                        Some((t, p2)) => {
                            let ghost pre = logs.deep_view();
                            logs.push(t);
                            proof {
                                assert(logs.deep_view() =~= pre.push(t@));
                                match parse_logs(s@.skip(p2 as int), (k - j - 1) as nat) {
                                    Some(q2) => {
                                        assert(pre + (seq![t@] + q2.0) =~= pre.push(t@) + q2.0);
                                    },
                                    None => {},
                                }
                            }
                            cur = p2;
                            j = j + 1;
                        },
                        None => {
                            return None;
                        },
                    }
                }
                proof {
                    assert(logs.deep_view() + Seq::<Seq<char>>::empty() =~= logs.deep_view());
                }
                Some((Resource::SystemLogs(logs), cur))
            },
            None => None,
        }
    } else {
        None
    }
}

fn parse_entries_at(s: &str, pos: usize, len: usize, k: u64) -> (r: Option<
    (Vec<(String, Resource)>, usize),
>)
    requires
        pos <= s@.len(),
        len == s@.len(),
    ensures
        match r {
            Some(p) => pos <= p.1 <= s@.len() && parse_entries(s@.skip(pos as int), k as nat)
                == Some((entries_view(p.0@), s@.skip(p.1 as int))),
            None => parse_entries(s@.skip(pos as int), k as nat) is None,
        },
{
    let mut entries: Vec<(String, Resource)> = Vec::new();
    let mut cur = pos;
    let mut j: u64 = 0;
    proof {
        assert(entries_view(entries@) =~= Seq::<(Seq<char>, ResourceView)>::empty());
        assert(entries_view(entries@) + Seq::<(Seq<char>, ResourceView)>::empty() =~= entries_view(
            entries@,
        ));
    }
    while j < k
        invariant
            j <= k,
            cur <= len,
            pos <= cur,
            len == s@.len(),
            parse_entries(s@.skip(pos as int), k as nat) == (match parse_entries(
                s@.skip(cur as int),
                (k - j) as nat,
            ) {
                Some(q) => Some((entries_view(entries@) + q.0, q.1)),
                None => None::<(Seq<(Seq<char>, ResourceView)>, Seq<char>)>,
            }),
        decreases k - j,
    {
        match parse_str_at(s, cur, len) {
            Some((key, p2)) => {
                match parse_record_at(s, p2, len) {
                    Some((record, p3)) => {
                        let ghost pre = entries_view(entries@);
                        let ghost kv = key@;
                        let ghost rv = record@;
                        entries.push((key, record));
                        proof {
                            assert(entries_view(entries@) =~= pre.push((kv, rv)));
                            match parse_entries(s@.skip(p3 as int), (k - j - 1) as nat) {
                                Some(q2) => {
                                    assert(pre + (seq![(kv, rv)] + q2.0) =~= pre.push((kv, rv))
                                        + q2.0);
                                },
                                None => {},
                            }
                        }
                        cur = p3;
                        j = j + 1;
                    },
                    None => {
                        return None;
                    },
                }
            },
            None => {
                return None;
            },
        }
    }
    proof {
        assert(entries_view(entries@) + Seq::<(Seq<char>, ResourceView)>::empty() =~= entries_view(
            entries@,
        ));
    }
    Some((entries, cur))
}

/// True exactly when no two entries share a key.
fn keys_unique(resources: &Vec<(String, Resource)>) -> (r: bool)
    ensures
        r == crate::vault::unique_keys(entries_view(resources@)),
{
    let ghost sv = entries_view(resources@);
    let mut i: usize = 0;
    while i < resources.len()
        invariant
            i <= resources@.len(),
            sv == entries_view(resources@),
            sv.len() == resources@.len(),
            forall|a: int, b: int| 0 <= a < b < sv.len() && a < i ==> (#[trigger] sv[a]).0 != (
            #[trigger] sv[b]).0,
        decreases resources@.len() - i,
    {
        let mut j: usize = i + 1;
        while j < resources.len()
            invariant
                i < j <= resources@.len(),
                sv == entries_view(resources@),
                sv.len() == resources@.len(),
                forall|b: int| i < b < j ==> (#[trigger] sv[b]).0 != sv[i as int].0,
            decreases resources@.len() - j,
        {
            let same = resources[i].0 == resources[j].0;
            if same {
                proof {
                    assert(sv[i as int].0 == resources@[i as int].0@);
                    assert(sv[j as int].0 == resources@[j as int].0@);
                }
                return false;
            }
            proof {
                assert(sv[j as int].0 == resources@[j as int].0@);
                assert(sv[i as int].0 == resources@[i as int].0@);
            }
            j = j + 1;
        }
        i = i + 1;
    }
    true
}

impl Vault {
    /// Reads a vault back from a flat text document. Succeeds exactly on a
    /// document that parses and describes a well-formed vault state; a
    /// malformed or invalid document is rejected as an I/O-class failure.
    pub fn load_from_string(s: &str) -> (result: Result<Vault, VaultError>)
        ensures
            match result {
                Ok(v) => v.wf() && spec_load(s@) == Some(v@),
                Err(e) => spec_load(s@) is None && e is IoFailure,
            },
    {
        let len = s.unicode_len();
        proof {
            assert(s@.skip(0) =~= s@);
        }
        let (location, p1) = match parse_str_at(s, 0, len) {
            Some(p) => p,
            None => {
                return Err(VaultError::IoFailure(String::from_str("malformed vault document")));
            },
        };
        let (capacity, p2) = match parse_capacity_at(s, p1, len) {
            Some(p) => p,
            None => {
                return Err(VaultError::IoFailure(String::from_str("malformed vault document")));
            },
        };
        let (count, p3) = match parse_num_at(s, p2, len) {
            Some(p) => p,
            None => {
                return Err(VaultError::IoFailure(String::from_str("malformed vault document")));
            },
        };
        let (resources, p4) = match parse_entries_at(s, p3, len, count) {
            Some(p) => p,
            None => {
                return Err(VaultError::IoFailure(String::from_str("malformed vault document")));
            },
        };
        if p4 < len {
            return Err(VaultError::IoFailure(String::from_str("malformed vault document")));
        }
        let ghost snapshot = VaultSnapshot {
            location: location@,
            storage_capacity: capacity,
            resources: entries_view(resources@),
        };
        proof {
            assert(s@.skip(p4 as int).len() == 0);
            assert(parse_snapshot(s@) == Some(snapshot));
        }
        let cap_bytes = match (match capacity {
            MemorySize::KB(n) => n.checked_mul(1024),
            MemorySize::MB(n) => n.checked_mul(1048576),
            MemorySize::GB(n) => n.checked_mul(1073741824),
        }) {
            Some(b) => b,
            None => {
                proof {
                    assert(!snapshot.wf());
                }
                return Err(VaultError::IoFailure(String::from_str("invalid vault document")));
            },
        };
        if !keys_unique(&resources) {
            proof {
                assert(!snapshot.wf());
            }
            return Err(VaultError::IoFailure(String::from_str("invalid vault document")));
        }
        let ghost sv = entries_view(resources@);
        let mut total: u64 = 0;
        let mut i: usize = 0;
        while i < resources.len()
            invariant
                i <= resources@.len(),
                sv == entries_view(resources@),
                sv.len() == resources@.len(),
                snapshot.resources == sv,
                snapshot.storage_capacity.byte_size_spec() == cap_bytes as int,
                parse_snapshot(s@) == Some(snapshot),
                total == crate::vault::total_size(sv.take(i as int)),
            decreases resources@.len() - i,
        {
            proof {
                crate::vault::lemma_total_size_take_succ(sv, i as int);
                assert(sv[i as int] == (resources@[i as int].0@, resources@[i as int].1@));
            }
            let sz = match resources[i].1.checked_size_bytes() {
                Some(sz) => sz,
                None => {
                    proof {
                        crate::vault::lemma_total_size_prefix(sv, i + 1);
                        assert(!snapshot.wf());
                    }
                    return Err(VaultError::IoFailure(String::from_str("invalid vault document")));
                },
            };
            match total.checked_add(sz) {
                Some(t2) => {
                    total = t2;
                },
                None => {
                    proof {
                        crate::vault::lemma_total_size_prefix(sv, i + 1);
                        assert(!snapshot.wf());
                    }
                    return Err(VaultError::IoFailure(String::from_str("invalid vault document")));
                },
            }
            i = i + 1;
        }
        proof {
            assert(sv.take(resources@.len() as int) =~= sv);
        }
        if total > cap_bytes {
            proof {
                assert(!snapshot.wf());
            }
            return Err(VaultError::IoFailure(String::from_str("invalid vault document")));
        }
        let vault = Vault { location, storage_capacity: capacity, resources };
        proof {
            assert(vault@ == snapshot);
            assert(vault.wf());
        }
        Ok(vault)
    }
}

// ---------------------------------------------------------------------------
// Writing the document.
// ---------------------------------------------------------------------------
fn push_num(out: &mut Vec<char>, n: u64)
    ensures
        final(out)@ == old(out)@ + enc_num(n as nat),
{
    let mut digits = dec_chars(n);
    out.append(&mut digits);
    out.push(';');
    proof {
        assert(out@ =~= old(out)@ + enc_num(n as nat));
    }
}

fn push_str_enc(out: &mut Vec<char>, s: &str)
    ensures
        final(out)@ == old(out)@ + enc_str(s@),
{
    let len = s.unicode_len();
    push_num(out, len as u64);
    let ghost base = out@;
    let mut i: usize = 0;
    while i < len
        invariant
            i <= len,
            len == s@.len(),
            out@ == base + s@.take(i as int),
        decreases len - i,
    {
        let c = s.get_char(i);
        out.push(c);
        proof {
            assert(base + s@.take(i as int) + seq![s@[i as int]] =~= base + s@.take(i + 1));
        }
        i = i + 1;
    }
    proof {
        assert(s@.take(len as int) =~= s@);
        assert(old(out)@ + enc_num(s@.len()) + s@ =~= old(out)@ + enc_str(s@));
    }
}

fn push_capacity(out: &mut Vec<char>, c: &MemorySize)
    ensures
        final(out)@ == old(out)@ + enc_capacity(*c),
{
    match c {
        MemorySize::KB(n) => {
            out.push('K');
            push_num(out, *n);
            proof {
                assert(old(out)@.push('K') + enc_num(*n as nat) =~= old(out)@ + enc_capacity(*c));
            }
        },
        MemorySize::MB(n) => {
            out.push('M');
            push_num(out, *n);
            proof {
                assert(old(out)@.push('M') + enc_num(*n as nat) =~= old(out)@ + enc_capacity(*c));
            }
        },
        MemorySize::GB(n) => {
            out.push('G');
            push_num(out, *n);
            proof {
                assert(old(out)@.push('G') + enc_num(*n as nat) =~= old(out)@ + enc_capacity(*c));
            }
        },
    }
}

fn push_record(out: &mut Vec<char>, r: &Resource)
    ensures
        final(out)@ == old(out)@ + enc_record(r@),
{
    match r {
        Resource::TextMessage(s) => {
            out.push('T');
            push_str_enc(out, s.as_str());
            proof {
                assert(old(out)@.push('T') + enc_str(s@) =~= old(out)@ + enc_record(r@));
            }
        },
        Resource::SensorData(bits) => {
            out.push('S');
            push_num(out, *bits);
            proof {
                assert(old(out)@.push('S') + enc_num(*bits as nat) =~= old(out)@ + enc_record(r@));
            }
        },
        Resource::SystemLogs(logs) => {
            out.push('L');
            push_num(out, logs.len() as u64);
            let ghost base = out@;
            let ghost entries = logs.deep_view();
            let mut i: usize = 0;
            while i < logs.len()
                invariant
                    i <= logs.len(),
                    entries == logs.deep_view(),
                    entries.len() == logs@.len(),
                    out@ == base + enc_logs(entries.take(i as int)),
                decreases logs.len() - i,
            {
                push_str_enc(out, logs[i].as_str());
                proof {
                    assert(entries.take(i + 1).drop_last() =~= entries.take(i as int));
                    assert(entries.take(i + 1).last() == entries[i as int]);
                    assert(entries[i as int] == logs@[i as int]@);
                    assert(base + enc_logs(entries.take(i as int)) + enc_str(logs@[i as int]@)
                        =~= base + enc_logs(entries.take(i + 1)));
                }
                i = i + 1;
            }
            proof {
                assert(entries.take(logs@.len() as int) =~= entries);
                assert(old(out)@.push('L') + enc_num(entries.len()) + enc_logs(entries) =~= old(
                    out,
                )@ + enc_record(r@));
            }
        },
    }
}

impl Vault {
    /// Writes the vault's full state — location, capacity, and every
    /// key/record entry — as a flat text document.
    pub fn save_to_string(&self) -> (out: String)
        ensures
            out@ == enc_snapshot(self@),
    {
        let mut buf: Vec<char> = Vec::new();
        push_str_enc(&mut buf, self.location.as_str());
        push_capacity(&mut buf, &self.storage_capacity);
        push_num(&mut buf, self.resources.len() as u64);
        let ghost base = buf@;
        let ghost sv = entries_view(self.resources@);
        let mut i: usize = 0;
        while i < self.resources.len()
            invariant
                i <= self.resources@.len(),
                sv == entries_view(self.resources@),
                sv.len() == self.resources@.len(),
                buf@ == base + enc_entries(sv.take(i as int)),
            decreases self.resources@.len() - i,
        {
            let ghost mid = buf@;
            push_str_enc(&mut buf, self.resources[i].0.as_str());
            push_record(&mut buf, &self.resources[i].1);
            proof {
                assert(sv.take(i + 1).drop_last() =~= sv.take(i as int));
                assert(sv.take(i + 1).last() == sv[i as int]);
                assert(sv[i as int] == (self.resources@[i as int].0@, self.resources@[i as int].1@));
                assert(base + enc_entries(sv.take(i as int)) + enc_str(self.resources@[i as int].0@)
                    + enc_record(self.resources@[i as int].1@) =~= base + enc_entries(
                    sv.take(i + 1),
                ));
            }
            i = i + 1;
        }
        proof {
            assert(sv.take(self.resources@.len() as int) =~= sv);
            assert(Seq::<char>::empty() + enc_str(self.location@) + enc_capacity(
                self.storage_capacity,
            ) + enc_num(sv.len()) + enc_logs(Seq::<Seq<char>>::empty()) =~= enc_str(self.location@)
                + enc_capacity(self.storage_capacity) + enc_num(sv.len()));
            assert(buf@ =~= enc_snapshot(self@));
        }
        chars_to_string(&buf)
    }
}

} // verus!
