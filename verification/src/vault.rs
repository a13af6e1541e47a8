//! The vault store: a keyed container of records that enforces a byte budget
//! and key uniqueness.

use vstd::prelude::*;
use crate::error::VaultError;
use crate::memory::MemorySize;
use crate::resource::Resource;
use crate::resource::ResourceView;

verus! {

/// The view of the vault's entry list: each stored pair as its key's
/// characters and its record's content, in insertion order.
pub open spec fn entries_view(s: Seq<(String, Resource)>) -> Seq<(Seq<char>, ResourceView)> {
    s.map_values(|p: (String, Resource)| (p.0@, p.1@))
}

/// The key-to-record mapping described by an entry list.
pub open spec fn map_of(s: Seq<(Seq<char>, ResourceView)>) -> Map<Seq<char>, ResourceView>
    decreases s.len(),
{
    if s.len() == 0 {
        Map::empty()
    } else {
        map_of(s.drop_last()).insert(s.last().0, s.last().1)
    }
}

/// The summed accounting size of all records in an entry list.
pub open spec fn total_size(s: Seq<(Seq<char>, ResourceView)>) -> nat
    decreases s.len(),
{
    if s.len() == 0 {
        0
    } else {
        total_size(s.drop_last()) + s.last().1.byte_size()
    }
}

/// No two entries of the list share a key.
pub open spec fn unique_keys(s: Seq<(Seq<char>, ResourceView)>) -> bool {
    forall|i: int, j: int| 0 <= i < j < s.len() ==> (#[trigger] s[i]).0 != (#[trigger] s[j]).0
}

/// How many entries hold a text message.
pub open spec fn count_texts(s: Seq<(Seq<char>, ResourceView)>) -> nat
    decreases s.len(),
{
    if s.len() == 0 {
        0
    } else {
        count_texts(s.drop_last()) + if s.last().1 is Text {
            1nat
        } else {
            0nat
        }
    }
}

/// How many entries hold a sensor reading.
pub open spec fn count_sensors(s: Seq<(Seq<char>, ResourceView)>) -> nat
    decreases s.len(),
{
    if s.len() == 0 {
        0
    } else {
        count_sensors(s.drop_last()) + if s.last().1 is Sensor {
            1nat
        } else {
            0nat
        }
    }
}

/// How many entries hold a log batch.
pub open spec fn count_logs(s: Seq<(Seq<char>, ResourceView)>) -> nat
    decreases s.len(),
{
    if s.len() == 0 {
        0
    } else {
        count_logs(s.drop_last()) + if s.last().1 is Logs {
            1nat
        } else {
            0nat
        }
    }
}

/// Extending a prefix of an entry list by one entry adds that record's size.
pub proof fn lemma_total_size_take_succ(s: Seq<(Seq<char>, ResourceView)>, i: int)
    requires
        0 <= i < s.len(),
    ensures
        total_size(s.take(i + 1)) == total_size(s.take(i)) + s[i].1.byte_size(),
{
    assert(s.take(i + 1).drop_last() =~= s.take(i));
    assert(s.take(i + 1).last() == s[i]);
}

/// No prefix of an entry list outweighs the whole list.
pub proof fn lemma_total_size_prefix(s: Seq<(Seq<char>, ResourceView)>, i: int)
    requires
        0 <= i <= s.len(),
    ensures
        total_size(s.take(i)) <= total_size(s),
    decreases s.len() - i,
{
    if i == s.len() {
        assert(s.take(i) =~= s);
    } else {
        lemma_total_size_take_succ(s, i);
        lemma_total_size_prefix(s, i + 1);
    }
}

/// An entry of a duplicate-free list is present in its mapping, under its key
/// and with its record.
pub proof fn lemma_map_of_index(s: Seq<(Seq<char>, ResourceView)>, i: int)
    requires
        0 <= i < s.len(),
        unique_keys(s),
    ensures
        map_of(s).contains_key(s[i].0),
        map_of(s)[s[i].0] == s[i].1,
    decreases s.len(),
{
    if i == s.len() - 1 {
    } else {
        assert(unique_keys(s.drop_last()));
        lemma_map_of_index(s.drop_last(), i);
        assert(s.drop_last()[i] == s[i]);
        assert(s[i].0 != s.last().0);
    }
}

/// A key that no entry carries is absent from the mapping.
pub proof fn lemma_map_of_absent(s: Seq<(Seq<char>, ResourceView)>, key: Seq<char>)
    requires
        forall|j: int| 0 <= j < s.len() ==> (#[trigger] s[j]).0 != key,
    ensures
        !map_of(s).contains_key(key),
    decreases s.len(),
{
    if s.len() > 0 {
        assert(s.last() == s[s.len() - 1]);
        lemma_map_of_absent(s.drop_last(), key);
    }
}

/// Law: appending an entry under a fresh key inserts exactly that pair into
/// the mapping, grows the total size by exactly that record's size, and keeps
/// the keys duplicate-free. With the contracts of `Vault::add` and
/// `Vault::get`, this is why a lookup after a successful insert returns the
/// inserted record and why usage grows by its reported size.
pub proof fn lemma_add_preserves(
    s: Seq<(Seq<char>, ResourceView)>,
    key: Seq<char>,
    r: ResourceView,
)
    requires
        unique_keys(s),
        forall|j: int| 0 <= j < s.len() ==> (#[trigger] s[j]).0 != key,
    ensures
        map_of(s.push((key, r))) == map_of(s).insert(key, r),
        map_of(s.push((key, r))).contains_key(key),
        map_of(s.push((key, r)))[key] == r,
        total_size(s.push((key, r))) == total_size(s) + r.byte_size(),
        unique_keys(s.push((key, r))),
{
    assert(s.push((key, r)).drop_last() =~= s);
    assert(s.push((key, r)).last() == (key, r));
    assert forall|i: int, j: int| 0 <= i < j < s.push((key, r)).len() implies (#[trigger] s.push(
        (key, r),
    )[i]).0 != (#[trigger] s.push((key, r))[j]).0 by {
        if j == s.len() {
            assert(s.push((key, r))[i] == s[i]);
        } else {
            assert(s.push((key, r))[i] == s[i]);
            assert(s.push((key, r))[j] == s[j]);
        }
    }
}

/// Law: removing the entry at an index of a duplicate-free list removes
/// exactly its key from the mapping, shrinks the total size by exactly its
/// record's size, and keeps the keys duplicate-free. With the contracts of
/// `Vault::remove` and `Vault::get`, this is why a lookup after a successful
/// removal finds nothing and why usage shrinks by the removed record's size.
pub proof fn lemma_remove_effects(s: Seq<(Seq<char>, ResourceView)>, i: int)
    requires
        unique_keys(s),
        0 <= i < s.len(),
    ensures
        unique_keys(s.remove(i)),
        map_of(s.remove(i)) == map_of(s).remove(s[i].0),
        !map_of(s.remove(i)).contains_key(s[i].0),
        total_size(s.remove(i)) + s[i].1.byte_size() == total_size(s),
    decreases s.len(),
{
    assert forall|a: int, b: int| 0 <= a < b < s.remove(i).len() implies (#[trigger] s.remove(
        i,
    )[a]).0 != (#[trigger] s.remove(i)[b]).0 by {
        let a0: int = if a < i {
            a
        } else {
            a + 1
        };
        let b0: int = if b < i {
            b
        } else {
            b + 1
        };
        assert(s.remove(i)[a] == s[a0]);
        assert(s.remove(i)[b] == s[b0]);
    }
    if i == s.len() - 1 {
        assert(s.remove(i) =~= s.drop_last());
        assert forall|j: int| 0 <= j < s.drop_last().len() implies (#[trigger] s.drop_last()[j]).0
            != s[i].0 by {
            assert(s.drop_last()[j] == s[j]);
        }
        lemma_map_of_absent(s.drop_last(), s[i].0);
        assert(map_of(s.drop_last()) =~= map_of(s.drop_last()).insert(s.last().0, s.last().1).remove(
            s[i].0,
        ));
    } else {
        assert(unique_keys(s.drop_last()));
        lemma_remove_effects(s.drop_last(), i);
        assert(s.drop_last()[i] == s[i]);
        assert(s.remove(i).drop_last() =~= s.drop_last().remove(i));
        assert(s.remove(i).last() == s.last());
        assert(map_of(s.remove(i)) == map_of(s.drop_last().remove(i)).insert(
            s.last().0,
            s.last().1,
        ));
        assert(s[i].0 != s.last().0);
        assert(map_of(s.drop_last()).remove(s[i].0).insert(s.last().0, s.last().1) =~= map_of(
            s.drop_last(),
        ).insert(s.last().0, s.last().1).remove(s[i].0));
    }
}

/// The persisted-form mirror of a vault's state: its label, its declared
/// capacity, and its entries as plain sequences. This is what the vault's
/// contracts and the persistence adapter speak about.
pub struct VaultSnapshot {
    pub location: Seq<char>,
    pub storage_capacity: MemorySize,
    pub resources: Seq<(Seq<char>, ResourceView)>,
}

impl VaultSnapshot {
    /// The summed accounting size of all stored records.
    pub open spec fn usage(self) -> nat {
        total_size(self.resources)
    }

    /// The key-to-record mapping of the stored entries.
    pub open spec fn resource_map(self) -> Map<Seq<char>, ResourceView> {
        map_of(self.resources)
    }

    /// Well-formedness: the capacity is computable in bytes, no key repeats,
    /// and the stored records fit the byte budget.
    pub open spec fn wf(self) -> bool {
        &&& self.storage_capacity.fits_u64()
        &&& unique_keys(self.resources)
        &&& self.usage() <= self.storage_capacity.byte_size_spec()
    }
}

/// Law: capacity is inclusive. In an empty vault, a record of size exactly
/// the capacity meets `add`'s acceptance condition, while any larger record
/// falls into its `VaultFull` branch, whose contract leaves the vault
/// unchanged.
pub proof fn lemma_capacity_boundary(v: VaultSnapshot, r: ResourceView)
    requires
        v.usage() == 0,
    ensures
        v.usage() + r.byte_size() <= v.storage_capacity.byte_size_spec() <==> r.byte_size()
            <= v.storage_capacity.byte_size_spec(),
{
}

/// A capacity-bounded, keyed store of records.
///
/// Keys are unique strings; every record is owned by the vault's entry list
/// and accounted against the byte budget that the declared capacity allows.
pub struct Vault {
    pub location: String,
    pub storage_capacity: MemorySize,
    pub resources: Vec<(String, Resource)>,
}

/// A breakdown of the stored records by variant.
#[derive(Debug, Clone, Copy, PartialEq, Eq, Structural)]
pub struct VaultSummary {
    pub text_messages: usize,
    pub sensor_data: usize,
    pub system_logs: usize,
}

/// A plain description of a vault's current state.
#[derive(Debug, Clone)]
pub struct VaultMetadata {
    pub location: String,
    pub storage_capacity: MemorySize,
    pub current_usage: u64,
    pub resource_count: usize,
}

impl View for Vault {
    type V = VaultSnapshot;

    open spec fn view(&self) -> VaultSnapshot {
        VaultSnapshot {
            location: self.location@,
            storage_capacity: self.storage_capacity,
            resources: entries_view(self.resources@),
        }
    }
}

/// The index of the entry that holds `key`, if any.
fn find_key(resources: &Vec<(String, Resource)>, key: &String) -> (r: Option<usize>)
    ensures
        match r {
            Some(i) => i < resources@.len() && resources@[i as int].0@ == key@,
            None => forall|j: int| 0 <= j < resources@.len() ==> (#[trigger] resources@[j]).0@
                != key@,
        },
{
    let mut i: usize = 0;
    while i < resources.len()
        invariant
            i <= resources@.len(),
            forall|j: int| 0 <= j < i ==> (#[trigger] resources@[j]).0@ != key@,
        decreases resources@.len() - i,
    {
        let same = resources[i].0 == *key;
        if same {
            return Some(i);
        }
        i = i + 1;
    }
    None
}

impl Vault {
    /// Well-formedness of the store; established by `new` and `load_from_string`
    /// and preserved by every operation.
    pub open spec fn wf(self) -> bool {
        self@.wf()
    }

    /// Creates an empty vault with the given label and capacity.
    pub fn new(location: String, capacity: MemorySize) -> (vault: Vault)
        requires
            capacity.fits_u64(),
        ensures
            vault.wf(),
            vault@.location == location@,
            vault@.storage_capacity == capacity,
            vault@.resources =~= Seq::<(Seq<char>, ResourceView)>::empty(),
            vault@.usage() == 0,
            vault@.resource_map() =~= Map::<Seq<char>, ResourceView>::empty(),
    {
        let vault = Vault { location, storage_capacity: capacity, resources: Vec::new() };
        proof {
            assert(vault@.resources =~= Seq::<(Seq<char>, ResourceView)>::empty());
        }
        vault
    }

    /// The summed accounting size, in bytes, of all records currently stored.
    /// Recomputed on demand, so it always reflects the true current state.
    pub fn current_usage(&self) -> (usage: u64)
        requires
            self.wf(),
        ensures
            usage == self@.usage(),
    {
        let ghost sv = entries_view(self.resources@);
        let mut total: u64 = 0;
        let mut i: usize = 0;
        while i < self.resources.len()
            invariant
                i <= self.resources@.len(),
                sv == entries_view(self.resources@),
                sv.len() == self.resources@.len(),
                total_size(sv) <= u64::MAX,
                total == total_size(sv.take(i as int)),
            decreases self.resources@.len() - i,
        {
            proof {
                lemma_total_size_take_succ(sv, i as int);
                lemma_total_size_prefix(sv, i + 1);
                assert(sv[i as int] == (self.resources@[i as int].0@, self.resources@[i as int].1@));
                assert(total_size(sv.take(i as int)) >= 0);
            }
            total = total + self.resources[i].1.size_bytes();
            i = i + 1;
        }
        proof {
            assert(sv.take(self.resources@.len() as int) =~= sv);
        }
        total
    }

    /// Stores `resource` under `key`. Fails with `VaultFull` when the record
    /// would push usage past the capacity (exact equality is allowed), and
    /// otherwise with `DuplicateKey` when the key is already present; a
    /// failed insert leaves the vault unchanged. The capacity check comes
    /// strictly before the uniqueness check.
    pub fn add(&mut self, key: String, resource: Resource) -> (result: Result<(), VaultError>)
        requires
            old(self).wf(),
            resource.fits_u64(),
        ensures
            final(self).wf(),
            final(self)@.location == old(self)@.location,
            final(self)@.storage_capacity == old(self)@.storage_capacity,
            ({
                let size = resource@.byte_size();
                let cap = old(self)@.storage_capacity.byte_size_spec();
                if old(self)@.usage() + size > cap {
                    &&& result matches Err(VaultError::VaultFull { capacity, current, new_size })
                        && capacity == cap && current == old(self)@.usage() && new_size == size
                    &&& *final(self) == *old(self)
                } else if old(self)@.resource_map().contains_key(key@) {
                    &&& result matches Err(VaultError::DuplicateKey(k)) && k@ == key@
                    &&& *final(self) == *old(self)
                } else {
                    &&& result is Ok
                    &&& final(self)@.resources == old(self)@.resources.push((key@, resource@))
                    &&& final(self)@.resource_map() == old(self)@.resource_map().insert(
                        key@,
                        resource@,
                    )
                    &&& final(self)@.resource_map()[key@] == resource@
                    &&& final(self)@.usage() == old(self)@.usage() + size
                }
            }),
    {
        let size = resource.size_bytes();
        let current = self.current_usage();
        let capacity = self.storage_capacity.size_bytes();

        if size > capacity || current > capacity - size {
            return Err(VaultError::VaultFull { capacity, current, new_size: size });
        }
        match find_key(&self.resources, &key) {
            Some(i) => {
                proof {
                    assert(entries_view(self.resources@)[i as int].0 == key@);
                    lemma_map_of_index(entries_view(self.resources@), i as int);
                }
                Err(VaultError::DuplicateKey(key))
            },
            None => {
                proof {
                    assert forall|j: int|
                        0 <= j < entries_view(self.resources@).len() implies (
                    #[trigger] entries_view(self.resources@)[j]).0 != key@ by {
                        assert(entries_view(self.resources@)[j].0 == self.resources@[j].0@);
                    }
                    lemma_map_of_absent(entries_view(self.resources@), key@);
                    lemma_add_preserves(entries_view(self.resources@), key@, resource@);
                }
                let ghost old_entries = entries_view(self.resources@);
                self.resources.push((key, resource));
                proof {
                    assert(entries_view(self.resources@) =~= old_entries.push((key@, resource@)));
                }
                Ok(())
            },
        }
    }

    /// Looks the key up; absence is not an error.
    pub fn get(&self, key: &String) -> (result: Option<&Resource>)
        requires
            self.wf(),
        ensures
            match result {
                Some(r) => self@.resource_map().contains_key(key@) && r@
                    == self@.resource_map()[key@],
                None => !self@.resource_map().contains_key(key@),
            },
    {
        match find_key(&self.resources, key) {
            Some(i) => {
                proof {
                    assert(entries_view(self.resources@)[i as int] == (
                        self.resources@[i as int].0@,
                        self.resources@[i as int].1@,
                    ));
                    lemma_map_of_index(entries_view(self.resources@), i as int);
                }
                Some(&self.resources[i].1)
            },
            None => {
                proof {
                    assert forall|j: int|
                        0 <= j < entries_view(self.resources@).len() implies (
                    #[trigger] entries_view(self.resources@)[j]).0 != key@ by {
                        assert(entries_view(self.resources@)[j].0 == self.resources@[j].0@);
                    }
                    lemma_map_of_absent(entries_view(self.resources@), key@);
                }
                None
            },
        }
    }

    /// Removes the record stored under `key` and hands it back; fails with
    /// `ResourceNotFound` when the key is absent, leaving the vault unchanged.
    pub fn remove(&mut self, key: &String) -> (result: Result<Resource, VaultError>)
        requires
            old(self).wf(),
        ensures
            final(self).wf(),
            final(self)@.location == old(self)@.location,
            final(self)@.storage_capacity == old(self)@.storage_capacity,
            ({
                if old(self)@.resource_map().contains_key(key@) {
                    &&& result matches Ok(r) && r@ == old(self)@.resource_map()[key@]
                        && final(self)@.usage() + r@.byte_size() == old(self)@.usage()
                    &&& final(self)@.resource_map() == old(self)@.resource_map().remove(key@)
                    &&& !final(self)@.resource_map().contains_key(key@)
                } else {
                    &&& result matches Err(VaultError::ResourceNotFound(k)) && k@ == key@
                    &&& *final(self) == *old(self)
                }
            }),
    {
        match find_key(&self.resources, key) {
            Some(i) => {
                proof {
                    let sv = entries_view(self.resources@);
                    assert(sv[i as int] == (self.resources@[i as int].0@, self.resources@[i as int].1@));
                    lemma_map_of_index(sv, i as int);
                    lemma_remove_effects(sv, i as int);
                }
                let ghost old_entries = entries_view(self.resources@);
                let entry = self.resources.remove(i);
                proof {
                    assert(entries_view(self.resources@) =~= old_entries.remove(i as int));
                }
                Ok(entry.1)
            },
            None => {
                proof {
                    assert forall|j: int|
                        0 <= j < entries_view(self.resources@).len() implies (
                    #[trigger] entries_view(self.resources@)[j]).0 != key@ by {
                        assert(entries_view(self.resources@)[j].0 == self.resources@[j].0@);
                    }
                    lemma_map_of_absent(entries_view(self.resources@), key@);
                }
                Err(VaultError::ResourceNotFound(key.clone()))
            },
        }
    }

    /// Counts the stored records by variant. A pure read: no mutation, and
    /// the result is determined by the record set alone.
    pub fn summary(&self) -> (counts: VaultSummary)
        ensures
            counts.text_messages == count_texts(self@.resources),
            counts.sensor_data == count_sensors(self@.resources),
            counts.system_logs == count_logs(self@.resources),
    {
        let ghost sv = entries_view(self.resources@);
        let mut text_messages: usize = 0;
        let mut sensor_data: usize = 0;
        let mut system_logs: usize = 0;
        let mut i: usize = 0;
        while i < self.resources.len()
            invariant
                i <= self.resources@.len(),
                sv == entries_view(self.resources@),
                sv.len() == self.resources@.len(),
                text_messages == count_texts(sv.take(i as int)),
                sensor_data == count_sensors(sv.take(i as int)),
                system_logs == count_logs(sv.take(i as int)),
                text_messages <= i && sensor_data <= i && system_logs <= i,
            decreases self.resources@.len() - i,
        {
            proof {
                assert(sv.take(i + 1).drop_last() =~= sv.take(i as int));
                assert(sv.take(i + 1).last() == sv[i as int]);
                assert(sv[i as int] == (self.resources@[i as int].0@, self.resources@[i as int].1@));
            }
            match &self.resources[i].1 {
                Resource::TextMessage(_) => {
                    text_messages = text_messages + 1;
                },
                Resource::SensorData(_) => {
                    sensor_data = sensor_data + 1;
                },
                Resource::SystemLogs(_) => {
                    system_logs = system_logs + 1;
                },
            }
            i = i + 1;
        }
        proof {
            assert(sv.take(self.resources@.len() as int) =~= sv);
        }
        VaultSummary { text_messages, sensor_data, system_logs }
    }

    /// A plain description of the vault's current state.
    pub fn metadata(&self) -> (m: VaultMetadata)
        requires
            self.wf(),
        ensures
            m.location@ == self@.location,
            m.storage_capacity == self@.storage_capacity,
            m.current_usage == self@.usage(),
            m.resource_count == self@.resources.len(),
    {
        VaultMetadata {
            location: self.location.clone(),
            storage_capacity: self.storage_capacity,
            current_usage: self.current_usage(),
            resource_count: self.resources.len(),
        }
    }
}

} // verus!
