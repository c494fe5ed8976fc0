//! The per-batch map from each key of a batch to its value as the batch is
//! applied, kept in an `IndexMap` so that keys stay in first-seen order.
use crate::codec::{copy_value, option_view, UpsertKey, UpsertValue, ValueView};
use crate::state::{lemma_put_all_distinct, put_all, StateMap};
use indexmap::IndexMap;
use vstd::prelude::*;

verus! {

#[verifier::external_type_specification]
#[verifier::external_body]
#[verifier::reject_recursive_types(K)]
#[verifier::reject_recursive_types(V)]
#[verifier::reject_recursive_types(S)]
pub struct ExIndexMap<K, V, S>(IndexMap<K, V, S>);

/// The entries of an index map, in their order: each key with its value.
pub uninterp spec fn slot_entries(m: IndexMap<[u8; 32], Option<UpsertValue>>) -> Seq<(Seq<u8>, Option<ValueView>)>;

/// No key occurs twice among `e`.
pub open spec fn unique_keys(e: Seq<(Seq<u8>, Option<ValueView>)>) -> bool {
    forall|i: int, j: int| 0 <= i < j < e.len() ==> (#[trigger] e[i]).0 != (#[trigger] e[j]).0
}

/// Relies on `IndexMap::new`: a new map has no entries.
#[verifier::external_body]
fn index_new() -> (r: IndexMap<[u8; 32], Option<UpsertValue>>)
    ensures
        slot_entries(r) == Seq::<(Seq<u8>, Option<ValueView>)>::empty(),
{
    IndexMap::new()
}

/// Relies on `IndexMap::insert`: a key already present keeps its place and
/// takes the new value; another key is added last. Keys stay unique.
#[verifier::external_body]
fn index_insert(m: &mut IndexMap<[u8; 32], Option<UpsertValue>>, key: [u8; 32], value: Option<UpsertValue>)
    requires
        unique_keys(slot_entries(*old(m))),
    ensures
        unique_keys(slot_entries(*final(m))),
        forall|i: int| 0 <= i < slot_entries(*old(m)).len() && (#[trigger] slot_entries(*old(m))[i]).0 == key@
            ==> slot_entries(*final(m)) == slot_entries(*old(m)).update(i, (key@, option_view(value))),
        (forall|i: int| 0 <= i < slot_entries(*old(m)).len() ==> (#[trigger] slot_entries(*old(m))[i]).0 != key@)
            ==> slot_entries(*final(m)) == slot_entries(*old(m)).push((key@, option_view(value))),
{
    m.insert(key, value);
}

/// Relies on `IndexMap::get`: the value stored for `key`, if it is present.
#[verifier::external_body]
fn index_get(m: &IndexMap<[u8; 32], Option<UpsertValue>>, key: [u8; 32]) -> (r: Option<&Option<UpsertValue>>)
    ensures
        forall|i: int| 0 <= i < slot_entries(*m).len() && (#[trigger] slot_entries(*m)[i]).0 == key@
            ==> r is Some && option_view(*r.unwrap()) == slot_entries(*m)[i].1,
        (forall|i: int| 0 <= i < slot_entries(*m).len() ==> (#[trigger] slot_entries(*m)[i]).0 != key@) ==> r is None,
{
    m.get(&key)
}

/// Relies on `IndexMap::keys`: the keys, in their order.
#[verifier::external_body]
fn index_keys(m: &IndexMap<[u8; 32], Option<UpsertValue>>) -> (r: Vec<[u8; 32]>)
    ensures
        r@.len() == slot_entries(*m).len(),
        forall|i: int| 0 <= i < r@.len() ==> (#[trigger] r@[i])@ == slot_entries(*m)[i].0,
{
    m.keys().copied().collect()
}

/// Relies on `IndexMap::drain` over the full range: every entry, in order,
/// leaving the map empty.
#[verifier::external_body]
fn index_drain(m: &mut IndexMap<[u8; 32], Option<UpsertValue>>) -> (r: Vec<([u8; 32], Option<UpsertValue>)>)
    ensures
        slot_entries(*final(m)) == Seq::<(Seq<u8>, Option<ValueView>)>::empty(),
        r@.len() == slot_entries(*old(m)).len(),
        forall|i: int| 0 <= i < r@.len() ==> ((#[trigger] r@[i]).0@, option_view(r@[i].1)) == slot_entries(*old(m))[i],
{
    m.drain(..).collect()
}

/// Keys with a value slot each, in first-seen order. A key whose slot is
/// empty has no value.
pub struct ScratchMap {
    slots: IndexMap<[u8; 32], Option<UpsertValue>>,
}

impl ScratchMap {
    pub closed spec fn entries(&self) -> Seq<(Seq<u8>, Option<ValueView>)> {
        slot_entries(self.slots)
    }

    pub closed spec fn wf(&self) -> bool {
        unique_keys(self.entries())
    }

    /// The keys with a slot, in first-seen order.
    pub closed spec fn keys_view(&self) -> Seq<Seq<u8>> {
        self.entries().map_values(|e: (Seq<u8>, Option<ValueView>)| e.0)
    }

    /// The value of each key whose slot holds one.
    pub closed spec fn view(&self) -> StateMap {
        put_all(Map::empty(), self.entries())
    }

    proof fn lemma_view(&self, k: Seq<u8>)
        requires
            self.wf(),
        ensures
            forall|i: int| 0 <= i < self.entries().len() && (#[trigger] self.entries()[i]).0 == k ==> match self.entries()[i].1 {
                Some(v) => self.view().contains_key(k) && self.view()[k] == v,
                None => !self.view().contains_key(k),
            },
            (forall|i: int| 0 <= i < self.entries().len() ==> (#[trigger] self.entries()[i]).0 != k) ==> !self.view().contains_key(k),
    {
        lemma_put_all_distinct(Map::empty(), self.entries(), k);
    }

    pub fn new() -> (r: ScratchMap)
        ensures
            r.wf(),
            r.keys_view() == Seq::<Seq<u8>>::empty(),
            r.view() == Map::<Seq<u8>, ValueView>::empty(),
    {
        let r = ScratchMap { slots: index_new() };
        assert(r.keys_view() =~= Seq::<Seq<u8>>::empty());
        r
    }

    /// Gives `key` a slot, empty, unless it has one.
    pub fn reserve(&mut self, key: &UpsertKey)
        requires
            old(self).wf(),
        ensures
            final(self).wf(),
            final(self).view() == old(self).view(),
            old(self).keys_view().contains(key@) ==> final(self).keys_view() == old(self).keys_view(),
            !old(self).keys_view().contains(key@) ==> final(self).keys_view() == old(self).keys_view().push(key@),
    {
        let d = key.digest();
        let present = match index_get(&self.slots, d) {
            Some(_) => true,
            None => false,
        };
        proof {
            if old(self).keys_view().contains(key@) {
                let i = choose|i: int| 0 <= i < old(self).keys_view().len() && old(self).keys_view()[i] == key@;
                assert(old(self).entries()[i].0 == key@);
            }
            if present {
                assert(old(self).keys_view().contains(key@)) by {
                    let i = choose|i: int| 0 <= i < old(self).entries().len() && (#[trigger] old(self).entries()[i]).0 == key@;
                    assert(old(self).keys_view()[i] == key@);
                }
            }
        }
        if !present {
            index_insert(&mut self.slots, d, None);
            proof {
                let e0 = old(self).entries();
                let e1 = self.entries();
                assert(e1 == e0.push((key@, None::<ValueView>)));
                assert(self.keys_view() =~= old(self).keys_view().push(key@));
                assert(e1.drop_last() =~= e0);
                self.lemma_view(key@);
                old(self).lemma_view(key@);
                assert(self.view() =~= old(self).view().remove(key@));
                assert(self.view() =~= old(self).view());
            }
        }
    }

    /// The value of `key`, if its slot holds one.
    pub fn get(&self, key: &UpsertKey) -> (r: Option<UpsertValue>)
        requires
            self.wf(),
        ensures
            option_view(r) == (if self.view().contains_key(key@) {
                Some(self.view()[key@])
            } else {
                None::<ValueView>
            }),
    {
        let d = key.digest();
        proof {
            self.lemma_view(key@);
        }
        match index_get(&self.slots, d) {
            Some(Some(v)) => Some(copy_value(v)),
            _ => None,
        }
    }

    /// Fills the slot of `key` with `value`; `None` empties it.
    pub fn put(&mut self, key: UpsertKey, value: Option<UpsertValue>)
        requires
            old(self).wf(),
        ensures
            final(self).wf(),
            final(self).view() == (match option_view(value) {
                Some(v) => old(self).view().insert(key@, v),
                None => old(self).view().remove(key@),
            }),
            old(self).keys_view().contains(key@) ==> final(self).keys_view() == old(self).keys_view(),
    {
        let ghost nv = option_view(value);
        index_insert(&mut self.slots, key.digest(), value);
        proof {
            let e0 = old(self).entries();
            let e1 = self.entries();
            let target = match nv {
                Some(v) => old(self).view().insert(key@, v),
                None => old(self).view().remove(key@),
            };
            assert forall|k: Seq<u8>| #[trigger] self.view().contains_key(k) == target.contains_key(k)
                && (target.contains_key(k) ==> self.view()[k] == target[k]) by {
                self.lemma_view(k);
                old(self).lemma_view(k);
                if exists|i: int| 0 <= i < e0.len() && (#[trigger] e0[i]).0 == key@ {
                    let i = choose|i: int| 0 <= i < e0.len() && (#[trigger] e0[i]).0 == key@;
                    assert(e1 == e0.update(i, (key@, nv)));
                    assert(e1[i].0 == key@);
                    if k != key@ {
                        if exists|j: int| 0 <= j < e0.len() && (#[trigger] e0[j]).0 == k {
                            let j = choose|j: int| 0 <= j < e0.len() && (#[trigger] e0[j]).0 == k;
                            assert(e1[j] == e0[j]);
                        } else {
                            assert forall|j: int| 0 <= j < e1.len() implies (#[trigger] e1[j]).0 != k by {
                                if j != i {
                                    assert(e1[j] == e0[j]);
                                }
                            }
                        }
                    }
                } else {
                    assert(e1 == e0.push((key@, nv)));
                    assert(e1[e0.len() as int].0 == key@);
                    if k != key@ {
                        if exists|j: int| 0 <= j < e0.len() && (#[trigger] e0[j]).0 == k {
                            let j = choose|j: int| 0 <= j < e0.len() && (#[trigger] e0[j]).0 == k;
                            assert(e1[j] == e0[j]);
                        } else {
                            assert forall|j: int| 0 <= j < e1.len() implies (#[trigger] e1[j]).0 != k by {
                                if j < e0.len() {
                                    assert(e1[j] == e0[j]);
                                }
                            }
                        }
                    }
                }
            }
            assert(self.view() =~= target);
            if old(self).keys_view().contains(key@) {
                let i = choose|i: int| 0 <= i < old(self).keys_view().len() && old(self).keys_view()[i] == key@;
                assert(e0[i].0 == key@);
                assert(e1 == e0.update(i, (key@, nv)));
                assert(self.keys_view() =~= old(self).keys_view());
            }
        }
    }

    /// The keys with a slot, in first-seen order.
    pub fn keys(&self) -> (r: Vec<UpsertKey>)
        requires
            self.wf(),
        ensures
            r@.map_values(|k: UpsertKey| k@) == self.keys_view(),
            forall|x: int, y: int| 0 <= x < y < r@.len() ==> (#[trigger] r@[x])@ != (#[trigger] r@[y])@,
    {
        let ds = index_keys(&self.slots);
        let mut r: Vec<UpsertKey> = Vec::new();
        let mut i: usize = 0;
        while i < ds.len()
            invariant
                0 <= i <= ds@.len(),
                ds@.len() == self.entries().len(),
                forall|j: int| 0 <= j < ds@.len() ==> (#[trigger] ds@[j])@ == self.entries()[j].0,
                r@.len() == i,
                forall|j: int| 0 <= j < i ==> (#[trigger] r@[j])@ == ds@[j]@,
            decreases ds.len() - i,
        {
            r.push(UpsertKey::from_digest(ds[i]));
            i = i + 1;
        }
        assert(r@.map_values(|k: UpsertKey| k@) =~= self.keys_view());
        assert forall|x: int, y: int| 0 <= x < y < r@.len() implies (#[trigger] r@[x])@ != (#[trigger] r@[y])@ by {
            assert(self.entries()[x].0 != self.entries()[y].0);
        }
        r
    }

    /// Takes every key with its slot out, in first-seen order.
    pub fn drain(&mut self) -> (r: Vec<(UpsertKey, Option<UpsertValue>)>)
        requires
            old(self).wf(),
        ensures
            final(self).wf(),
            final(self).view() == Map::<Seq<u8>, ValueView>::empty(),
            r@.len() == old(self).keys_view().len(),
            forall|i: int| 0 <= i < r@.len() ==> (#[trigger] r@[i]).0@ == old(self).keys_view()[i] && option_view(r@[i].1) == (
            if old(self).view().contains_key(old(self).keys_view()[i]) {
                Some(old(self).view()[old(self).keys_view()[i]])
            } else {
                None::<ValueView>
            }),
    {
        let ghost e0 = self.entries();
        let mut drained = index_drain(&mut self.slots);
        let mut r: Vec<(UpsertKey, Option<UpsertValue>)> = Vec::new();
        let mut rest: Vec<([u8; 32], Option<UpsertValue>)> = Vec::new();
        // Reverse, so that popping yields the entries in order.
        while drained.len() > 0
            invariant
                drained@.len() + rest@.len() == e0.len(),
                forall|j: int| 0 <= j < drained@.len() ==> ((#[trigger] drained@[j]).0@, option_view(drained@[j].1)) == e0[j],
                forall|j: int| 0 <= j < rest@.len() ==> ((#[trigger] rest@[j]).0@, option_view(rest@[j].1)) == e0[e0.len() - 1 - j],
            decreases drained.len(),
        {
            let e = drained.pop().unwrap();
            rest.push(e);
        }
        while rest.len() > 0
            invariant
                r@.len() + rest@.len() == e0.len(),
                forall|j: int| 0 <= j < rest@.len() ==> ((#[trigger] rest@[j]).0@, option_view(rest@[j].1)) == e0[e0.len() - 1 - j],
                forall|j: int| 0 <= j < r@.len() ==> (#[trigger] r@[j]).0@ == e0[j].0 && option_view(r@[j].1) == e0[j].1,
            decreases rest.len(),
        {
            let ghost r0 = rest@;
            let (d, v) = rest.pop().unwrap();
            assert((d@, option_view(v)) == e0[e0.len() - 1 - (r0.len() - 1)]);
            r.push((UpsertKey::from_digest(d), v));
        }
        proof {
            assert forall|i: int| 0 <= i < r@.len() implies (#[trigger] r@[i]).0@ == old(self).keys_view()[i] && option_view(r@[i].1) == (
            if old(self).view().contains_key(old(self).keys_view()[i]) {
                Some(old(self).view()[old(self).keys_view()[i]])
            } else {
                None::<ValueView>
            }) by {
                old(self).lemma_view(e0[i].0);
            }
            assert(self.entries().len() == 0);
            assert(self.view() == put_all(Map::empty(), self.entries()));
        }
        r
    }
}

} // verus!
