//! The key-to-value store that the upsert operator keeps its current values in.
use crate::codec::{copy_value, option_view, UpsertKey, UpsertValue, ValueView, value_view};
use vstd::prelude::*;

verus! {

/// What a store maps each present key to.
pub type StateMap = Map<Seq<u8>, ValueView>;

/// The store after each `(key, value)` of `entries` has been put in turn:
/// `Some` overwrites the key, `None` removes it.
pub open spec fn put_all(m: StateMap, entries: Seq<(Seq<u8>, Option<ValueView>)>) -> StateMap
    decreases entries.len(),
{
    if entries.len() == 0 {
        m
    } else {
        let e = entries.last();
        let before = put_all(m, entries.drop_last());
        match e.1 {
            Some(v) => before.insert(e.0, v),
            None => before.remove(e.0),
        }
    }
}

pub open spec fn entries_view(entries: Seq<(UpsertKey, Option<UpsertValue>)>) -> Seq<(Seq<u8>, Option<ValueView>)> {
    entries.map_values(|e: (UpsertKey, Option<UpsertValue>)| (e.0@, option_view(e.1)))
}

/// A process-local store of the current value of each key: one entry per
/// key, each key a 32-byte digest compared byte for byte.
pub struct InMemoryState {
    entries: Vec<(UpsertKey, UpsertValue)>,
    contents: Ghost<StateMap>,
}

impl InMemoryState {
    /// The current value of each key.
    pub closed spec fn view(&self) -> StateMap {
        self.contents@
    }

    /// Each key is held once, and the entries are exactly the contents.
    pub closed spec fn wf(&self) -> bool {
        &&& forall|i: int, j: int|
            0 <= i < j < self.entries@.len() ==> (#[trigger] self.entries@[i]).0@ != (#[trigger] self.entries@[j]).0@
        &&& forall|i: int|
            0 <= i < self.entries@.len() ==> self.contents@.contains_key((#[trigger] self.entries@[i]).0@)
                && self.contents@[self.entries@[i].0@] == value_view(self.entries@[i].1)
        &&& forall|k: Seq<u8>|
            #[trigger] self.contents@.contains_key(k) ==> exists|i: int|
                0 <= i < self.entries@.len() && (#[trigger] self.entries@[i]).0@ == k
    }

    /// An empty store.
    pub fn new() -> (r: InMemoryState)
        ensures
            r.wf(),
            r.view() == Map::<Seq<u8>, ValueView>::empty(),
    {
        InMemoryState { entries: Vec::new(), contents: Ghost(Map::empty()) }
    }

    fn find(&self, key: &UpsertKey) -> (r: Option<usize>)
        requires
            self.wf(),
        ensures
            match r {
                Some(i) => i < self.entries@.len() && self.entries@[i as int].0@ == key@,
                None => !self.view().contains_key(key@),
            },
    {
        let mut i: usize = 0;
        while i < self.entries.len()
            invariant
                self.wf(),
                0 <= i <= self.entries@.len(),
                forall|j: int| 0 <= j < i ==> (#[trigger] self.entries@[j]).0@ != key@,
            decreases self.entries.len() - i,
        {
            if self.entries[i].0 == *key {
                return Some(i);
            }
            i = i + 1;
        }
        None
    }

    /// The current value of `key`, if it has one.
    pub fn get(&self, key: &UpsertKey) -> (r: Option<UpsertValue>)
        requires
            self.wf(),
        ensures
            option_view(r) == (if self.view().contains_key(key@) {
                Some(self.view()[key@])
            } else {
                None::<ValueView>
            }),
    {
        match self.find(key) {
            Some(i) => Some(copy_value(&self.entries[i].1)),
            None => None,
        }
    }

    /// Gives `key` the value `value`, or removes it where `value` is `None`.
    pub fn put(&mut self, key: UpsertKey, value: Option<UpsertValue>)
        requires
            old(self).wf(),
        ensures
            final(self).wf(),
            final(self).view() == (match option_view(value) {
                Some(v) => old(self).view().insert(key@, v),
                None => old(self).view().remove(key@),
            }),
    {
        let found = self.find(&key);
        let ghost m = self.contents@;
        match value {
            Some(v) => {
                let ghost vv = value_view(v);
                match found {
                    Some(i) => {
                        self.entries[i] = (key, v);
                    },
                    None => {
                        self.entries.push((key, v));
                    },
                }
                self.contents = Ghost(m.insert(key@, vv));
                assert forall|k: Seq<u8>| #[trigger] self.contents@.contains_key(k) implies exists|i: int|
                    0 <= i < self.entries@.len() && (#[trigger] self.entries@[i]).0@ == k by {
                    if k != key@ {
                        let j = choose|j: int| 0 <= j < old(self).entries@.len() && (#[trigger] old(self).entries@[j]).0@ == k;
                        assert(self.entries@[j].0@ == k);
                    } else {
                        match found {
                            Some(i) => assert(self.entries@[i as int].0@ == k),
                            None => assert(self.entries@[self.entries@.len() - 1].0@ == k),
                        }
                    }
                }
            },
            None => {
                match found {
                    Some(i) => {
                        self.entries.remove(i);
                    },
                    None => {},
                }
                self.contents = Ghost(m.remove(key@));
                assert forall|i: int| 0 <= i < self.entries@.len() implies
                    self.contents@.contains_key((#[trigger] self.entries@[i]).0@)
                        && self.contents@[self.entries@[i].0@] == value_view(self.entries@[i].1) by {
                    match found {
                        Some(f) => {
                            if i < f {
                                assert(self.entries@[i] == old(self).entries@[i]);
                            } else {
                                assert(self.entries@[i] == old(self).entries@[i + 1]);
                            }
                        },
                        None => {},
                    }
                }
                assert forall|k: Seq<u8>| #[trigger] self.contents@.contains_key(k) implies exists|i: int|
                    0 <= i < self.entries@.len() && (#[trigger] self.entries@[i]).0@ == k by {
                    let j = choose|j: int| 0 <= j < old(self).entries@.len() && (#[trigger] old(self).entries@[j]).0@ == k;
                    match found {
                        Some(f) => {
                            if j < f {
                                assert(self.entries@[j].0@ == k);
                            } else {
                                assert(j != f);
                                assert(self.entries@[j - 1].0@ == k);
                            }
                        },
                        None => {
                            assert(self.entries@[j].0@ == k);
                        },
                    }
                }
            },
        }
    }
}


/// A store of the current value of each key, read and written in batches.
/// The operator is written against this interface; each implementation
/// chooses where the values live.
pub trait UpsertState: Sized {
    /// What the store holds for each key.
    spec fn contents(&self) -> StateMap;

    /// The store's own invariant.
    spec fn valid(&self) -> bool;

    /// The current value of each of `keys`, in order: one result per key.
    fn multi_get(&self, keys: &Vec<UpsertKey>) -> (r: Vec<Option<UpsertValue>>)
        requires
            self.valid(),
        ensures
            r@.len() == keys@.len(),
            forall|i: int| 0 <= i < keys@.len() ==> option_view(#[trigger] r@[i]) == (if self.contents().contains_key(keys@[i]@) {
                Some(self.contents()[keys@[i]@])
            } else {
                None::<ValueView>
            }),
    ;

    /// Puts each entry in turn: `Some` overwrites the key, `None` removes it.
    fn multi_put(&mut self, entries: Vec<(UpsertKey, Option<UpsertValue>)>)
        requires
            old(self).valid(),
        ensures
            final(self).valid(),
            final(self).contents() == put_all(old(self).contents(), entries_view(entries@)),
    ;
}

impl UpsertState for InMemoryState {
    open spec fn contents(&self) -> StateMap {
        self.view()
    }

    open spec fn valid(&self) -> bool {
        self.wf()
    }

    /// The current value of each of `keys`, in order.
    fn multi_get(&self, keys: &Vec<UpsertKey>) -> (r: Vec<Option<UpsertValue>>) {
        let mut r: Vec<Option<UpsertValue>> = Vec::new();
        let mut i: usize = 0;
        while i < keys.len()
            invariant
                self.valid(),
                0 <= i <= keys@.len(),
                r@.len() == i,
                forall|j: int| 0 <= j < i ==> option_view(#[trigger] r@[j]) == (if self.contents().contains_key(keys@[j]@) {
                    Some(self.contents()[keys@[j]@])
                } else {
                    None::<ValueView>
                }),
            decreases keys.len() - i,
        {
            r.push(self.get(&keys[i]));
            i = i + 1;
        }
        r
    }

    /// Puts each entry in turn: `Some` overwrites the key, `None` removes it.
    fn multi_put(&mut self, entries: Vec<(UpsertKey, Option<UpsertValue>)>) {
        let ghost start = self.contents();
        let ghost ev = entries_view(entries@);
        let mut entries = entries;
        let n0 = entries.len();
        assert(ev.len() == n0);
        let mut rest: Vec<(UpsertKey, Option<UpsertValue>)> = Vec::new();
        // Take the entries from the back and put them from the front.
        while entries.len() > 0
            invariant
                ev.len() <= usize::MAX,
                rest@.len() + entries@.len() == ev.len(),
                forall|j: int| 0 <= j < entries@.len() ==> entries_view(entries@)[j] == #[trigger] ev[j],
                forall|j: int| 0 <= j < rest@.len() ==> entries_view(rest@)[j] == #[trigger] ev[ev.len() - 1 - j],
            decreases entries.len(),
        {
            let e = entries.pop().unwrap();
            rest.push(e);
            assert(entries_view(rest@)[rest@.len() - 1] == ev[ev.len() - rest@.len()]);
        }
        let mut done: usize = 0;
        while rest.len() > 0
            invariant
                self.valid(),
                ev.len() <= usize::MAX,
                rest@.len() + done == ev.len(),
                forall|j: int| 0 <= j < rest@.len() ==> entries_view(rest@)[j] == #[trigger] ev[ev.len() - 1 - j],
                self.contents() == put_all(start, ev.subrange(0, done as int)),
            decreases rest.len(),
        {
            let ghost r0 = rest@;
            let e = rest.pop().unwrap();
            assert(entries_view(r0)[r0.len() - 1] == ev[ev.len() - 1 - (r0.len() - 1)]);
            assert(ev.len() - 1 - (r0.len() - 1) == done);
            self.put(e.0, e.1);
            proof {
                let s = ev.subrange(0, done + 1);
                assert(s.drop_last() =~= ev.subrange(0, done as int));
            }
            done = done + 1;
        }
        assert(ev.subrange(0, ev.len() as int) =~= ev);
    }
}

/// Putting entries with distinct keys: each named key ends up with its
/// entry, and every other key keeps what it held.
pub proof fn lemma_put_all_distinct(m: StateMap, entries: Seq<(Seq<u8>, Option<ValueView>)>, k: Seq<u8>)
    requires
        forall|i: int, j: int| 0 <= i < j < entries.len() ==> (#[trigger] entries[i]).0 != (#[trigger] entries[j]).0,
    ensures
        forall|i: int| 0 <= i < entries.len() && (#[trigger] entries[i]).0 == k ==> match entries[i].1 {
            Some(v) => put_all(m, entries).contains_key(k) && put_all(m, entries)[k] == v,
            None => !put_all(m, entries).contains_key(k),
        },
        (forall|i: int| 0 <= i < entries.len() ==> (#[trigger] entries[i]).0 != k) ==> (put_all(m, entries).contains_key(k)
            == m.contains_key(k) && (m.contains_key(k) ==> put_all(m, entries)[k] == m[k])),
    decreases entries.len(),
{
    if entries.len() > 0 {
        let init = entries.drop_last();
        assert forall|i: int, j: int| 0 <= i < j < init.len() implies (#[trigger] init[i]).0 != (#[trigger] init[j]).0 by {
            assert(init[i] == entries[i] && init[j] == entries[j]);
        }
        lemma_put_all_distinct(m, init, k);
        assert forall|i: int| 0 <= i < init.len() implies #[trigger] init[i] == entries[i] by {}
        let last = entries.len() - 1;
        assert forall|i: int| 0 <= i < entries.len() && (#[trigger] entries[i]).0 == k implies match entries[i].1 {
            Some(v) => put_all(m, entries).contains_key(k) && put_all(m, entries)[k] == v,
            None => !put_all(m, entries).contains_key(k),
        } by {
            if i < last {
                assert(init[i] == entries[i]);
                assert(entries[last].0 != k);
            }
        }
    }
}

} // verus!
