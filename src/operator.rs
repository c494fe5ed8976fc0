//! The upsert operator: it rebuilds its store from its own earlier output,
//! then turns batches of commands into retractions and insertions.
use crate::codec::{copy_value, key_of, option_view, project_value, same_value, value_view, UpsertKey, UpsertValue, ValueView};
use crate::model::{
    agree_on, apply, batch, before_frontier, consistent, is_first, is_live_first, is_pending, is_ready, live_upto, net, rehydrated, same_pair, emit, frontier_le, in_time_order, is_winner, lemma_apply_agree,
    lemma_apply_untouched, lemma_time_then_position_total, step_out, supersedes, time_positions,
    time_then_position, winners, winners_upto, CommandView, UpdateView,
};
use crate::scratch::ScratchMap;
use crate::state::{entries_view, lemma_put_all_distinct, put_all, StateMap, UpsertState};
use vstd::prelude::*;
use vstd::relations::sorted_by;
use vstd::seq_lib::lemma_sorted_unique;

verus! {

/// A buffered command: at `time`, set `key` to `value` (`None` deletes it);
/// `order` breaks ties between commands at one time for one key.
#[derive(Debug, PartialEq, Eq)]
pub struct Command {
    pub time: u64,
    pub key: UpsertKey,
    pub order: u64,
    pub value: Option<UpsertValue>,
}

impl View for Command {
    type V = CommandView;

    open spec fn view(&self) -> CommandView {
        CommandView { time: self.time, key: self.key@, order: self.order, value: option_view(self.value) }
    }
}

/// One emitted change: `value`, for `key`, gains `diff` at `time`.
#[derive(Debug, PartialEq, Eq)]
pub struct UpsertUpdate {
    pub key: UpsertKey,
    pub value: UpsertValue,
    pub time: u64,
    pub diff: i64,
}

impl View for UpsertUpdate {
    type V = UpdateView;

    open spec fn view(&self) -> UpdateView {
        UpdateView { key: self.key@, value: value_view(self.value), time: self.time, diff: self.diff as int }
    }
}

pub open spec fn commands_view(s: Seq<Command>) -> Seq<CommandView> {
    s.map_values(|c: Command| c@)
}

pub open spec fn updates_view(s: Seq<UpsertUpdate>) -> Seq<UpdateView> {
    s.map_values(|u: UpsertUpdate| u@)
}

fn copy_option(v: &Option<UpsertValue>) -> (r: Option<UpsertValue>)
    ensures
        option_view(r) == option_view(*v),
{
    match v {
        Some(x) => Some(copy_value(x)),
        None => None,
    }
}

fn copy_command(c: &Command) -> (r: Command)
    ensures
        r@ == c@,
{
    Command { time: c.time, key: c.key, order: c.order, value: copy_option(&c.value) }
}

/// Relies on `slice::sort_unstable`: afterwards the pairs are the same and
/// ascend in the lexicographic order of tuples.
#[verifier::external_body]
fn sort_time_positions(v: &mut Vec<(u64, usize)>)
    ensures
        final(v)@.to_multiset() == old(v)@.to_multiset(),
        sorted_by(final(v)@, time_then_position()),
{
    v.sort_unstable()
}

/// The commands of `stash` that `upper` no longer admits, and the others,
/// each in their order.
fn split_ready(stash: &Vec<Command>, upper: Option<u64>) -> (r: (Vec<Command>, Vec<Command>))
    ensures
        commands_view(r.0@) == commands_view(stash@).filter(is_ready(upper)),
        commands_view(r.1@) == commands_view(stash@).filter(is_pending(upper)),
{
    let ghost sv = commands_view(stash@);
    let mut ready: Vec<Command> = Vec::new();
    let mut later: Vec<Command> = Vec::new();
    let mut i: usize = 0;
    while i < stash.len()
        invariant
            0 <= i <= stash@.len(),
            sv == commands_view(stash@),
            commands_view(ready@) == sv.subrange(0, i as int).filter(is_ready(upper)),
            commands_view(later@) == sv.subrange(0, i as int).filter(is_pending(upper)),
        decreases stash.len() - i,
    {
        let c = copy_command(&stash[i]);
        proof {
            assert(sv.subrange(0, i + 1) =~= sv.subrange(0, i as int).push(sv[i as int]));
            sv.subrange(0, i as int).lemma_filter_push(sv[i as int], is_ready(upper));
            sv.subrange(0, i as int).lemma_filter_push(sv[i as int], is_pending(upper));
        }
        let ready_now = match upper {
            Some(u) => c.time < u,
            None => true,
        };
        proof {
            assert(c@ == sv[i as int]);
            assert(is_ready(upper)(c@) == ready_now);
            assert(is_pending(upper)(c@) == !ready_now);
        }
        if ready_now {
            proof {
                assert(commands_view(ready@.push(c)) =~= commands_view(ready@).push(c@));
            }
            ready.push(c);
        } else {
            proof {
                assert(commands_view(later@.push(c)) =~= commands_view(later@).push(c@));
            }
            later.push(c);
        }
        i = i + 1;
        assert(sv.subrange(0, i as int) == sv.subrange(0, i - 1).push(sv[i - 1]));
    }
    assert(sv.subrange(0, sv.len() as int) =~= sv);
    (ready, later)
}

fn is_superseded(p: &Vec<Command>, i: usize) -> (r: bool)
    requires
        i < p@.len(),
    ensures
        r == !is_winner(commands_view(p@), i as int),
{
    let ghost pv = commands_view(p@);
    let mut j: usize = 0;
    while j < p.len()
        invariant
            0 <= j <= p@.len(),
            i < p@.len(),
            pv == commands_view(p@),
            forall|k: int| 0 <= k < j ==> !#[trigger] supersedes(pv, k, i as int),
        decreases p.len() - j,
    {
        let a = &p[j];
        let b = &p[i];
        if a.time == b.time && a.key == b.key && (a.order > b.order || (a.order == b.order && j < i)) {
            assert(supersedes(pv, j as int, i as int));
            return true;
        }
        j = j + 1;
    }
    false
}

/// The commands of `p` that count, in arrival order.
fn winners_of(p: &Vec<Command>) -> (w: Vec<Command>)
    ensures
        commands_view(w@) == winners(commands_view(p@)),
{
    let ghost pv = commands_view(p@);
    let mut w: Vec<Command> = Vec::new();
    let mut i: usize = 0;
    while i < p.len()
        invariant
            0 <= i <= p@.len(),
            pv == commands_view(p@),
            commands_view(w@) == winners_upto(pv, i as int),
        decreases p.len() - i,
    {
        if !is_superseded(p, i) {
            let c = copy_command(&p[i]);
            proof {
                assert(commands_view(w@.push(c)) =~= commands_view(w@).push(c@));
            }
            w.push(c);
        }
        i = i + 1;
    }
    w
}

/// The commands of `w`, ordered by time; commands at one time keep their order.
fn order_by_time(w: &Vec<Command>) -> (o: Vec<Command>)
    ensures
        commands_view(o@) == in_time_order(commands_view(w@)),
{
    let ghost wv = commands_view(w@);
    let mut pairs: Vec<(u64, usize)> = Vec::new();
    let mut i: usize = 0;
    while i < w.len()
        invariant
            0 <= i <= w@.len(),
            wv == commands_view(w@),
            pairs@ == time_positions(wv).subrange(0, i as int),
        decreases w.len() - i,
    {
        pairs.push((w[i].time, i));
        i = i + 1;
        assert(pairs@ =~= time_positions(wv).subrange(0, i as int));
    }
    assert(pairs@ =~= time_positions(wv));
    sort_time_positions(&mut pairs);
    let ghost sorted = time_positions(wv).sort_by(time_then_position());
    proof {
        lemma_time_then_position_total();
        time_positions(wv).lemma_sort_by_ensures(time_then_position());
        lemma_sorted_unique(pairs@, sorted, time_then_position());
    }
    let ghost target = in_time_order(wv);
    let mut o: Vec<Command> = Vec::new();
    let mut j: usize = 0;
    while j < pairs.len()
        invariant
            0 <= j <= pairs@.len(),
            wv == commands_view(w@),
            pairs@ == sorted,
            sorted == time_positions(wv).sort_by(time_then_position()),
            forall|x: (u64, usize)| #[trigger] sorted.contains(x) ==> time_positions(wv).contains(x),
            target == sorted.map_values(|q: (u64, usize)| wv[q.1 as int]),
            commands_view(o@) == target.subrange(0, j as int),
        decreases pairs.len() - j,
    {
        let q = pairs[j];
        proof {
            assert(sorted.contains(sorted[j as int]));
            let k = choose|k: int| 0 <= k < time_positions(wv).len() && time_positions(wv)[k] == q;
            assert(q.1 < w@.len());
        }
        let c = copy_command(&w[q.1]);
        proof {
            assert(commands_view(o@.push(c)) =~= commands_view(o@).push(c@));
        }
        o.push(c);
        j = j + 1;
        assert(commands_view(o@) =~= target.subrange(0, j as int));
    }
    assert(target.subrange(0, target.len() as int) =~= target);
    o
}

pub open spec fn key_listed(keys: Seq<UpsertKey>, k: Seq<u8>) -> bool {
    exists|b: int| 0 <= b < keys.len() && (#[trigger] keys[b])@ == k
}

/// Applies the commands to `scratch` one after the other, and appends the
/// changes that each makes to `out`.
fn apply_commands(scratch: &mut ScratchMap, cs: &Vec<Command>, out: &mut Vec<UpsertUpdate>)
    requires
        old(scratch).wf(),
        forall|i: int| 0 <= i < cs@.len() ==> old(scratch).keys_view().contains((#[trigger] cs@[i]).key@),
    ensures
        final(scratch).wf(),
        final(scratch).keys_view() == old(scratch).keys_view(),
        final(scratch).view() == apply(old(scratch).view(), commands_view(cs@)),
        updates_view(final(out)@) == updates_view(old(out)@) + emit(old(scratch).view(), commands_view(cs@)),
{
    let ghost m0 = scratch.view();
    let ghost out0 = updates_view(out@);
    let ghost csv = commands_view(cs@);
    let mut i: usize = 0;
    while i < cs.len()
        invariant
            0 <= i <= cs@.len(),
            csv == commands_view(cs@),
            scratch.wf(),
            scratch.keys_view() == old(scratch).keys_view(),
            forall|j: int| 0 <= j < cs@.len() ==> old(scratch).keys_view().contains((#[trigger] cs@[j]).key@),
            scratch.view() == apply(m0, csv.subrange(0, i as int)),
            updates_view(out@) == out0 + emit(m0, csv.subrange(0, i as int)),
        decreases cs.len() - i,
    {
        let c = &cs[i];
        let ghost before = scratch.view();
        let ghost out_before = updates_view(out@);
        let current = scratch.get(&c.key);
        match current {
            Some(old_value) => {
                let u = UpsertUpdate { key: c.key, value: old_value, time: c.time, diff: -1 };
                proof {
                    assert(updates_view(out@.push(u)) =~= updates_view(out@).push(u@));
                }
                out.push(u);
            },
            None => {},
        }
        let ghost out_mid = updates_view(out@);
        match &c.value {
            Some(v) => {
                let u = UpsertUpdate { key: c.key, value: copy_value(v), time: c.time, diff: 1 };
                proof {
                    assert(updates_view(out@.push(u)) =~= updates_view(out@).push(u@));
                }
                out.push(u);
                scratch.put(c.key, Some(copy_value(v)));
            },
            None => {
                scratch.put(c.key, None);
            },
        }
        proof {
            let s = csv.subrange(0, i + 1);
            assert(s.drop_last() =~= csv.subrange(0, i as int));
            assert(s.last() == c@);
            assert(updates_view(out@) =~= out_before + step_out(before, c@));
            assert(out0 + emit(m0, s) =~= (out0 + emit(m0, csv.subrange(0, i as int))) + step_out(before, c@));
        }
        i = i + 1;
    }
    assert(csv.subrange(0, csv.len() as int) =~= csv);
}

/// A fatal failure: an input of the operator broke its contract. The
/// operator does not go on after one; the caller stops it (and its worker).
#[derive(Clone, Copy, Debug, PartialEq, Eq, Structural)]
pub enum UpsertFatal {
    /// The earlier output does not describe a store: a (key, value) in it
    /// nets to neither 0 nor 1.
    InvalidState,
    /// A fresh command came with a diff that is not positive.
    InvalidInput,
}

/// A command as it arrives: `((key, value, order), time, diff)`.
pub type InputRecord = ((UpsertKey, Option<UpsertValue>, u64), u64, i64);

pub open spec fn record_command(r: InputRecord) -> CommandView {
    CommandView { time: r.1, key: r.0.0@, order: r.0.2, value: option_view(r.0.1) }
}

/// Whether a fresh command at `time` is taken. While the input frontier has
/// not passed the resume frontier, commands before the resume frontier are
/// replayed history that the rebuilt store already holds: they are dropped.
/// Once the input has passed it, no such command can arrive, and every
/// command is taken.
pub open spec fn admits(input_upper: Option<u64>, resume_upper: Option<u64>, time: u64) -> bool {
    !frontier_le(input_upper, resume_upper) || !before_frontier(resume_upper, time)
}

/// The records of `data` that are taken.
pub open spec fn admitted(data: Seq<InputRecord>, input_upper: Option<u64>, resume_upper: Option<u64>) -> Seq<InputRecord> {
    data.filter(|r: InputRecord| admits(input_upper, resume_upper, r.1))
}

pub open spec fn records_commands(data: Seq<InputRecord>) -> Seq<CommandView> {
    data.map_values(|r: InputRecord| record_command(r))
}

/// The upsert operator once its store is rebuilt: it buffers commands and,
/// as its input frontier advances, applies the ready ones to its store.
pub struct UpsertOperator<S> {
    resume_upper: Option<u64>,
    input_upper: Option<u64>,
    state: S,
    stash: Vec<Command>,
}

impl<S: UpsertState> UpsertOperator<S> {
    pub closed spec fn wf(&self) -> bool {
        self.state.valid()
    }

    /// The current value of each key.
    pub closed spec fn state_view(&self) -> StateMap {
        self.state.contents()
    }

    /// The buffered commands, in arrival order.
    pub closed spec fn pending(&self) -> Seq<CommandView> {
        commands_view(self.stash@)
    }

    /// The frontier below which the store already holds the history.
    pub closed spec fn resume_upper_view(&self) -> Option<u64> {
        self.resume_upper
    }

    /// The input frontier last reported.
    pub closed spec fn input_upper_view(&self) -> Option<u64> {
        self.input_upper
    }

    /// The frontier that the input was last reported at.
    pub fn input_upper(&self) -> (r: Option<u64>)
        ensures
            r == self.input_upper_view(),
    {
        self.input_upper
    }

    /// The number of buffered commands.
    pub fn pending_len(&self) -> (r: usize)
        ensures
            r == self.pending().len(),
    {
        self.stash.len()
    }

    /// The current value of `key` in the store.
    pub fn current(&self, key: &UpsertKey) -> (r: Option<UpsertValue>)
        requires
            self.wf(),
        ensures
            option_view(r) == (if self.state_view().contains_key(key@) {
                Some(self.state_view()[key@])
            } else {
                None::<ValueView>
            }),
    {
        let mut keys: Vec<UpsertKey> = Vec::new();
        keys.push(*key);
        let mut found = self.state.multi_get(&keys);
        assert(keys@[0] == *key);
        assert(option_view(found@[0]) == (if self.state_view().contains_key(key@) {
            Some(self.state_view()[key@])
        } else {
            None::<ValueView>
        }));
        found.pop().unwrap()
    }

    /// Takes a batch of fresh commands into the buffer. Commands that
    /// [`admits`] refuses (those before the resume frontier, while the input
    /// has not passed it) are dropped. A taken command whose diff is not
    /// positive is a fatal failure: the whole batch is refused with
    /// `InvalidInput`, nothing is buffered, and the operator must stop.
    pub fn give_input(&mut self, data: Vec<InputRecord>) -> (r: Result<(), UpsertFatal>)
        requires
            old(self).wf(),
        ensures
            final(self).wf(),
            final(self).state_view() == old(self).state_view(),
            final(self).resume_upper_view() == old(self).resume_upper_view(),
            final(self).input_upper_view() == old(self).input_upper_view(),
            ({
                let taken = admitted(data@, old(self).input_upper_view(), old(self).resume_upper_view());
                &&& r is Err <==> exists|i: int| 0 <= i < taken.len() && (#[trigger] taken[i]).2 <= 0
                &&& r is Err ==> r == Err::<(), UpsertFatal>(UpsertFatal::InvalidInput) && final(self).pending()
                    == old(self).pending()
                &&& r is Ok ==> final(self).pending() == old(self).pending() + records_commands(taken)
            }),
    {
        let ghost pred = |r: InputRecord| admits(self.input_upper, self.resume_upper, r.1);
        let ghost taken = admitted(data@, self.input_upper, self.resume_upper);
        let not_past_resume = match (self.input_upper, self.resume_upper) {
            (_, None) => true,
            (None, Some(_)) => false,
            (Some(x), Some(y)) => x <= y,
        };
        let mut fresh: Vec<Command> = Vec::new();
        let mut i: usize = 0;
        while i < data.len()
            invariant
                0 <= i <= data@.len(),
                self.wf(),
                *self == *old(self),
                pred == (|r: InputRecord| admits(self.input_upper, self.resume_upper, r.1)),
                taken == data@.filter(pred),
                not_past_resume == frontier_le(self.input_upper, self.resume_upper),
                commands_view(fresh@) == records_commands(data@.subrange(0, i as int).filter(pred)),
                forall|j: int| 0 <= j < data@.subrange(0, i as int).filter(pred).len()
                    ==> (#[trigger] data@.subrange(0, i as int).filter(pred)[j]).2 > 0,
            decreases data.len() - i,
        {
            let rec = &data[i];
            let time = rec.1;
            let keep = !not_past_resume || match self.resume_upper {
                Some(u) => u <= time,
                None => false,
            };
            proof {
                assert(data@.subrange(0, i + 1) =~= data@.subrange(0, i as int).push(data@[i as int]));
                data@.subrange(0, i as int).lemma_filter_push(data@[i as int], pred);
                assert(pred(data@[i as int]) == keep);
            }
            if keep {
                if rec.2 <= 0 {
                    proof {
                        data@.lemma_filter_contains(pred, i as int);
                        assert(taken.contains(data@[i as int]));
                        let j = choose|j: int| 0 <= j < taken.len() && taken[j] == data@[i as int];
                        assert(taken[j].2 <= 0);
                        assert(taken == admitted(data@, old(self).input_upper_view(), old(self).resume_upper_view()));
                        assert(self.pending() == old(self).pending());
                    }
                    return Err(UpsertFatal::InvalidInput);
                }
                let c = Command { time, key: rec.0.0, order: rec.0.2, value: copy_option(&rec.0.1) };
                proof {
                    assert(c@ == record_command(data@[i as int]));
                    assert(commands_view(fresh@.push(c)) =~= commands_view(fresh@).push(c@));
                    assert(records_commands(data@.subrange(0, i as int).filter(pred).push(data@[i as int]))
                        =~= records_commands(data@.subrange(0, i as int).filter(pred)).push(c@));
                }
                fresh.push(c);
            }
            i = i + 1;
        }
        proof {
            assert(data@.subrange(0, data@.len() as int) =~= data@);
            assert(forall|j: int| 0 <= j < taken.len() ==> (#[trigger] taken[j]).2 > 0);
            assert(commands_view(self.stash@ + fresh@) =~= commands_view(self.stash@) + commands_view(fresh@));
        }
        self.stash.append(&mut fresh);
        Ok(())
    }

    /// Reports that the input frontier has advanced to `upper`. The buffered
    /// commands that `upper` no longer admits form the batch: of the commands
    /// at one time for one key only the one with the highest order counts,
    /// and those that count are applied to the store in time order. Each
    /// retracts its key's current value and inserts its own, if any; the
    /// changes are returned. The other commands stay buffered.
    pub fn progress(&mut self, upper: Option<u64>) -> (out: Vec<UpsertUpdate>)
        requires
            old(self).wf(),
        ensures
            final(self).wf(),
            final(self).pending() == old(self).pending().filter(is_pending(upper)),
            final(self).state_view() == apply(old(self).state_view(), batch(old(self).pending().filter(is_ready(upper)))),
            updates_view(out@) == emit(old(self).state_view(), batch(old(self).pending().filter(is_ready(upper)))),
            final(self).resume_upper_view() == old(self).resume_upper_view(),
            final(self).input_upper_view() == upper,
    {
        let (ready, later) = split_ready(&self.stash, upper);
        self.stash = later;
        let won = winners_of(&ready);
        let ordered = order_by_time(&won);
        let ghost cs = commands_view(ordered@);
        let ghost m0 = self.state.contents();
        // One slot for each key of the batch, in first-seen order.
        let mut scratch = ScratchMap::new();
        let mut i: usize = 0;
        while i < ordered.len()
            invariant
                0 <= i <= ordered@.len(),
                scratch.wf(),
                scratch.view() == Map::<Seq<u8>, ValueView>::empty(),
                forall|j: int| 0 <= j < i ==> scratch.keys_view().contains((#[trigger] ordered@[j]).key@),
            decreases ordered.len() - i,
        {
            let ghost before = scratch.keys_view();
            scratch.reserve(&ordered[i].key);
            proof {
                assert forall|j: int| 0 <= j < i + 1 implies scratch.keys_view().contains((#[trigger] ordered@[j]).key@) by {
                    if j < i {
                        let x = choose|x: int| 0 <= x < before.len() && before[x] == ordered@[j].key@;
                        assert(scratch.keys_view()[x] == ordered@[j].key@);
                    } else if before.contains(ordered@[j].key@) {
                    } else {
                        assert(scratch.keys_view()[before.len() as int] == ordered@[j].key@);
                    }
                }
            }
            i = i + 1;
        }
        let keys = scratch.keys();
        let ghost kv = scratch.keys_view();
        let ghost ks = Set::new(|k: Seq<u8>| key_listed(keys@, k));
        proof {
            assert forall|k: Seq<u8>| kv.contains(k) <==> key_listed(keys@, k) by {
                if kv.contains(k) {
                    let x = choose|x: int| 0 <= x < kv.len() && kv[x] == k;
                    assert(keys@[x]@ == k);
                }
                if key_listed(keys@, k) {
                    let x = choose|x: int| 0 <= x < keys@.len() && (#[trigger] keys@[x])@ == k;
                    assert(kv[x] == k);
                }
            }
        }
        let current = self.state.multi_get(&keys);
        let mut a: usize = 0;
        while a < keys.len()
            invariant
                0 <= a <= keys@.len(),
                current@.len() == keys@.len(),
                keys@.map_values(|k: UpsertKey| k@) == kv,
                forall|x: int, y: int| 0 <= x < y < keys@.len() ==> (#[trigger] keys@[x])@ != (#[trigger] keys@[y])@,
                forall|x: int| 0 <= x < keys@.len() ==> option_view(#[trigger] current@[x]) == (if m0.contains_key(keys@[x]@) {
                    Some(m0[keys@[x]@])
                } else {
                    None::<ValueView>
                }),
                scratch.wf(),
                scratch.keys_view() == kv,
                agree_on(scratch.view(), m0, Set::new(|k: Seq<u8>| key_listed(keys@.subrange(0, a as int), k))),
                forall|k: Seq<u8>| #[trigger] scratch.view().contains_key(k) ==> key_listed(keys@.subrange(0, a as int), k),
            decreases keys.len() - a,
        {
            let ghost before = scratch.view();
            proof {
                assert(kv[a as int] == keys@[a as int]@);
                assert(kv.contains(keys@[a as int]@));
            }
            scratch.put(keys[a], copy_option(&current[a]));
            proof {
                let s0 = keys@.subrange(0, a as int);
                let s1 = keys@.subrange(0, a + 1);
                assert forall|k: Seq<u8>| key_listed(s1, k) <==> (key_listed(s0, k) || k == keys@[a as int]@) by {
                    if key_listed(s1, k) {
                        let b = choose|b: int| 0 <= b < s1.len() && (#[trigger] s1[b])@ == k;
                        if b < a {
                            assert(s0[b] == s1[b]);
                        }
                    }
                    if key_listed(s0, k) {
                        let b = choose|b: int| 0 <= b < s0.len() && (#[trigger] s0[b])@ == k;
                        assert(s1[b] == s0[b]);
                    }
                    if k == keys@[a as int]@ {
                        assert(s1[a as int] == keys@[a as int]);
                    }
                }
                assert forall|k: Seq<u8>| key_listed(s0, k) implies k != keys@[a as int]@ by {
                    let b = choose|b: int| 0 <= b < s0.len() && (#[trigger] s0[b])@ == k;
                    assert(s0[b] == keys@[b]);
                }
                let ka = keys@[a as int]@;
                let set0 = Set::new(|k: Seq<u8>| key_listed(s0, k));
                let set1 = Set::new(|k: Seq<u8>| key_listed(s1, k));
                assert forall|k: Seq<u8>| #[trigger] set1.contains(k) implies (scratch.view().contains_key(k)
                    == m0.contains_key(k) && (scratch.view().contains_key(k) ==> scratch.view()[k] == m0[k])) by {
                    if k == ka {
                        assert(option_view(current@[a as int]) == (if m0.contains_key(ka) {
                            Some(m0[ka])
                        } else {
                            None::<ValueView>
                        }));
                    } else {
                        assert(set0.contains(k));
                    }
                }
                assert forall|k: Seq<u8>| #[trigger] scratch.view().contains_key(k) implies key_listed(s1, k) by {
                    if k != ka {
                        assert(before.contains_key(k));
                    }
                }
            }
            a = a + 1;
        }
        assert(keys@.subrange(0, keys@.len() as int) =~= keys@);
        assert(Set::new(|k: Seq<u8>| key_listed(keys@.subrange(0, keys@.len() as int), k)) == ks);
        let ghost seeded = scratch.view();
        let mut out: Vec<UpsertUpdate> = Vec::new();
        proof {
            assert forall|i: int| 0 <= i < ordered@.len() implies scratch.keys_view().contains((#[trigger] ordered@[i]).key@) by {}
        }
        apply_commands(&mut scratch, &ordered, &mut out);
        proof {
            assert forall|i: int| 0 <= i < cs.len() implies ks.contains(#[trigger] cs[i].key) by {
                assert(cs[i].key == ordered@[i].key@);
                assert(kv.contains(ordered@[i].key@));
            }
            lemma_apply_agree(seeded, m0, ks, cs);
            assert(updates_view(out@) =~= emit(m0, cs));
        }
        let ghost fin = scratch.view();
        let entries = scratch.drain();
        let ghost ev = entries_view(entries@);
        self.state.multi_put(entries);
        proof {
            let target = apply(m0, cs);
            assert forall|x: int| 0 <= x < ev.len() implies (#[trigger] ev[x]) == (kv[x], if fin.contains_key(kv[x]) {
                Some(fin[kv[x]])
            } else {
                None::<ValueView>
            }) by {}
            assert forall|x: int, y: int| 0 <= x < y < ev.len() implies (#[trigger] ev[x]).0 != (#[trigger] ev[y]).0 by {
                assert(kv[x] == keys@[x]@);
                assert(kv[y] == keys@[y]@);
            }
            assert forall|k: Seq<u8>| #[trigger] self.state.contents().contains_key(k) == target.contains_key(k)
                && (target.contains_key(k) ==> self.state.contents()[k] == target[k]) by {
                lemma_put_all_distinct(m0, ev, k);
                if key_listed(keys@, k) {
                    let x = choose|x: int| 0 <= x < keys@.len() && (#[trigger] keys@[x])@ == k;
                    assert(kv[x] == k);
                    assert(ev[x].0 == k);
                    assert(ks.contains(k));
                } else {
                    assert forall|x: int| 0 <= x < ev.len() implies (#[trigger] ev[x]).0 != k by {
                        assert(kv[x] == keys@[x]@);
                    }
                    assert forall|i: int| 0 <= i < cs.len() implies #[trigger] cs[i].key != k by {
                        assert(ks.contains(cs[i].key));
                    }
                    lemma_apply_untouched(m0, cs, k);
                }
            }
            assert(self.state.contents() =~= target);
        }
        self.input_upper = upper;
        out
    }
}

/// A record of the operator's earlier output: `(value, time, diff)`.
pub type PreviousRecord = (UpsertValue, u64, i64);

/// The earlier output record `r` as an update, keyed by its key columns.
pub open spec fn previous_update(r: PreviousRecord, key_indices: Seq<usize>) -> UpdateView {
    UpdateView {
        key: key_of(project_value(value_view(r.0), key_indices)),
        value: value_view(r.0),
        time: r.1,
        diff: r.2 as int,
    }
}

/// The records of `data` before `resume_upper`, as keyed updates.
pub open spec fn previous_updates(data: Seq<PreviousRecord>, resume_upper: Option<u64>, key_indices: Seq<usize>) -> Seq<UpdateView> {
    data.filter(|r: PreviousRecord| before_frontier(resume_upper, r.1)).map_values(
        |r: PreviousRecord| previous_update(r, key_indices),
    )
}

/// The upsert operator while it rebuilds its store from its own earlier
/// output, up to the resume frontier.
pub struct Rehydration {
    key_indices: Vec<usize>,
    resume_upper: Option<u64>,
    snapshot: Vec<UpsertUpdate>,
}

impl Rehydration {
    /// The collected earlier output.
    pub closed spec fn snapshot_view(&self) -> Seq<UpdateView> {
        updates_view(self.snapshot@)
    }

    pub closed spec fn resume_upper_view(&self) -> Option<u64> {
        self.resume_upper
    }

    pub closed spec fn key_indices_view(&self) -> Seq<usize> {
        self.key_indices@
    }

    /// Starts rebuilding. `key_indices` are the positions of the key
    /// columns in a value row; `resume_upper` is the frontier that the
    /// earlier output is complete up to.
    pub fn new(key_indices: Vec<usize>, resume_upper: Option<u64>) -> (r: Rehydration)
        ensures
            r.snapshot_view() == Seq::<UpdateView>::empty(),
            r.resume_upper_view() == resume_upper,
            r.key_indices_view() == key_indices@,
    {
        let r = Rehydration { key_indices, resume_upper, snapshot: Vec::new() };
        assert(r.snapshot_view() =~= Seq::<UpdateView>::empty());
        r
    }

    /// Collects a batch of earlier output; records at or beyond the resume
    /// frontier are dropped, as they will be computed again.
    pub fn give_previous(&mut self, data: Vec<PreviousRecord>)
        ensures
            final(self).snapshot_view() == old(self).snapshot_view() + previous_updates(
                data@,
                old(self).resume_upper_view(),
                old(self).key_indices_view(),
            ),
            final(self).resume_upper_view() == old(self).resume_upper_view(),
            final(self).key_indices_view() == old(self).key_indices_view(),
    {
        let ghost pred = |r: PreviousRecord| before_frontier(self.resume_upper, r.1);
        let ghost f = |r: PreviousRecord| previous_update(r, self.key_indices@);
        let ghost start = updates_view(self.snapshot@);
        let mut i: usize = 0;
        while i < data.len()
            invariant
                0 <= i <= data@.len(),
                self.resume_upper == old(self).resume_upper,
                self.key_indices@ == old(self).key_indices@,
                pred == (|r: PreviousRecord| before_frontier(self.resume_upper, r.1)),
                f == (|r: PreviousRecord| previous_update(r, self.key_indices@)),
                updates_view(self.snapshot@) == start + data@.subrange(0, i as int).filter(pred).map_values(f),
            decreases data.len() - i,
        {
            let rec = &data[i];
            let keep = match self.resume_upper {
                Some(u) => rec.1 < u,
                None => true,
            };
            proof {
                assert(data@.subrange(0, i + 1) =~= data@.subrange(0, i as int).push(data@[i as int]));
                data@.subrange(0, i as int).lemma_filter_push(data@[i as int], pred);
                assert(pred(data@[i as int]) == keep);
            }
            if keep {
                let key = match &rec.0 {
                    Ok(row) => UpsertKey::from_value(Ok(row), self.key_indices.as_slice()),
                    Err(e) => UpsertKey::from_value(Err(e), self.key_indices.as_slice()),
                };
                let u = UpsertUpdate { key, value: copy_value(&rec.0), time: rec.1, diff: rec.2 };
                proof {
                    assert(u@ == f(data@[i as int]));
                    assert(updates_view(self.snapshot@.push(u)) =~= updates_view(self.snapshot@).push(u@));
                    assert(data@.subrange(0, i as int).filter(pred).push(data@[i as int]).map_values(f)
                        =~= data@.subrange(0, i as int).filter(pred).map_values(f).push(u@));
                }
                self.snapshot.push(u);
            }
            i = i + 1;
        }
        assert(data@.subrange(0, data@.len() as int) =~= data@);
    }

    /// Whether the earlier output is complete, now that its frontier is `upper`.
    pub fn previous_complete(&self, upper: Option<u64>) -> (r: bool)
        ensures
            r == frontier_le(self.resume_upper_view(), upper),
    {
        match (self.resume_upper, upper) {
            (_, None) => true,
            (None, Some(_)) => false,
            (Some(x), Some(y)) => x <= y,
        }
    }

    /// Rebuilds the store from the collected output, loading the empty
    /// `state` with one `multi_put`: each key gets the value that nets to 1
    /// for it. Where the output is not [`consistent`] (some key and value
    /// nets to neither 0 nor 1) this is a fatal failure: `InvalidState` is
    /// returned and the operator must stop.
    pub fn finish<S: UpsertState>(self, state: S) -> (r: Result<UpsertOperator<S>, UpsertFatal>)
        requires
            state.valid(),
            state.contents() == Map::<Seq<u8>, ValueView>::empty(),
        ensures
            r is Ok <==> consistent(self.snapshot_view()),
            r is Err ==> r == Err::<UpsertOperator<S>, UpsertFatal>(UpsertFatal::InvalidState),
            r matches Ok(op) ==> {
                &&& op.wf()
                &&& op.state_view() == rehydrated(self.snapshot_view())
                &&& op.pending() == Seq::<CommandView>::empty()
                &&& op.resume_upper_view() == self.resume_upper_view()
                &&& op.input_upper_view() == Some(0u64)
            },
    {
        let s = &self.snapshot;
        let ghost sv = updates_view(s@);
        // Each update, counted against the first update with its key and value.
        let mut counts: Vec<(usize, i128)> = Vec::new();
        let mut i: usize = 0;
        while i < s.len()
            invariant
                0 <= i <= s@.len(),
                sv == updates_view(s@),
                counts@.len() == i,
                forall|t: int| 0 <= t < i ==> counted_at(sv, #[trigger] counts@[t], t),
            decreases s.len() - i,
        {
            let r = first_equal(s, i);
            counts.push((r, s[i].diff as i128));
            i = i + 1;
        }
        let ghost counted = counts@;
        proof {
            assert forall|x: usize| #[trigger] item_sum(counted, x) == (if (x as int) < sv.len() && is_first(sv, x as int) {
                net(sv, sv[x as int].key, sv[x as int].value)
            } else {
                0
            }) by {
                lemma_counts_sum(sv, counted, x, sv.len() as int);
                assert(counted.subrange(0, sv.len() as int) =~= counted);
                assert(sv.subrange(0, sv.len() as int) =~= sv);
            }
        }
        consolidate_counts(&mut counts);
        let c = &counts;
        proof {
            assert forall|b: int| 0 <= b < c@.len() implies {
                let x = (#[trigger] c@[b]).0 as int;
                &&& x < sv.len()
                &&& is_first(sv, x)
                &&& c@[b].1 == net(sv, sv[x].key, sv[x].value)
            } by {
                lemma_item_sum_unique(c@, c@[b].0);
                assert(item_sum(c@, c@[b].0) == item_sum(counted, c@[b].0));
            }
        }
        let total = s.len();
        let mut state = state;
        let mut live: Vec<(UpsertKey, Option<UpsertValue>)> = Vec::new();
        let mut a: usize = 0;
        while a < c.len()
            invariant
                0 <= a <= c@.len(),
                sv.len() == total,
                sv == updates_view(s@),
                sv == self.snapshot_view(),
                counted.len() == sv.len(),
                forall|t: int| 0 <= t < sv.len() ==> counted_at(sv, #[trigger] counted[t], t),
                forall|x: usize| #[trigger] item_sum(counted, x) == (if (x as int) < sv.len() && is_first(sv, x as int) {
                    net(sv, sv[x as int].key, sv[x as int].value)
                } else {
                    0
                }),
                forall|x: usize| #[trigger] item_sum(c@, x) == item_sum(counted, x),
                forall|b: int| 0 <= b < c@.len() ==> (#[trigger] c@[b]).1 != 0,
                forall|b: int| 0 <= b < c@.len() ==> {
                    let x = (#[trigger] c@[b]).0 as int;
                    &&& x < sv.len()
                    &&& is_first(sv, x)
                    &&& c@[b].1 == net(sv, sv[x].key, sv[x].value)
                },
                forall|b: int, d: int| 0 <= b < d < c@.len() ==> (#[trigger] c@[b]).0 < (#[trigger] c@[d]).0,
                state.valid(),
                state.contents() == Map::<Seq<u8>, ValueView>::empty(),
                forall|b: int| 0 <= b < a ==> (#[trigger] c@[b]).1 == 1,
                entries_view(live@) == live_upto(sv, counted_upto(c@, a as int)),
            decreases c.len() - a,
        {
            let (x, d) = c[a];
            let u = &s[x];
            proof {
                assert(u@ == sv[x as int]);
            }
            if d != 1 {
                proof {
                    assert(d != 0);
                    assert(!consistent(sv));
                }
                return Err(UpsertFatal::InvalidState);
            }
            proof {
                lemma_no_live_between(sv, counted, c@, a as int, x as int);
                assert(is_live_first(sv, x as int));
                assert(live_upto(sv, x + 1) == live_upto(sv, x as int).push((sv[x as int].key, Some(sv[x as int].value))));
                assert(counted_upto(c@, a + 1) == x + 1);
            }
            let entry = (u.key, Some(copy_value(&u.value)));
            proof {
                assert(entries_view(live@.push(entry)) =~= entries_view(live@).push((sv[x as int].key, Some(sv[x as int].value))));
            }
            live.push(entry);
            a = a + 1;
        }
        proof {
            lemma_no_live_between(sv, counted, c@, c@.len() as int, sv.len() as int);
            assert(put_all(Map::empty(), entries_view(live@)) == rehydrated(sv));
            assert forall|i: int| 0 <= i < sv.len() implies net(sv, #[trigger] sv[i].key, sv[i].value) == 0 || net(
                sv,
                sv[i].key,
                sv[i].value,
            ) == 1 by {
                lemma_net_by_count(sv, counted, c@, i);
            }
        }
        state.multi_put(live);
        let op = UpsertOperator {
            resume_upper: self.resume_upper,
            input_upper: Some(0u64),
            state,
            stash: Vec::new(),
        };
        assert(op.pending() =~= Seq::<CommandView>::empty());
        Ok(op)
    }
}


/// Entry `e` counts update `t` of `s` against the first update with its
/// key and value.
pub open spec fn counted_at(s: Seq<UpdateView>, e: (usize, i128), t: int) -> bool {
    &&& e.0 <= t
    &&& is_first(s, e.0 as int)
    &&& same_pair(s, e.0 as int, t)
    &&& e.1 == s[t].diff
}

/// The sum of the counts of item `x` in `s`.
pub open spec fn item_sum(s: Seq<(usize, i128)>, x: usize) -> int
    decreases s.len(),
{
    if s.len() == 0 {
        0
    } else {
        item_sum(s.drop_last(), x) + if s.last().0 == x {
            s.last().1 as int
        } else {
            0
        }
    }
}

/// Relies on differential_dataflow's `consolidation::consolidate`: it sorts
/// the entries by item, adds up the counts of each item into one entry, and
/// drops the items whose counts add up to zero. Counts within the bounds of
/// an `i64` cannot overflow the `i128` sums of at most `usize::MAX` of them.
#[verifier::external_body]
fn consolidate_counts(v: &mut Vec<(usize, i128)>)
    requires
        forall|i: int| 0 <= i < old(v)@.len() ==> -0x8000_0000_0000_0000 <= #[trigger] old(v)@[i].1 <= 0x8000_0000_0000_0000,
    ensures
        forall|x: usize| #[trigger] item_sum(final(v)@, x) == item_sum(old(v)@, x),
        forall|i: int| 0 <= i < final(v)@.len() ==> #[trigger] final(v)@[i].1 != 0,
        forall|i: int, j: int| 0 <= i < j < final(v)@.len() ==> (#[trigger] final(v)@[i]).0 < (#[trigger] final(v)@[j]).0,
{
    differential_dataflow::consolidation::consolidate(v)
}

/// The position of the first update of `s` with the key and value of update `i`.
fn first_equal(s: &Vec<UpsertUpdate>, i: usize) -> (r: usize)
    requires
        i < s@.len(),
    ensures
        r <= i,
        is_first(updates_view(s@), r as int),
        same_pair(updates_view(s@), r as int, i as int),
{
    let ghost sv = updates_view(s@);
    let mut j: usize = 0;
    while j < i
        invariant
            0 <= j <= i,
            i < s@.len(),
            sv == updates_view(s@),
            forall|y: int| 0 <= y < j ==> !#[trigger] same_pair(sv, y, i as int),
        decreases i - j,
    {
        if s[j].key == s[i].key && same_value(&s[j].value, &s[i].value) {
            assert(same_pair(sv, j as int, i as int));
            assert forall|y: int| 0 <= y < j implies !#[trigger] same_pair(sv, y, j as int) by {
                assert(!same_pair(sv, y, i as int));
            }
            return j;
        }
        j = j + 1;
    }
    i
}

proof fn lemma_first_unique(s: Seq<UpdateView>, a: int, b: int)
    requires
        0 <= a < s.len(),
        0 <= b < s.len(),
        is_first(s, a),
        is_first(s, b),
        same_pair(s, a, b),
    ensures
        a == b,
{
    if a < b {
        assert(same_pair(s, a, b));
    } else if b < a {
        assert(same_pair(s, b, a));
    }
}

proof fn lemma_counts_sum(sv: Seq<UpdateView>, counted: Seq<(usize, i128)>, x: usize, n: int)
    requires
        counted.len() == sv.len(),
        forall|t: int| 0 <= t < sv.len() ==> counted_at(sv, #[trigger] counted[t], t),
        0 <= n <= sv.len(),
    ensures
        item_sum(counted.subrange(0, n), x) == (if (x as int) < sv.len() && is_first(sv, x as int) {
            net(sv.subrange(0, n), sv[x as int].key, sv[x as int].value)
        } else {
            0
        }),
    decreases n,
{
    if n > 0 {
        let t = n - 1;
        lemma_counts_sum(sv, counted, x, t);
        assert(counted.subrange(0, n).drop_last() =~= counted.subrange(0, t));
        assert(sv.subrange(0, n).drop_last() =~= sv.subrange(0, t));
        assert(counted.subrange(0, n).last() == counted[t]);
        assert(sv.subrange(0, n).last() == sv[t]);
        assert(counted_at(sv, counted[t], t));
        let r = counted[t].0 as int;
        if (x as int) < sv.len() && is_first(sv, x as int) {
            if same_pair(sv, t, x as int) {
                assert(same_pair(sv, r, x as int));
                lemma_first_unique(sv, r, x as int);
            }
            if r == x as int {
                assert(same_pair(sv, t, x as int));
            }
        }
    } else {
        assert(counted.subrange(0, 0).len() == 0);
        assert(sv.subrange(0, 0).len() == 0);
    }
}

proof fn lemma_item_sum_unique(c: Seq<(usize, i128)>, x: usize)
    requires
        forall|i: int, j: int| 0 <= i < j < c.len() ==> (#[trigger] c[i]).0 < (#[trigger] c[j]).0,
    ensures
        forall|b: int| 0 <= b < c.len() && (#[trigger] c[b]).0 == x ==> item_sum(c, x) == c[b].1,
        (forall|b: int| 0 <= b < c.len() ==> (#[trigger] c[b]).0 != x) ==> item_sum(c, x) == 0,
    decreases c.len(),
{
    if c.len() > 0 {
        let init = c.drop_last();
        assert forall|i: int, j: int| 0 <= i < j < init.len() implies (#[trigger] init[i]).0 < (#[trigger] init[j]).0 by {
            assert(init[i] == c[i] && init[j] == c[j]);
        }
        lemma_item_sum_unique(init, x);
        assert forall|b: int| 0 <= b < c.len() && (#[trigger] c[b]).0 == x implies item_sum(c, x) == c[b].1 by {
            if b < c.len() - 1 {
                assert(init[b] == c[b]);
                assert(c[b].0 < c[c.len() - 1].0);
            } else {
                assert forall|d: int| 0 <= d < init.len() implies (#[trigger] init[d]).0 != x by {
                    assert(init[d] == c[d]);
                    assert(c[d].0 < c[b].0);
                }
            }
        }
        if forall|b: int| 0 <= b < c.len() ==> (#[trigger] c[b]).0 != x {
            assert forall|d: int| 0 <= d < init.len() implies (#[trigger] init[d]).0 != x by {
                assert(init[d] == c[d]);
            }
            assert(c[c.len() - 1].0 != x);
        }
    }
}

/// How far into the collected output the first `a` consolidated entries reach.
pub open spec fn counted_upto(c: Seq<(usize, i128)>, a: int) -> int {
    if a <= 0 {
        0
    } else {
        c[a - 1].0 + 1
    }
}

/// Between consolidated entries `a - 1` and `a` (or the end) no update is the
/// first of a (key, value) netting to 1: each such update has an entry.
proof fn lemma_no_live_between(sv: Seq<UpdateView>, counted: Seq<(usize, i128)>, c: Seq<(usize, i128)>, a: int, n: int)
    requires
        0 <= a <= c.len(),
        counted.len() == sv.len(),
        forall|t: int| 0 <= t < sv.len() ==> counted_at(sv, #[trigger] counted[t], t),
        forall|x: usize| #[trigger] item_sum(counted, x) == (if (x as int) < sv.len() && is_first(sv, x as int) {
            net(sv, sv[x as int].key, sv[x as int].value)
        } else {
            0
        }),
        forall|x: usize| #[trigger] item_sum(c, x) == item_sum(counted, x),
        forall|i: int, j: int| 0 <= i < j < c.len() ==> (#[trigger] c[i]).0 < (#[trigger] c[j]).0,
        forall|b: int| 0 <= b < c.len() ==> (#[trigger] c[b]).0 < sv.len(),
        counted_upto(c, a) <= n,
        a < c.len() ==> n <= c[a].0,
        n <= sv.len() <= usize::MAX,
    ensures
        live_upto(sv, n) == live_upto(sv, counted_upto(c, a)),
    decreases n,
{
    if n > counted_upto(c, a) {
        lemma_no_live_between(sv, counted, c, a, n - 1);
        let i = n - 1;
        if is_live_first(sv, i) {
            assert((i as usize) as int == i);
            assert(item_sum(counted, i as usize) == 1);
            lemma_item_sum_unique(c, i as usize);
            let b = choose|b: int| 0 <= b < c.len() && (#[trigger] c[b]).0 == i as usize;
            if b < a {
                if b < a - 1 {
                    assert(c[b].0 < c[a - 1].0);
                }
            } else if b > a {
                assert(c[a].0 < c[b].0);
            }
        }
    }
}

/// The net of an update is that of the first update like it: 1 where the
/// consolidated counts hold an entry for that one, and 0 where they do not.
proof fn lemma_net_by_count(sv: Seq<UpdateView>, counted: Seq<(usize, i128)>, c: Seq<(usize, i128)>, i: int)
    requires
        0 <= i < sv.len(),
        counted.len() == sv.len(),
        forall|t: int| 0 <= t < sv.len() ==> counted_at(sv, #[trigger] counted[t], t),
        forall|x: usize| #[trigger] item_sum(counted, x) == (if (x as int) < sv.len() && is_first(sv, x as int) {
            net(sv, sv[x as int].key, sv[x as int].value)
        } else {
            0
        }),
        forall|x: usize| #[trigger] item_sum(c, x) == item_sum(counted, x),
        forall|i: int, j: int| 0 <= i < j < c.len() ==> (#[trigger] c[i]).0 < (#[trigger] c[j]).0,
        forall|b: int| 0 <= b < c.len() ==> (#[trigger] c[b]).1 == 1,
    ensures
        net(sv, sv[i].key, sv[i].value) == 0 || net(sv, sv[i].key, sv[i].value) == 1,
{
    assert(counted_at(sv, counted[i], i));
    let r = counted[i].0;
    assert(item_sum(counted, r) == net(sv, sv[r as int].key, sv[r as int].value));
    assert(item_sum(c, r) == item_sum(counted, r));
    lemma_item_sum_unique(c, r);
    if exists|b: int| 0 <= b < c.len() && (#[trigger] c[b]).0 == r {
        let b = choose|b: int| 0 <= b < c.len() && (#[trigger] c[b]).0 == r;
        assert(c[b].1 == 1);
    }
}


} // verus!
