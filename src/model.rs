//! The meaning of upsert processing, as functions on mathematical values,
//! and the laws that hold of it.
use crate::codec::ValueView;
use crate::state::{lemma_put_all_distinct, put_all, StateMap};
use vstd::prelude::*;
use vstd::relations::{sorted_by, total_ordering};

verus! {

/// A command: at `time`, set `key` to `value`, or delete it where `value` is `None`.
/// `order` breaks ties between commands at one time for one key.
pub struct CommandView {
    pub time: u64,
    pub key: Seq<u8>,
    pub order: u64,
    pub value: Option<ValueView>,
}

/// One emitted change: `value` for `key` gains `diff` at `time`.
pub struct UpdateView {
    pub key: Seq<u8>,
    pub value: ValueView,
    pub time: u64,
    pub diff: int,
}

/// An upper frontier over totally ordered times: `Some(t)` admits the times
/// from `t` on, `None` admits none.
pub open spec fn before_frontier(upper: Option<u64>, time: u64) -> bool {
    match upper {
        Some(u) => time < u,
        None => true,
    }
}

/// Commands that an upper frontier no longer admits: ready to be processed.
pub open spec fn is_ready(upper: Option<u64>) -> spec_fn(CommandView) -> bool {
    |c: CommandView| before_frontier(upper, c.time)
}

/// Commands that an upper frontier still admits: to be kept for later.
pub open spec fn is_pending(upper: Option<u64>) -> spec_fn(CommandView) -> bool {
    |c: CommandView| !before_frontier(upper, c.time)
}

/// `a <= b` for frontiers: every time that `b` admits, `a` admits.
pub open spec fn frontier_le(a: Option<u64>, b: Option<u64>) -> bool {
    match (a, b) {
        (_, None) => true,
        (None, Some(_)) => false,
        (Some(x), Some(y)) => x <= y,
    }
}

/// The store after one command.
pub open spec fn step(m: StateMap, c: CommandView) -> StateMap {
    match c.value {
        Some(v) => m.insert(c.key, v),
        None => m.remove(c.key),
    }
}

/// The store after the commands, one after the other.
pub open spec fn apply(m: StateMap, cs: Seq<CommandView>) -> StateMap
    decreases cs.len(),
{
    if cs.len() == 0 {
        m
    } else {
        step(apply(m, cs.drop_last()), cs.last())
    }
}

/// The changes that one command makes: the key's current value is
/// retracted, and a new value is inserted.
pub open spec fn step_out(m: StateMap, c: CommandView) -> Seq<UpdateView> {
    let retract = if m.contains_key(c.key) {
        seq![UpdateView { key: c.key, value: m[c.key], time: c.time, diff: -1 }]
    } else {
        Seq::empty()
    };
    let insert = match c.value {
        Some(v) => seq![UpdateView { key: c.key, value: v, time: c.time, diff: 1 }],
        None => Seq::empty(),
    };
    retract + insert
}

/// The changes that the commands make, one after the other.
pub open spec fn emit(m: StateMap, cs: Seq<CommandView>) -> Seq<UpdateView>
    decreases cs.len(),
{
    if cs.len() == 0 {
        Seq::empty()
    } else {
        emit(m, cs.drop_last()) + step_out(apply(m, cs.drop_last()), cs.last())
    }
}

/// Whether command `j` of `p` takes precedence over command `i`: same time
/// and key, and a higher order, or the same order and an earlier arrival.
pub open spec fn supersedes(p: Seq<CommandView>, j: int, i: int) -> bool {
    &&& p[j].time == p[i].time
    &&& p[j].key == p[i].key
    &&& (p[j].order > p[i].order || (p[j].order == p[i].order && j < i))
}

/// Whether command `i` of `p` is the one that counts for its time and key.
pub open spec fn is_winner(p: Seq<CommandView>, i: int) -> bool {
    forall|j: int| 0 <= j < p.len() ==> !#[trigger] supersedes(p, j, i)
}

/// The commands among the first `n` of `p` that count, in arrival order.
pub open spec fn winners_upto(p: Seq<CommandView>, n: int) -> Seq<CommandView>
    decreases n,
{
    if n <= 0 {
        Seq::empty()
    } else if is_winner(p, n - 1) {
        winners_upto(p, n - 1).push(p[n - 1])
    } else {
        winners_upto(p, n - 1)
    }
}

pub open spec fn winners(p: Seq<CommandView>) -> Seq<CommandView> {
    winners_upto(p, p.len() as int)
}

/// Lexicographic order on (time, position) pairs.
pub open spec fn time_then_position() -> spec_fn((u64, usize), (u64, usize)) -> bool {
    |a: (u64, usize), b: (u64, usize)| a.0 < b.0 || (a.0 == b.0 && a.1 <= b.1)
}

/// Each command's time, paired with its position.
pub open spec fn time_positions(w: Seq<CommandView>) -> Seq<(u64, usize)> {
    Seq::new(w.len(), |i: int| (w[i].time, i as usize))
}

/// The commands ordered by time; commands at one time keep their order.
pub open spec fn in_time_order(w: Seq<CommandView>) -> Seq<CommandView> {
    time_positions(w).sort_by(time_then_position()).map_values(|q: (u64, usize)| w[q.1 as int])
}

/// The commands of a ready batch as they are applied: those that count,
/// ordered by time.
pub open spec fn batch(p: Seq<CommandView>) -> Seq<CommandView> {
    in_time_order(winners(p))
}

/// The net change of `value` for `key` in `s`.
pub open spec fn net(s: Seq<UpdateView>, key: Seq<u8>, value: ValueView) -> int
    decreases s.len(),
{
    if s.len() == 0 {
        0
    } else {
        net(s.drop_last(), key, value) + if s.last().key == key && s.last().value == value {
            s.last().diff
        } else {
            0
        }
    }
}

/// The net change of all values for `key` in `s`.
pub open spec fn net_key(s: Seq<UpdateView>, key: Seq<u8>) -> int
    decreases s.len(),
{
    if s.len() == 0 {
        0
    } else {
        net_key(s.drop_last(), key) + if s.last().key == key {
            s.last().diff
        } else {
            0
        }
    }
}

/// 1 where `m` holds `value` for `key`, else 0.
pub open spec fn holds(m: StateMap, key: Seq<u8>, value: ValueView) -> int {
    if m.contains_key(key) && m[key] == value {
        1
    } else {
        0
    }
}

/// 1 where `m` holds some value for `key`, else 0.
pub open spec fn has_key(m: StateMap, key: Seq<u8>) -> int {
    if m.contains_key(key) {
        1
    } else {
        0
    }
}

/// A collection of earlier output that describes a store: every (key,
/// value) in it nets to 0 or 1.
pub open spec fn consistent(s: Seq<UpdateView>) -> bool {
    forall|i: int| 0 <= i < s.len() ==> net(s, #[trigger] s[i].key, s[i].value) == 0 || net(s, s[i].key, s[i].value) == 1
}

/// Whether updates `a` and `b` of `s` have the same key and value.
pub open spec fn same_pair(s: Seq<UpdateView>, a: int, b: int) -> bool {
    s[a].key == s[b].key && s[a].value == s[b].value
}

/// Whether update `x` of `s` is the first with its key and value.
pub open spec fn is_first(s: Seq<UpdateView>, x: int) -> bool {
    forall|y: int| 0 <= y < x ==> !#[trigger] same_pair(s, y, x)
}

/// Whether update `x` of `s` is the first of a (key, value) that nets to 1.
pub open spec fn is_live_first(s: Seq<UpdateView>, x: int) -> bool {
    is_first(s, x) && net(s, s[x].key, s[x].value) == 1
}

/// The (key, value) pairs among the first `n` updates of `s` that net to 1,
/// each once, in the order in which they first appear.
pub open spec fn live_upto(s: Seq<UpdateView>, n: int) -> Seq<(Seq<u8>, Option<ValueView>)>
    decreases n,
{
    if n <= 0 {
        Seq::empty()
    } else if is_live_first(s, n - 1) {
        live_upto(s, n - 1).push((s[n - 1].key, Some(s[n - 1].value)))
    } else {
        live_upto(s, n - 1)
    }
}

/// The store that earlier output describes: the (key, value) pairs that net
/// to 1, put in the order in which they first appear.
pub open spec fn rehydrated(s: Seq<UpdateView>) -> StateMap {
    put_all(Map::empty(), live_upto(s, s.len() as int))
}

pub proof fn lemma_time_then_position_total()
    ensures
        total_ordering(time_then_position()),
{
}

pub proof fn lemma_net_append(a: Seq<UpdateView>, b: Seq<UpdateView>, key: Seq<u8>, value: ValueView)
    ensures
        net(a + b, key, value) == net(a, key, value) + net(b, key, value),
        net_key(a + b, key) == net_key(a, key) + net_key(b, key),
    decreases b.len(),
{
    if b.len() > 0 {
        assert((a + b).drop_last() =~= a + b.drop_last());
        lemma_net_append(a, b.drop_last(), key, value);
    }
}

proof fn lemma_net_single(u: UpdateView, key: Seq<u8>, value: ValueView)
    ensures
        net(seq![u], key, value) == if u.key == key && u.value == value { u.diff } else { 0 },
        net_key(seq![u], key) == if u.key == key { u.diff } else { 0 },
{
    assert(seq![u].drop_last() =~= Seq::<UpdateView>::empty());
    assert(seq![u].last() == u);
    assert(net(Seq::<UpdateView>::empty(), key, value) == 0);
    assert(net_key(Seq::<UpdateView>::empty(), key) == 0);
}

proof fn lemma_step_out_net(m: StateMap, c: CommandView, key: Seq<u8>, value: ValueView)
    ensures
        net(step_out(m, c), key, value) == holds(step(m, c), key, value) - holds(m, key, value),
        net_key(step_out(m, c), key) == has_key(step(m, c), key) - has_key(m, key),
{
    let retract = if m.contains_key(c.key) {
        seq![UpdateView { key: c.key, value: m[c.key], time: c.time, diff: -1 }]
    } else {
        Seq::<UpdateView>::empty()
    };
    let insert = match c.value {
        Some(v) => seq![UpdateView { key: c.key, value: v, time: c.time, diff: 1 }],
        None => Seq::<UpdateView>::empty(),
    };
    assert(step_out(m, c) == retract + insert);
    lemma_net_append(retract, insert, key, value);
    if m.contains_key(c.key) {
        lemma_net_single(UpdateView { key: c.key, value: m[c.key], time: c.time, diff: -1 }, key, value);
    }
    match c.value {
        Some(v) => {
            lemma_net_single(UpdateView { key: c.key, value: v, time: c.time, diff: 1 }, key, value);
        },
        None => {},
    }
}

/// Net effect: emitting the changes of commands from a store `m` changes
/// each (key, value) by exactly how much the store's holding of it changed,
/// and each key by whether it gained or lost a value.
pub proof fn lemma_emit_net(m: StateMap, cs: Seq<CommandView>, key: Seq<u8>, value: ValueView)
    ensures
        net(emit(m, cs), key, value) == holds(apply(m, cs), key, value) - holds(m, key, value),
        net_key(emit(m, cs), key) == has_key(apply(m, cs), key) - has_key(m, key),
    decreases cs.len(),
{
    if cs.len() > 0 {
        lemma_emit_net(m, cs.drop_last(), key, value);
        lemma_net_append(emit(m, cs.drop_last()), step_out(apply(m, cs.drop_last()), cs.last()), key, value);
        lemma_step_out_net(apply(m, cs.drop_last()), cs.last(), key, value);
    }
}

/// Starting from an empty store, the changes emitted for any key net to 0
/// or 1 (never more than one live value, never a negative count), and each
/// (key, value) nets to 1 exactly when the store ends up holding it.
pub proof fn lemma_output_nets_to_zero_or_one(cs: Seq<CommandView>, key: Seq<u8>, value: ValueView)
    ensures
        net_key(emit(Map::empty(), cs), key) == has_key(apply(Map::empty(), cs), key),
        0 <= net_key(emit(Map::empty(), cs), key) <= 1,
        net(emit(Map::empty(), cs), key, value) == holds(apply(Map::empty(), cs), key, value),
        0 <= net(emit(Map::empty(), cs), key, value) <= 1,
{
    lemma_emit_net(Map::empty(), cs, key, value);
}

/// A deletion of a key that holds `v` emits one retraction of `v` and
/// nothing else; a deletion of an absent key emits nothing.
pub proof fn lemma_delete_retracts(m: StateMap, time: u64, key: Seq<u8>, order: u64)
    ensures
        ({
            let c = CommandView { time, key, order, value: None };
            emit(m, seq![c]) == if m.contains_key(key) {
                seq![UpdateView { key, value: m[key], time, diff: -1 }]
            } else {
                Seq::<UpdateView>::empty()
            }
        }),
{
    let c = CommandView { time, key, order, value: None };
    assert(seq![c].drop_last() =~= Seq::<CommandView>::empty());
    assert(seq![c].last() == c);
    assert(emit(m, Seq::<CommandView>::empty()) == Seq::<UpdateView>::empty());
    assert(apply(m, Seq::<CommandView>::empty()) == m);
    assert(emit(m, seq![c]) =~= Seq::<UpdateView>::empty() + step_out(m, c));
    if m.contains_key(key) {
        assert(step_out(m, c) =~= seq![UpdateView { key, value: m[key], time, diff: -1 }]);
    } else {
        assert(step_out(m, c) =~= Seq::<UpdateView>::empty());
    }
}

proof fn lemma_nonzero_net_has_entry(s: Seq<UpdateView>, key: Seq<u8>, value: ValueView)
    requires
        net(s, key, value) != 0,
    ensures
        exists|i: int| 0 <= i < s.len() && #[trigger] s[i].key == key && s[i].value == value,
    decreases s.len(),
{
    if s.len() > 0 {
        if !(s.last().key == key && s.last().value == value) {
            lemma_nonzero_net_has_entry(s.drop_last(), key, value);
            let i = choose|i: int| 0 <= i < s.drop_last().len() && #[trigger] s.drop_last()[i].key == key
                && s.drop_last()[i].value == value;
            assert(s[i].key == key);
        } else {
            assert(s[s.len() - 1].key == key);
        }
    }
}

/// Entry `e` is a pair of an update before `n` that is the first of a
/// (key, value) netting to 1.
pub open spec fn comes_from(s: Seq<UpdateView>, e: (Seq<u8>, Option<ValueView>), n: int) -> bool {
    exists|i: int| 0 <= i < n && is_live_first(s, i) && e == (s[i].key, Some(s[i].value))
}

/// Each entry of `live_upto(s, n)` comes from an update before `n` that
/// is the first of a (key, value) netting to 1; where no two such updates
/// share a key, no two entries do.
proof fn lemma_live_upto(s: Seq<UpdateView>, n: int)
    requires
        0 <= n <= s.len(),
    ensures
        forall|j: int| 0 <= j < live_upto(s, n).len() ==> comes_from(s, #[trigger] live_upto(s, n)[j], n),
        forall|i: int| 0 <= i < n && #[trigger] is_live_first(s, i) ==> live_upto(s, n).contains((s[i].key, Some(s[i].value))),
        (forall|i1: int, i2: int| 0 <= i1 < i2 < n && is_live_first(s, i1) && is_live_first(s, i2) ==> #[trigger] s[i1].key != #[trigger] s[i2].key)
            ==> (forall|j1: int, j2: int| 0 <= j1 < j2 < live_upto(s, n).len() ==> (#[trigger] live_upto(s, n)[j1]).0 != (#[trigger] live_upto(s, n)[j2]).0),
    decreases n,
{
    if n > 0 {
        lemma_live_upto(s, n - 1);
        let prev = live_upto(s, n - 1);
        let cur = live_upto(s, n);
        assert forall|j: int| 0 <= j < cur.len() implies comes_from(s, #[trigger] cur[j], n) by {
            if j < prev.len() {
                assert(cur[j] == prev[j]);
                assert(comes_from(s, prev[j], n - 1));
                let i = choose|i: int| 0 <= i < n - 1 && is_live_first(s, i) && prev[j] == (s[i].key, Some(s[i].value));
                assert(cur[j] == (s[i].key, Some(s[i].value)));
                assert(0 <= i < n && is_live_first(s, i));
            } else {
                assert(is_live_first(s, n - 1));
                assert(cur[j] == (s[n - 1].key, Some(s[n - 1].value)));
            }
        }
        assert forall|i: int| 0 <= i < n && #[trigger] is_live_first(s, i) implies cur.contains((s[i].key, Some(s[i].value))) by {
            if i < n - 1 {
                let j = choose|j: int| 0 <= j < prev.len() && prev[j] == (s[i].key, Some(s[i].value));
                assert(cur[j] == prev[j]);
            } else {
                assert(cur[prev.len() as int] == (s[i].key, Some(s[i].value)));
            }
        }
        if forall|i1: int, i2: int| 0 <= i1 < i2 < n && is_live_first(s, i1) && is_live_first(s, i2) ==> #[trigger] s[i1].key != #[trigger] s[i2].key {
            assert forall|j1: int, j2: int| 0 <= j1 < j2 < cur.len() implies (#[trigger] cur[j1]).0 != (#[trigger] cur[j2]).0 by {
                if j2 < prev.len() {
                    assert(cur[j1] == prev[j1] && cur[j2] == prev[j2]);
                } else {
                    assert(cur[j1] == prev[j1]);
                    assert(comes_from(s, prev[j1], n - 1));
                    let i = choose|i: int| 0 <= i < n - 1 && is_live_first(s, i) && prev[j1] == (s[i].key, Some(s[i].value));
                    assert(s[i].key != s[n - 1].key);
                }
            }
        }
    } else {
        assert(live_upto(s, n).len() == 0);
    }
}

/// Rehydration round trip: the output emitted from an empty store for any
/// commands is a consistent collection, and the store rebuilt from it is
/// the store that replaying the commands gives.
pub proof fn lemma_rehydration_round_trip(cs: Seq<CommandView>)
    ensures
        consistent(emit(Map::empty(), cs)),
        rehydrated(emit(Map::empty(), cs)) == apply(Map::empty(), cs),
{
    let s = emit(Map::empty(), cs);
    let m = apply(Map::empty(), cs);
    assert forall|i: int| 0 <= i < s.len() implies net(s, #[trigger] s[i].key, s[i].value) == 0 || net(
        s,
        s[i].key,
        s[i].value,
    ) == 1 by {
        lemma_output_nets_to_zero_or_one(cs, s[i].key, s[i].value);
    }
    let n = s.len() as int;
    assert forall|i1: int, i2: int| 0 <= i1 < i2 < n && is_live_first(s, i1) && is_live_first(s, i2) implies #[trigger] s[i1].key != #[trigger] s[i2].key by {
        lemma_output_nets_to_zero_or_one(cs, s[i1].key, s[i1].value);
        lemma_output_nets_to_zero_or_one(cs, s[i2].key, s[i2].value);
        if s[i1].key == s[i2].key {
            assert(same_pair(s, i1, i2));
        }
    }
    lemma_live_upto(s, n);
    let live = live_upto(s, n);
    let r = rehydrated(s);
    assert forall|k: Seq<u8>| #[trigger] r.contains_key(k) == m.contains_key(k) && (m.contains_key(k) ==> r[k] == m[k]) by {
        lemma_put_all_distinct(Map::empty(), live, k);
        if m.contains_key(k) {
            lemma_output_nets_to_zero_or_one(cs, k, m[k]);
            lemma_nonzero_net_has_entry(s, k, m[k]);
            let i = choose|i: int| 0 <= i < s.len() && #[trigger] s[i].key == k && s[i].value == m[k];
            let f = lemma_first_of(s, i);
            assert(is_live_first(s, f));
            let j = choose|j: int| 0 <= j < live.len() && live[j] == (s[f].key, Some(s[f].value));
            assert(live[j].0 == k);
        } else {
            assert forall|j: int| 0 <= j < live.len() implies (#[trigger] live[j]).0 != k by {
                assert(comes_from(s, live[j], n));
                let i = choose|i: int| 0 <= i < n && is_live_first(s, i) && live[j] == (s[i].key, Some(s[i].value));
                lemma_output_nets_to_zero_or_one(cs, s[i].key, s[i].value);
            }
        }
    }
    assert(r =~= m);
}

/// The first update with the key and value of update `i`.
proof fn lemma_first_of(s: Seq<UpdateView>, i: int) -> (f: int)
    requires
        0 <= i < s.len(),
    ensures
        0 <= f <= i,
        is_first(s, f),
        same_pair(s, f, i),
    decreases i,
{
    if exists|y: int| 0 <= y < i && #[trigger] same_pair(s, y, i) {
        let y = choose|y: int| 0 <= y < i && #[trigger] same_pair(s, y, i);
        let f = lemma_first_of(s, y);
        f
    } else {
        i
    }
}

/// `m1` and `m2` hold the same thing for every key of `keys`.
pub open spec fn agree_on(m1: StateMap, m2: StateMap, keys: Set<Seq<u8>>) -> bool {
    forall|k: Seq<u8>|
        #[trigger] keys.contains(k) ==> (m1.contains_key(k) == m2.contains_key(k) && (m1.contains_key(k)
            ==> m1[k] == m2[k]))
}

/// Commands whose keys all lie in `keys` read and change stores only there.
pub proof fn lemma_apply_agree(m1: StateMap, m2: StateMap, keys: Set<Seq<u8>>, cs: Seq<CommandView>)
    requires
        agree_on(m1, m2, keys),
        forall|i: int| 0 <= i < cs.len() ==> keys.contains(#[trigger] cs[i].key),
    ensures
        agree_on(apply(m1, cs), apply(m2, cs), keys),
        emit(m1, cs) == emit(m2, cs),
    decreases cs.len(),
{
    if cs.len() > 0 {
        let init = cs.drop_last();
        assert forall|i: int| 0 <= i < init.len() implies keys.contains(#[trigger] init[i].key) by {
            assert(init[i] == cs[i]);
        }
        lemma_apply_agree(m1, m2, keys, init);
        assert(keys.contains(cs[cs.len() - 1].key));
        let a1 = apply(m1, init);
        let a2 = apply(m2, init);
        assert(step_out(a1, cs.last()) == step_out(a2, cs.last()));
    }
}

/// A key that no command names keeps what it held.
pub proof fn lemma_apply_untouched(m: StateMap, cs: Seq<CommandView>, k: Seq<u8>)
    requires
        forall|i: int| 0 <= i < cs.len() ==> #[trigger] cs[i].key != k,
    ensures
        apply(m, cs).contains_key(k) == m.contains_key(k),
        m.contains_key(k) ==> apply(m, cs)[k] == m[k],
    decreases cs.len(),
{
    if cs.len() > 0 {
        let init = cs.drop_last();
        assert forall|i: int| 0 <= i < init.len() implies #[trigger] init[i].key != k by {
            assert(init[i] == cs[i]);
        }
        lemma_apply_untouched(m, init, k);
        assert(cs[cs.len() - 1].key != k);
    }
}

/// Position `u` of `p.remove(i)` is position `shift(i, u)` of `p`.
pub open spec fn shift(i: int, u: int) -> int {
    if u < i {
        u
    } else {
        u + 1
    }
}

proof fn lemma_winner_after_remove(p: Seq<CommandView>, i: int, j: int, t: int)
    requires
        0 <= i < p.len(),
        0 <= j < p.len(),
        p[i].time == p[j].time,
        p[i].key == p[j].key,
        p[i].order < p[j].order,
        0 <= t < p.len() - 1,
    ensures
        is_winner(p.remove(i), t) == is_winner(p, shift(i, t)),
{
    let q = p.remove(i);
    let tt = shift(i, t);
    assert forall|u: int| 0 <= u < q.len() implies #[trigger] supersedes(q, u, t) == supersedes(p, shift(i, u), tt) by {
        assert(q[u] == p[shift(i, u)]);
        assert(q[t] == p[tt]);
    }
    if is_winner(q, t) {
        assert forall|u: int| 0 <= u < p.len() implies !#[trigger] supersedes(p, u, tt) by {
            if u != i {
                let uu = if u < i { u } else { u - 1 };
                assert(shift(i, uu) == u);
                assert(!supersedes(q, uu, t));
            } else if supersedes(p, i, tt) {
                assert(tt != j);
                assert(supersedes(p, j, tt));
                let jj = if j < i { j } else { j - 1 };
                assert(shift(i, jj) == j);
                assert(!supersedes(q, jj, t));
            }
        }
    }
    if is_winner(p, tt) {
        assert forall|u: int| 0 <= u < q.len() implies !#[trigger] supersedes(q, u, t) by {
            assert(!supersedes(p, shift(i, u), tt));
        }
    }
}

proof fn lemma_winners_upto_after_remove(p: Seq<CommandView>, i: int, j: int, n: int)
    requires
        0 <= i < p.len(),
        0 <= j < p.len(),
        p[i].time == p[j].time,
        p[i].key == p[j].key,
        p[i].order < p[j].order,
        0 <= n <= p.len() - 1,
    ensures
        n <= i ==> winners_upto(p.remove(i), n) == winners_upto(p, n),
        n >= i ==> winners_upto(p.remove(i), n) == winners_upto(p, n + 1),
    decreases n,
{
    let q = p.remove(i);
    if n > 0 {
        lemma_winners_upto_after_remove(p, i, j, n - 1);
        lemma_winner_after_remove(p, i, j, n - 1);
        assert(q[n - 1] == p[shift(i, n - 1)]);
        if n > i {
            assert(shift(i, n - 1) == n);
            assert(winners_upto(p, n + 1) == if is_winner(p, n) {
                winners_upto(p, n).push(p[n])
            } else {
                winners_upto(p, n)
            });
        }
    }
    if n == i {
        assert(!supersedes(p, i, i));
        assert(supersedes(p, j, i));
        assert(!is_winner(p, i));
        assert(winners_upto(p, n + 1) == winners_upto(p, n));
    }
}

/// A command superseded by another at the same time for the same key with
/// a higher order has no effect: without it, the batch is the same, and so
/// are the changes emitted and the store that results.
pub proof fn lemma_superseded_has_no_effect(p: Seq<CommandView>, i: int, j: int, m: StateMap)
    requires
        0 <= i < p.len(),
        0 <= j < p.len(),
        p[i].time == p[j].time,
        p[i].key == p[j].key,
        p[i].order < p[j].order,
    ensures
        winners(p.remove(i)) == winners(p),
        batch(p.remove(i)) == batch(p),
        emit(m, batch(p.remove(i))) == emit(m, batch(p)),
        apply(m, batch(p.remove(i))) == apply(m, batch(p)),
{
    lemma_winners_upto_after_remove(p, i, j, p.len() - 1);
}

/// Batches chain: processing `a` and then `b` emits what processing `a + b`
/// in one go emits, and leaves the same store. So the laws above, stated of
/// one run of commands from a store, hold of any number of batches.
pub proof fn lemma_batches_compose(m: StateMap, a: Seq<CommandView>, b: Seq<CommandView>)
    ensures
        apply(m, a + b) == apply(apply(m, a), b),
        emit(m, a + b) == emit(m, a) + emit(apply(m, a), b),
    decreases b.len(),
{
    if b.len() == 0 {
        assert(a + b =~= a);
        assert(emit(m, a) + emit(apply(m, a), b) =~= emit(m, a));
    } else {
        lemma_batches_compose(m, a, b.drop_last());
        assert((a + b).drop_last() =~= a + b.drop_last());
        assert((a + b).last() == b.last());
        assert(emit(m, a + b) =~= emit(m, a) + emit(apply(m, a), b));
    }
}

} // verus!
