//! Engine-wide laws.
//!
//! What the components promise together: a cleanly applied plan is exactly
//! reversed by the following undo, and a consumed record is never found
//! again.
use vstd::prelude::*;
use crate::num::TS_LIMIT;
use crate::record::{p_txn, ItemModel, TxnModel};
use crate::roundtrip::lemma_parse_encode;
use crate::engine::{
    spec_write, spec_undo, spec_latest, spec_archive, is_latest_rec, is_rec_name, rec_ts, rec_name,
    arch_name, under_state, lit_last_name, apply_map, apply_ok, apply_acts, replay_map,
    replay_count, lemma_rec_name_props, lemma_state_names, lemma_latest_unique, EngineError,
};
use crate::resolve::{spec_resolve, cand, lemma_resolve_suffix_run};

verus! {

/// A plan that collides with nothing: each move, at its turn, finds its
/// source present, its desired destination free, and touches nothing under
/// the hidden state directory.
pub open spec fn plan_clean(m: Map<Seq<u8>, Seq<u8>>, items: Seq<ItemModel>) -> bool
    decreases items.len(),
{
    items.len() == 0 || {
        let it = items[0];
        &&& m.contains_key(it.from)
        &&& !m.contains_key(it.to)
        &&& !under_state(it.from)
        &&& !under_state(it.to)
        &&& plan_clean(m.remove(it.from).insert(it.to, m[it.from]), items.skip(1))
    }
}

/// A clean plan applies in full, with every destination used unchanged.
pub proof fn lemma_apply_clean(m: Map<Seq<u8>, Seq<u8>>, items: Seq<ItemModel>)
    requires
        plan_clean(m, items),
    ensures
        apply_ok(m, items),
        apply_acts(m, items) == items,
    decreases items.len(),
{
    if items.len() == 0 {
        assert(apply_acts(m, items) =~= items);
    } else {
        let it = items[0];
        assert(spec_resolve(m, it.to) == it.to);
        let m1 = m.remove(it.from).insert(it.to, m[it.from]);
        lemma_apply_clean(m1, items.skip(1));
        let hd = ItemModel { from: it.from, to: it.to, reason: it.reason, duplicate: it.duplicate };
        assert(hd == it);
        assert(apply_acts(m, items) == seq![it] + apply_acts(m1, items.skip(1)));
        assert(seq![it] + items.skip(1) =~= items);
    }
}

/// Applying a clean plan leaves everything under the state directory alone.
proof fn lemma_apply_state_frame(m: Map<Seq<u8>, Seq<u8>>, items: Seq<ItemModel>, k: Seq<u8>)
    requires
        plan_clean(m, items),
        under_state(k),
    ensures
        apply_map(m, items).contains_key(k) == m.contains_key(k),
        m.contains_key(k) ==> apply_map(m, items)[k] == m[k],
    decreases items.len(),
{
    if items.len() == 0 {
    } else {
        let it = items[0];
        assert(spec_resolve(m, it.to) == it.to);
        let m1 = m.remove(it.from).insert(it.to, m[it.from]);
        lemma_apply_state_frame(m1, items.skip(1), k);
        assert(k != it.from && k != it.to);
    }
}

/// One reverse move, as the undo replay performs it.
pub open spec fn undo_step(m: Map<Seq<u8>, Seq<u8>>, x: ItemModel) -> Map<Seq<u8>, Seq<u8>> {
    if m.contains_key(x.to) {
        m.remove(x.to).insert(x.from, m[x.to])
    } else {
        m
    }
}

/// Replaying `x :: s` undoes `s` first, then `x`.
proof fn lemma_replay_cons(m: Map<Seq<u8>, Seq<u8>>, x: ItemModel, s: Seq<ItemModel>)
    ensures
        replay_map(m, seq![x] + s) == undo_step(replay_map(m, s), x),
        replay_count(m, seq![x] + s) == replay_count(m, s) + (if replay_map(
            m,
            s,
        ).contains_key(x.to) {
            1int
        } else {
            0int
        }),
    decreases s.len(),
{
    let q = seq![x] + s;
    assert(q.len() == s.len() + 1);
    if s.len() == 0 {
        assert(q.last() == x);
        assert(q.drop_last() =~= Seq::<ItemModel>::empty());
        let m1 = if m.contains_key(x.to) {
            m.remove(x.to).insert(x.from, m[x.to])
        } else {
            m
        };
        assert(replay_map(m, q) == replay_map(m1, q.drop_last()));
        assert(replay_map(m1, q.drop_last()) == m1);
        assert(replay_map(m, s) == m);
        assert(m1 == undo_step(m, x));
        assert(replay_count(m, q) == (if m.contains_key(x.to) {
            1int
        } else {
            0int
        }) + replay_count(m1, q.drop_last()));
        assert(replay_count(m1, q.drop_last()) == 0);
        assert(replay_count(m, s) == 0);
    } else {
        assert(q.last() == s.last());
        assert(q.drop_last() =~= seq![x] + s.drop_last());
        let it = s.last();
        let m1 = if m.contains_key(it.to) {
            m.remove(it.to).insert(it.from, m[it.to])
        } else {
            m
        };
        lemma_replay_cons(m1, x, s.drop_last());
        assert(replay_map(m, q) == replay_map(m1, q.drop_last()));
        assert(replay_map(m1, q.drop_last()) == replay_map(m1, seq![x] + s.drop_last()));
        assert(replay_map(m, s) == replay_map(m1, s.drop_last()));
        assert(replay_count(m, q) == (if m.contains_key(it.to) {
            1int
        } else {
            0int
        }) + replay_count(m1, q.drop_last()));
        assert(replay_count(m, s) == (if m.contains_key(it.to) {
            1int
        } else {
            0int
        }) + replay_count(m1, s.drop_last()));
    }
}

/// Replaying a cleanly applied plan in reverse restores the starting model,
/// move for move, whatever extra state-directory entries were written in
/// between.
proof fn lemma_replay_restores(
    m: Map<Seq<u8>, Seq<u8>>,
    w: Map<Seq<u8>, Seq<u8>>,
    items: Seq<ItemModel>,
)
    requires
        plan_clean(m, items),
        forall|k: Seq<u8>| w.dom().contains(k) ==> under_state(k),
    ensures
        replay_map(apply_map(m, items).union_prefer_right(w), items) == m.union_prefer_right(w),
        replay_count(apply_map(m, items).union_prefer_right(w), items) == items.len(),
    decreases items.len(),
{
    if items.len() == 0 {
    } else {
        let it = items[0];
        assert(spec_resolve(m, it.to) == it.to);
        let m1 = m.remove(it.from).insert(it.to, m[it.from]);
        assert(apply_map(m, items) == apply_map(m1, items.skip(1)));
        lemma_replay_restores(m1, w, items.skip(1));
        let a = apply_map(m1, items.skip(1)).union_prefer_right(w);
        lemma_replay_cons(a, it, items.skip(1));
        assert(seq![it] + items.skip(1) =~= items);
        let r1 = replay_map(a, items.skip(1));
        assert(r1 == m1.union_prefer_right(w));
        assert(!w.dom().contains(it.to));
        assert(!w.dom().contains(it.from));
        assert(r1.contains_key(it.to));
        assert(r1[it.to] == m[it.from]);
        assert(undo_step(r1, it) =~= m.union_prefer_right(w));
        assert(replay_count(a, items) == items.len());
    }
}

/// Conflict suffixing as the application engine performs it: a one-item
/// plan whose desired destination is taken, beside the candidates `1..=n`,
/// moves its file to the first free candidate `n + 1`, records that
/// destination, and leaves the desired file and every existing candidate
/// with the bytes it had.
pub proof fn lemma_apply_suffix_run(m: Map<Seq<u8>, Seq<u8>>, it: ItemModel, n: nat)
    requires
        m.contains_key(it.from),
        m.contains_key(it.to),
        forall|k: nat| 1 <= k <= n ==> m.contains_key(cand(it.to, k)),
        !m.contains_key(cand(it.to, (n + 1) as nat)),
        it.from != it.to,
        forall|k: nat| 1 <= k <= n ==> it.from != cand(it.to, k),
    ensures
        ({
            let c = cand(it.to, (n + 1) as nat);
            let m1 = apply_map(m, seq![it]);
            &&& apply_ok(m, seq![it])
            &&& apply_acts(m, seq![it]) == seq![
                ItemModel { from: it.from, to: c, reason: it.reason, duplicate: it.duplicate },
            ]
            &&& m1.contains_key(c) && m1[c] == m[it.from]
            &&& !m1.contains_key(it.from)
            &&& m1.contains_key(it.to) && m1[it.to] == m[it.to]
            &&& forall|k: nat|
                1 <= k <= n ==> m1.contains_key(cand(it.to, k)) && m1[cand(it.to, k)] == m[cand(
                    it.to,
                    k,
                )]
        }),
{
    lemma_resolve_suffix_run(m, it.to, n);
    let c = cand(it.to, (n + 1) as nat);
    assert(spec_resolve(m, it.to) == c);
    assert(seq![it].len() == 1);
    assert(seq![it][0] == it);
    assert(seq![it].skip(1) =~= Seq::<ItemModel>::empty());
    let m1 = m.remove(it.from).insert(c, m[it.from]);
    assert(apply_map(m, seq![it]) == apply_map(m1, seq![it].skip(1)));
    assert(apply_map(m1, Seq::<ItemModel>::empty()) == m1);
    let hd = ItemModel { from: it.from, to: c, reason: it.reason, duplicate: it.duplicate };
    assert(apply_acts(m, seq![it]) == seq![hd] + apply_acts(m1, seq![it].skip(1)));
    assert(apply_acts(m1, Seq::<ItemModel>::empty()) == Seq::<ItemModel>::empty());
    assert(apply_acts(m, seq![it]) =~= seq![hd]);
    assert(apply_ok(m1, Seq::<ItemModel>::empty()));
    assert(apply_ok(m, seq![it]));
    assert(it.to != c);
    assert forall|k: nat| 1 <= k <= n implies m1.contains_key(cand(it.to, k)) && m1[cand(
        it.to,
        k,
    )] == m[cand(it.to, k)] by {
        assert(cand(it.to, k) != c);
        assert(cand(it.to, k) != it.from);
    }
}

/// The record files of a model.
pub open spec fn rec_keys(m: Map<Seq<u8>, Seq<u8>>) -> Set<Seq<u8>> {
    m.dom().filter(|p: Seq<u8>| is_rec_name(p))
}

/// Replaying a transaction whose sources name no record never creates one.
proof fn lemma_replay_keeps_recs(m: Map<Seq<u8>, Seq<u8>>, acts: Seq<ItemModel>)
    requires
        forall|i: int| 0 <= i < acts.len() ==> !is_rec_name(#[trigger] acts[i].from),
    ensures
        rec_keys(replay_map(m, acts)) <= rec_keys(m),
    decreases acts.len(),
{
    if acts.len() == 0 {
    } else {
        let it = acts.last();
        let m1 = if m.contains_key(it.to) {
            m.remove(it.to).insert(it.from, m[it.to])
        } else {
            m
        };
        assert(rec_keys(m1) <= rec_keys(m)) by {
            assert forall|q: Seq<u8>| rec_keys(m1).contains(q) implies rec_keys(m).contains(q) by {
                assert(q != it.from);
            }
        }
        assert(forall|i: int|
            0 <= i < acts.drop_last().len() ==> !is_rec_name(
                #[trigger] acts.drop_last()[i].from,
            ));
        lemma_replay_keeps_recs(m1, acts.drop_last());
    }
}

/// A successful undo retires the record it consumed: afterwards the records
/// are at most those before, less the consumed one. In particular a second
/// undo cannot find it again.
pub proof fn lemma_undo_archives(m: Map<Seq<u8>, Seq<u8>>, k: Seq<u8>, t: TxnModel)
    requires
        spec_latest(m) == Some(k),
        p_txn(m[k]) == Some(t),
        forall|i: int| 0 <= i < t.actions.len() ==> !is_rec_name(#[trigger] t.actions[i].from),
    ensures
        spec_undo(m).1 is Ok,
        rec_keys(spec_undo(m).0) <= rec_keys(m).remove(k),
{
    let k0 = choose|q: Seq<u8>| is_latest_rec(m, q);
    assert(is_latest_rec(m, k0));
    assert(k0 == k);
    assert(is_rec_name(k));
    lemma_state_names(k);
    let mrep = replay_map(m, t.actions);
    lemma_replay_keeps_recs(m, t.actions);
    let mu = spec_archive(mrep, k);
    assert(rec_keys(mu) <= rec_keys(m).remove(k)) by {
        assert forall|q: Seq<u8>| rec_keys(mu).contains(q) implies rec_keys(m).remove(k).contains(
            q,
        ) by {
            assert(q != arch_name(k));
            assert(q != k);
            assert(rec_keys(mrep).contains(q));
        }
    }
}

/// Undo is not repeatable: after a successful undo of the only transaction,
/// a second undo fails with `NotFound`.
pub proof fn lemma_undo_idempotent(m: Map<Seq<u8>, Seq<u8>>, k: Seq<u8>, t: TxnModel)
    requires
        spec_latest(m) == Some(k),
        p_txn(m[k]) == Some(t),
        forall|i: int| 0 <= i < t.actions.len() ==> !is_rec_name(#[trigger] t.actions[i].from),
        rec_keys(m) == Set::empty().insert(k),
    ensures
        spec_undo(m).1 is Ok,
        spec_undo(spec_undo(m).0).1 == Err::<(nat, Seq<ItemModel>), EngineError>(
            EngineError::NotFound,
        ),
{
    lemma_undo_archives(m, k, t);
    let mu = spec_undo(m).0;
    assert(rec_keys(mu) <= rec_keys(m).remove(k));
    assert(rec_keys(m).remove(k) =~= Set::<Seq<u8>>::empty());
    if exists|q: Seq<u8>| is_latest_rec(mu, q) {
        let q = choose|q: Seq<u8>| is_latest_rec(mu, q);
        assert(rec_keys(mu).contains(q));
        assert(false);
    }
    assert(spec_latest(mu) is None);
}

/// Round trip of apply and undo: a clean plan applied at a fresh timestamp
/// and undone at once restores every file outside the state directory, and
/// the undo restores exactly as many files as the plan moved.
pub proof fn lemma_apply_then_undo(m0: Map<Seq<u8>, Seq<u8>>, items: Seq<ItemModel>, now: nat)
    requires
        now < TS_LIMIT,
        plan_clean(m0, items),
        forall|q: Seq<u8>| m0.contains_key(q) && #[trigger] is_rec_name(q) ==> rec_ts(q) < now,
    ensures
        ({
            let t = TxnModel { actions: items, when: now };
            let ma = spec_write(apply_map(m0, items), t);
            let mu = spec_undo(ma).0;
            &&& apply_ok(m0, items)
            &&& apply_acts(m0, items) == items
            &&& spec_undo(ma).1 matches Ok(pr) && pr.0 == items.len()
            &&& forall|p: Seq<u8>|
                !under_state(p) ==> (#[trigger] mu.contains_key(p) <==> m0.contains_key(p))
            &&& forall|p: Seq<u8>|
                !under_state(p) && m0.contains_key(p) ==> #[trigger] mu[p] == m0[p]
        }),
{
    let t = TxnModel { actions: items, when: now };
    let rk = rec_name(now);
    let ln = lit_last_name();
    lemma_rec_name_props(now);
    lemma_state_names(rk);
    lemma_apply_clean(m0, items);
    let a = apply_map(m0, items);
    let ma = spec_write(a, t);
    let w = Map::<Seq<u8>, Seq<u8>>::empty().insert(rk, crate::record::enc_txn(t)).insert(
        ln,
        crate::engine::lit_ok(),
    );
    assert(rk != ln);
    assert(forall|k: Seq<u8>| w.dom().contains(k) ==> under_state(k));
    assert(ma =~= a.union_prefer_right(w));
    // the new record is the unique latest
    assert(is_latest_rec(ma, rk)) by {
        assert(ma.contains_key(rk));
        assert forall|q: Seq<u8>| ma.contains_key(q) && #[trigger] is_rec_name(q) implies rec_ts(q)
            <= rec_ts(rk) by {
            if q != rk && q != ln {
                assert(a.contains_key(q));
                lemma_state_names(q);
                lemma_apply_state_frame(m0, items, q);
                assert(m0.contains_key(q));
            }
        }
    }
    let k0 = choose|q: Seq<u8>| is_latest_rec(ma, q);
    assert(is_latest_rec(ma, k0));
    lemma_latest_unique(ma, k0, rk);
    assert(spec_latest(ma) == Some(rk));
    // the record parses back to the transaction
    assert(ma[rk] == crate::record::enc_txn(t));
    lemma_parse_encode(t);
    assert(p_txn(ma[rk]) == Some(t));
    // the replay restores, counting every item
    lemma_replay_restores(m0, w, items);
    assert(replay_map(ma, t.actions) == m0.union_prefer_right(w));
    assert(replay_count(ma, t.actions) == items.len());
    // archiving touches only state names
    let mrep = m0.union_prefer_right(w);
    assert(mrep.contains_key(rk));
    let mu = spec_undo(ma).0;
    assert(mu == spec_archive(mrep, rk));
    assert forall|p: Seq<u8>| !under_state(p) implies (#[trigger] mu.contains_key(p)
        <==> m0.contains_key(p)) && (m0.contains_key(p) ==> mu[p] == m0[p]) by {
        assert(p != rk && p != ln && p != arch_name(rk));
        assert(!w.dom().contains(p));
    }
}

} // verus!
