//! Plan application, the transaction store, and undo.
//!
//! Every operation works on the model of the root ([`FsModel`]); the caller
//! mirrors the model's moves onto the real file system. The store lives
//! under the hidden `.state/` directory of the root: one record per applied
//! plan, named by its zero-padded timestamp so that "most recent" is
//! recomputed from names, a `last` sentinel whose content is never read
//! back, and an `archived/` area for records a successful undo consumed.
use vstd::prelude::*;
use crate::fs_model::FsModel;
use crate::num::{
    all_digits, digits_val, padded_ts, lemma_padded_ts, lemma_digits_val_injective, ts_to_padded,
    parse_padded_ts, TS_LIMIT,
};
use crate::record::{
    enc_txn, p_txn, items_view, ItemModel, TxnModel, TransactionItem, Transaction,
};
use crate::resolve::{spec_resolve, resolve_conflict};
use crate::codec::{encode_transaction, parse_transaction};
use crate::copy_bytes;

verus! {

/// Failures surfaced to the caller: a file-system level failure (a missing
/// source), no transaction to undo, or an unreadable record.
#[derive(Clone, Copy, Debug, PartialEq, Eq, Structural)]
pub enum EngineError {
    IoError,
    NotFound,
    SerializationError,
}

impl EngineError {
    /// A short human-readable description.
    pub fn message(&self) -> &'static str {
        match self {
            EngineError::IoError => "file operation failed",
            EngineError::NotFound => "no transaction found",
            EngineError::SerializationError => "transaction record is malformed",
        }
    }
}

// ---------------------------------------------------------------------------
// Names under the hidden state directory
// ---------------------------------------------------------------------------
/// `.state/`
pub open spec fn lit_state_prefix() -> Seq<u8> {
    seq![46u8, 115u8, 116u8, 97u8, 116u8, 101u8, 47u8]
}

/// Whether `p` lies beneath the hidden state directory.
pub open spec fn under_state(p: Seq<u8>) -> bool {
    p.len() >= 7 && p.subrange(0, 7) == lit_state_prefix()
}

/// `.state/txn-`
pub open spec fn lit_rec_prefix() -> Seq<u8> {
    seq![46u8, 115u8, 116u8, 97u8, 116u8, 101u8, 47u8, 116u8, 120u8, 110u8, 45u8]
}

/// `.json`
pub open spec fn lit_rec_suffix() -> Seq<u8> {
    seq![46u8, 106u8, 115u8, 111u8, 110u8]
}

/// `.state/last`
pub open spec fn lit_last_name() -> Seq<u8> {
    seq![46u8, 115u8, 116u8, 97u8, 116u8, 101u8, 47u8, 108u8, 97u8, 115u8, 116u8]
}

/// `.state/archived/`
pub open spec fn lit_arch_prefix() -> Seq<u8> {
    seq![
        46u8,
        115u8,
        116u8,
        97u8,
        116u8,
        101u8,
        47u8,
        97u8,
        114u8,
        99u8,
        104u8,
        105u8,
        118u8,
        101u8,
        100u8,
        47u8,
    ]
}

/// `ok`: the sentinel's content, never read back.
pub open spec fn lit_ok() -> Seq<u8> {
    seq![111u8, 107u8]
}

/// The record name for a transaction applied at `w`.
pub open spec fn rec_name(w: nat) -> Seq<u8> {
    lit_rec_prefix() + padded_ts(w) + lit_rec_suffix()
}

/// Whether `p` names a transaction record in the scanned directory.
pub open spec fn is_rec_name(p: Seq<u8>) -> bool {
    &&& p.len() == 31
    &&& p.subrange(0, 11) == lit_rec_prefix()
    &&& all_digits(p.subrange(11, 26))
    &&& p.subrange(26, 31) == lit_rec_suffix()
}

/// The timestamp a record name carries.
pub open spec fn rec_ts(p: Seq<u8>) -> int {
    digits_val(p.subrange(11, 26))
}

/// Where a consumed record is archived.
pub open spec fn arch_name(p: Seq<u8>) -> Seq<u8> {
    lit_arch_prefix() + p.skip(7)
}

pub proof fn lemma_rec_name_props(w: nat)
    requires
        w < TS_LIMIT,
    ensures
        rec_name(w).len() == 31,
        is_rec_name(rec_name(w)),
        rec_ts(rec_name(w)) == w,
        under_state(rec_name(w)),
{
    lemma_padded_ts(w);
    let p = rec_name(w);
    assert(p.subrange(0, 11) =~= lit_rec_prefix());
    assert(p.subrange(11, 26) =~= padded_ts(w));
    assert(p.subrange(26, 31) =~= lit_rec_suffix());
    assert(p.subrange(0, 7) =~= lit_state_prefix());
}

/// Two record names with one timestamp are one name.
pub proof fn lemma_rec_key_unique(p: Seq<u8>, q: Seq<u8>)
    requires
        is_rec_name(p),
        is_rec_name(q),
        rec_ts(p) == rec_ts(q),
    ensures
        p == q,
{
    lemma_digits_val_injective(p.subrange(11, 26), q.subrange(11, 26));
    assert(p =~= q) by {
        assert(forall|t: int| 0 <= t < 11 ==> p[t] == p.subrange(0, 11)[t] && q[t] == q.subrange(
            0,
            11,
        )[t]);
        assert(forall|t: int|
            11 <= t < 26 ==> p[t] == p.subrange(11, 26)[t - 11] && q[t] == q.subrange(11, 26)[t
                - 11]);
        assert(forall|t: int|
            26 <= t < 31 ==> p[t] == p.subrange(26, 31)[t - 26] && q[t] == q.subrange(26, 31)[t
                - 26]);
    }
}

pub proof fn lemma_state_names(p: Seq<u8>)
    requires
        is_rec_name(p),
    ensures
        under_state(p),
        !is_rec_name(lit_last_name()),
        under_state(lit_last_name()),
        !is_rec_name(arch_name(p)),
        under_state(arch_name(p)),
{
    assert(p.subrange(0, 7) =~= lit_state_prefix()) by {
        assert(forall|t: int| 0 <= t < 7 ==> p.subrange(0, 11)[t] == lit_rec_prefix()[t]);
    }
    assert(lit_last_name().subrange(0, 7) =~= lit_state_prefix());
    assert(arch_name(p).len() == 16 + p.len() - 7);
    assert(arch_name(p).subrange(0, 7) =~= lit_state_prefix());
}

// ---------------------------------------------------------------------------
// Move primitive
// ---------------------------------------------------------------------------
/// Moves one file inside the model. `rename_ok` is the event the real file
/// system reports: whether the atomic rename succeeded. When it did not, the
/// engine falls back to copying the content to the destination and then
/// deleting the source, which ends in the same state whenever source and
/// destination differ. When they are one path the fallback models
/// copy-onto-itself-then-delete, which removes the file — the contract
/// states that corner as it is; a real rename of a path onto itself
/// succeeds, so the fallback never runs there, and the engine's own apply
/// and undo always take the rename path. A missing source fails either way
/// and changes nothing.
pub fn move_file(fs: &mut FsModel, from: &Vec<u8>, to: &Vec<u8>, rename_ok: bool) -> (r: Result<
    (),
    EngineError,
>)
    requires
        old(fs).wf(),
    ensures
        final(fs).wf(),
        ({
            let m = old(fs)@;
            &&& !m.contains_key(from@) ==> r == Err::<(), EngineError>(EngineError::IoError)
                && final(fs)@ == m
            &&& m.contains_key(from@) && rename_ok ==> r == Ok::<(), EngineError>(())
                && final(fs)@ == m.remove(from@).insert(to@, m[from@])
            &&& m.contains_key(from@) && !rename_ok ==> r == Ok::<(), EngineError>(())
                && final(fs)@ == m.insert(to@, m[from@]).remove(from@)
        }),
{
    let data = match fs.get(from) {
        None => {
            return Err(EngineError::IoError);
        },
        Some(d) => copy_bytes(d),
    };
    if rename_ok {
        fs.remove(from);
        fs.put(copy_bytes(to), data);
    } else {
        fs.put(copy_bytes(to), data);
        fs.remove(from);
    }
    Ok(())
}

// ---------------------------------------------------------------------------
// Transaction store
// ---------------------------------------------------------------------------
/// What writing a record does to the model: the record file plus the `last`
/// sentinel.
pub open spec fn spec_write(m: Map<Seq<u8>, Seq<u8>>, t: TxnModel) -> Map<Seq<u8>, Seq<u8>> {
    m.insert(rec_name(t.when), enc_txn(t)).insert(lit_last_name(), lit_ok())
}

/// The record file name for a transaction applied at `now`.
pub fn rec_name_vec(now: u64) -> (r: Vec<u8>)
    requires
        now < TS_LIMIT,
    ensures
        r@ == rec_name(now as nat),
{
    let mut r: Vec<u8> = Vec::new();
    r.push(46);
    r.push(115);
    r.push(116);
    r.push(97);
    r.push(116);
    r.push(101);
    r.push(47);
    r.push(116);
    r.push(120);
    r.push(110);
    r.push(45);
    assert(r@ =~= lit_rec_prefix());
    let mut p = ts_to_padded(now);
    r.append(&mut p);
    r.push(46);
    r.push(106);
    r.push(115);
    r.push(111);
    r.push(110);
    assert(r@ =~= rec_name(now as nat));
    r
}

fn last_name_vec() -> (r: Vec<u8>)
    ensures
        r@ == lit_last_name(),
{
    let mut r: Vec<u8> = Vec::new();
    r.push(46);
    r.push(115);
    r.push(116);
    r.push(97);
    r.push(116);
    r.push(101);
    r.push(47);
    r.push(108);
    r.push(97);
    r.push(115);
    r.push(116);
    assert(r@ =~= lit_last_name());
    r
}

fn arch_name_vec(p: &Vec<u8>) -> (r: Vec<u8>)
    requires
        p@.len() >= 7,
    ensures
        r@ == arch_name(p@),
{
    let mut r: Vec<u8> = Vec::new();
    r.push(46);
    r.push(115);
    r.push(116);
    r.push(97);
    r.push(116);
    r.push(101);
    r.push(47);
    r.push(97);
    r.push(114);
    r.push(99);
    r.push(104);
    r.push(105);
    r.push(118);
    r.push(101);
    r.push(100);
    r.push(47);
    assert(r@ =~= lit_arch_prefix());
    let mut k: usize = 7;
    while k < p.len()
        invariant
            7 <= k <= p@.len(),
            r@ =~= lit_arch_prefix() + p@.subrange(7, k as int),
        decreases p@.len() - k,
    {
        r.push(p[k]);
        assert(r@ =~= lit_arch_prefix() + p@.subrange(7, k + 1));
        k += 1;
    }
    assert(p@.subrange(7, p@.len() as int) =~= p@.skip(7));
    r
}

/// Writes the record for `txn` and refreshes the `last` sentinel.
pub fn write_txn(fs: &mut FsModel, txn: &Transaction)
    requires
        old(fs).wf(),
        txn.wf(),
    ensures
        final(fs).wf(),
        final(fs)@ == spec_write(old(fs)@, txn@),
{
    let name = rec_name_vec(txn.when);
    let bytes = encode_transaction(txn);
    fs.put(name, bytes);
    let mut ok: Vec<u8> = Vec::new();
    ok.push(111);
    ok.push(107);
    assert(ok@ =~= lit_ok());
    fs.put(last_name_vec(), ok);
}

/// `k` is a record of `m` whose timestamp no other record exceeds.
pub open spec fn is_latest_rec(m: Map<Seq<u8>, Seq<u8>>, k: Seq<u8>) -> bool {
    &&& m.contains_key(k)
    &&& is_rec_name(k)
    &&& forall|q: Seq<u8>|
        m.contains_key(q) && #[trigger] is_rec_name(q) ==> rec_ts(q) <= rec_ts(k)
}

/// The most recent record of `m`, when any record exists.
pub open spec fn spec_latest(m: Map<Seq<u8>, Seq<u8>>) -> Option<Seq<u8>> {
    if exists|k: Seq<u8>| is_latest_rec(m, k) {
        Some(choose|k: Seq<u8>| is_latest_rec(m, k))
    } else {
        None
    }
}

pub proof fn lemma_latest_unique(m: Map<Seq<u8>, Seq<u8>>, k1: Seq<u8>, k2: Seq<u8>)
    requires
        is_latest_rec(m, k1),
        is_latest_rec(m, k2),
    ensures
        k1 == k2,
{
    assert(rec_ts(k1) <= rec_ts(k2));
    assert(rec_ts(k2) <= rec_ts(k1));
    lemma_rec_key_unique(k1, k2);
}

fn eq_at(p: &Vec<u8>, pos: usize, l: &Vec<u8>) -> (r: bool)
    requires
        pos + l@.len() <= p@.len(),
    ensures
        r == (p@.subrange(pos as int, pos + l@.len()) == l@),
{
    let pn = p.len();
    let mut k: usize = 0;
    while k < l.len()
        invariant
            k <= l@.len(),
            pn == p@.len(),
            pos + l@.len() <= p@.len(),
            forall|t: int| 0 <= t < k ==> p@[pos + t] == l@[t],
        decreases l@.len() - k,
    {
        if p[pos + k] != l[k] {
            proof {
                assert(p@.subrange(pos as int, pos + l@.len())[k as int] != l@[k as int]);
            }
            return false;
        }
        k += 1;
    }
    proof {
        assert(p@.subrange(pos as int, pos + l@.len()) =~= l@);
    }
    true
}

/// Reads the timestamp out of a record name; `None` on any other name.
fn rec_ts_of(p: &Vec<u8>) -> (r: Option<u64>)
    ensures
        match r {
            Some(v) => is_rec_name(p@) && v == rec_ts(p@) && v < TS_LIMIT,
            None => !is_rec_name(p@),
        },
{
    if p.len() != 31 {
        return None;
    }
    let mut pre: Vec<u8> = Vec::new();
    pre.push(46);
    pre.push(115);
    pre.push(116);
    pre.push(97);
    pre.push(116);
    pre.push(101);
    pre.push(47);
    pre.push(116);
    pre.push(120);
    pre.push(110);
    pre.push(45);
    assert(pre@ =~= lit_rec_prefix());
    if !eq_at(p, 0, &pre) {
        return None;
    }
    let mut suf: Vec<u8> = Vec::new();
    suf.push(46);
    suf.push(106);
    suf.push(115);
    suf.push(111);
    suf.push(110);
    assert(suf@ =~= lit_rec_suffix());
    if !eq_at(p, 26, &suf) {
        return None;
    }
    match parse_padded_ts(p, 11) {
        Some(v) => Some(v),
        None => None,
    }
}

/// Loads the most recent record: its name and its parsed transaction.
/// Fails with `NotFound` exactly when no record exists, and with
/// `SerializationError` exactly when the most recent record does not parse.
pub fn read_last_txn(fs: &FsModel) -> (r: Result<(Vec<u8>, Transaction), EngineError>)
    requires
        fs.wf(),
    ensures
        match r {
            Ok(p) => {
                &&& spec_latest(fs@) == Some(p.0@)
                &&& fs@.contains_key(p.0@)
                &&& is_rec_name(p.0@)
                &&& p_txn(fs@[p.0@]) == Some(p.1@)
                &&& p.1.wf()
            },
            Err(e) => match spec_latest(fs@) {
                None => e == EngineError::NotFound,
                Some(k) => e == EngineError::SerializationError && p_txn(fs@[k]) is None,
            },
        },
{
    let paths = fs.paths();
    let mut best: Option<(Vec<u8>, u64)> = None;
    let mut i: usize = 0;
    while i < paths.len()
        invariant
            fs.wf(),
            i <= paths@.len(),
            forall|j: int|
                0 <= j < paths@.len() ==> fs@.contains_key(#[trigger] paths@[j]@),
            forall|k: Seq<u8>|
                fs@.contains_key(k) ==> exists|j: int|
                    0 <= j < paths@.len() && #[trigger] paths@[j]@ == k,
            match best {
                None => forall|j: int| 0 <= j < i ==> !is_rec_name(#[trigger] paths@[j]@),
                Some(b) => {
                    &&& fs@.contains_key(b.0@)
                    &&& is_rec_name(b.0@)
                    &&& rec_ts(b.0@) == b.1
                    &&& b.1 < TS_LIMIT
                    &&& forall|j: int|
                        0 <= j < i && is_rec_name(#[trigger] paths@[j]@) ==> rec_ts(paths@[j]@)
                            <= b.1
                },
            },
        decreases paths@.len() - i,
    {
        match rec_ts_of(&paths[i]) {
            Some(v) => {
                let better = match &best {
                    None => true,
                    Some(b) => v > b.1,
                };
                if better {
                    best = Some((copy_bytes(&paths[i]), v));
                }
            },
            None => {},
        }
        i += 1;
    }
    match best {
        None => {
            proof {
                if exists|k: Seq<u8>| is_latest_rec(fs@, k) {
                    let k = choose|k: Seq<u8>| is_latest_rec(fs@, k);
                    let j = choose|j: int| 0 <= j < paths@.len() && paths@[j]@ == k;
                    assert(!is_rec_name(paths@[j]@));
                    assert(false);
                }
            }
            Err(EngineError::NotFound)
        },
        Some(b) => {
            proof {
                assert forall|q: Seq<u8>| fs@.contains_key(q) && is_rec_name(q) implies rec_ts(q)
                    <= rec_ts(b.0@) by {
                    let j = choose|j: int| 0 <= j < paths@.len() && paths@[j]@ == q;
                    assert(rec_ts(paths@[j]@) <= b.1);
                }
                assert(is_latest_rec(fs@, b.0@));
                let k0 = choose|k: Seq<u8>| is_latest_rec(fs@, k);
                lemma_latest_unique(fs@, k0, b.0@);
                assert(spec_latest(fs@) == Some(b.0@));
            }
            let body = match fs.get(&b.0) {
                Some(d) => d,
                None => {
                    proof {
                        assert(false);
                    }
                    return Err(EngineError::IoError);
                },
            };
            match parse_transaction(body) {
                Some(t) => Ok((b.0, t)),
                None => Err(EngineError::SerializationError),
            }
        },
    }
}

// ---------------------------------------------------------------------------
// Plan application
// ---------------------------------------------------------------------------
/// The model after the moves of `items`, in plan order: each source that
/// exists moves to its resolved destination; the first missing source stops
/// the run, leaving the earlier moves in place.
pub open spec fn apply_map(m: Map<Seq<u8>, Seq<u8>>, items: Seq<ItemModel>) -> Map<Seq<u8>, Seq<u8>>
    decreases items.len(),
{
    if items.len() == 0 {
        m
    } else {
        let it = items[0];
        if m.contains_key(it.from) {
            apply_map(
                m.remove(it.from).insert(spec_resolve(m, it.to), m[it.from]),
                items.skip(1),
            )
        } else {
            m
        }
    }
}

/// Whether every move of the plan finds its source.
pub open spec fn apply_ok(m: Map<Seq<u8>, Seq<u8>>, items: Seq<ItemModel>) -> bool
    decreases items.len(),
{
    items.len() == 0 || {
        let it = items[0];
        m.contains_key(it.from) && apply_ok(
            m.remove(it.from).insert(spec_resolve(m, it.to), m[it.from]),
            items.skip(1),
        )
    }
}

/// The executed moves: the plan's items with each destination replaced by
/// the destination actually used.
pub open spec fn apply_acts(m: Map<Seq<u8>, Seq<u8>>, items: Seq<ItemModel>) -> Seq<ItemModel>
    decreases items.len(),
{
    if items.len() == 0 {
        Seq::empty()
    } else {
        let it = items[0];
        if m.contains_key(it.from) {
            seq![
                ItemModel {
                    from: it.from,
                    to: spec_resolve(m, it.to),
                    reason: it.reason,
                    duplicate: it.duplicate,
                },
            ] + apply_acts(
                m.remove(it.from).insert(spec_resolve(m, it.to), m[it.from]),
                items.skip(1),
            )
        } else {
            Seq::empty()
        }
    }
}

/// A failed plan application: application is not transactional across
/// items, so the moves already performed stay in place; they are reported
/// here so the caller can warn or construct a partial record.
#[derive(Debug)]
pub struct ApplyFailure {
    pub error: EngineError,
    pub applied: Vec<TransactionItem>,
}

/// Applies a plan at time `now`: for each item in plan order, resolves the
/// destination against the current state, moves the file, and records the
/// destination actually used. On success the transaction is persisted and
/// returned. On a missing source the earlier moves stay on disk, no record
/// is written, and the failure reports which moves were already made.
pub fn apply_plan(fs: &mut FsModel, items: &Vec<TransactionItem>, now: u64) -> (r: Result<
    Transaction,
    ApplyFailure,
>)
    requires
        old(fs).wf(),
        now < TS_LIMIT,
    ensures
        final(fs).wf(),
        ({
            let m0 = old(fs)@;
            let iv = items_view(items@);
            &&& apply_ok(m0, iv) ==> (r matches Ok(t) && t@.actions == apply_acts(m0, iv)
                && t.when == now && t.wf() && final(fs)@ == spec_write(apply_map(m0, iv), t@))
            &&& !apply_ok(m0, iv) ==> (r matches Err(f) && f.error == EngineError::IoError
                && items_view(f.applied@) == apply_acts(m0, iv) && final(fs)@ == apply_map(
                m0,
                iv,
            ))
        }),
{
    let ghost m0 = fs@;
    let ghost iv = items_view(items@);
    proof {
        assert(iv.skip(0) =~= iv);
        assert(items_view(Seq::<TransactionItem>::empty()) =~= Seq::<ItemModel>::empty());
    }
    let mut acts: Vec<TransactionItem> = Vec::new();
    let mut i: usize = 0;
    while i < items.len()
        invariant
            fs.wf(),
            m0 == old(fs)@,
            i <= items@.len(),
            iv == items_view(items@),
            apply_ok(m0, iv) == apply_ok(fs@, iv.skip(i as int)),
            apply_map(m0, iv) == apply_map(fs@, iv.skip(i as int)),
            apply_acts(m0, iv) == items_view(acts@) + apply_acts(fs@, iv.skip(i as int)),
        decreases items@.len() - i,
    {
        let ghost mcur = fs@;
        let ghost rest = iv.skip(i as int);
        proof {
            assert(rest[0] == iv[i as int]);
            assert(iv[i as int] == items@[i as int]@);
            assert(rest.skip(1) =~= iv.skip(i + 1));
        }
        let it = &items[i];
        let to1 = resolve_conflict(fs, &it.to);
        if !fs.contains(&it.from) {
            proof {
                assert(rest.len() > 0);
                assert(rest[0].from == it.from@);
                assert(!mcur.contains_key(rest[0].from));
                assert(!apply_ok(mcur, rest));
                assert(!apply_ok(m0, iv));
                assert(apply_map(mcur, rest) == mcur);
                assert(fs@ == apply_map(m0, iv));
                assert(apply_acts(mcur, rest) =~= Seq::<ItemModel>::empty());
                assert(items_view(acts@) + apply_acts(mcur, rest) =~= items_view(acts@));
            }
            return Err(ApplyFailure { error: EngineError::IoError, applied: acts });
        }
        let rec_to = copy_bytes(&to1);
        let from_copy = copy_bytes(&it.from);
        let reason_copy = match &it.reason {
            Some(rr) => Some(copy_bytes(rr)),
            None => None,
        };
        match move_file(fs, &it.from, &to1, true) {
            Ok(()) => {},
            Err(_) => {
                proof {
                    assert(false);
                }
                return Err(ApplyFailure { error: EngineError::IoError, applied: acts });
            },
        }
        let ghost acts0 = acts@;
        acts.push(
            TransactionItem { from: from_copy, to: rec_to, reason: reason_copy, duplicate: it.duplicate },
        );
        proof {
            assert(fs@ == mcur.remove(rest[0].from).insert(
                spec_resolve(mcur, rest[0].to),
                mcur[rest[0].from],
            ));
            assert(apply_ok(mcur, rest) == apply_ok(fs@, iv.skip(i + 1)));
            assert(apply_map(mcur, rest) == apply_map(fs@, iv.skip(i + 1)));
            let newm = ItemModel {
                from: rest[0].from,
                to: spec_resolve(mcur, rest[0].to),
                reason: rest[0].reason,
                duplicate: rest[0].duplicate,
            };
            assert(apply_acts(mcur, rest) == seq![newm] + apply_acts(fs@, iv.skip(i + 1)));
            assert(acts@[acts0.len() as int]@ == newm);
            assert(items_view(acts@) =~= items_view(acts0) + seq![newm]);
            assert(items_view(acts@) + apply_acts(fs@, iv.skip(i + 1)) =~= items_view(acts0) + (
            seq![newm] + apply_acts(fs@, iv.skip(i + 1))));
        }
        i += 1;
    }
    proof {
        assert(iv.skip(iv.len() as int) =~= Seq::<ItemModel>::empty());
        assert(apply_acts(m0, iv) =~= items_view(acts@));
    }
    let txn = Transaction { actions: acts, when: now };
    write_txn(fs, &txn);
    Ok(txn)
}

// ---------------------------------------------------------------------------
// Undo
// ---------------------------------------------------------------------------
/// The model after replaying `acts` in reverse: each recorded destination
/// that still exists moves back to its source; a missing one is skipped.
pub open spec fn replay_map(m: Map<Seq<u8>, Seq<u8>>, acts: Seq<ItemModel>) -> Map<Seq<u8>, Seq<u8>>
    decreases acts.len(),
{
    if acts.len() == 0 {
        m
    } else {
        let it = acts.last();
        let m1 = if m.contains_key(it.to) {
            m.remove(it.to).insert(it.from, m[it.to])
        } else {
            m
        };
        replay_map(m1, acts.drop_last())
    }
}

/// How many moves the replay performs.
pub open spec fn replay_count(m: Map<Seq<u8>, Seq<u8>>, acts: Seq<ItemModel>) -> nat
    decreases acts.len(),
{
    if acts.len() == 0 {
        0
    } else {
        let it = acts.last();
        if m.contains_key(it.to) {
            1 + replay_count(m.remove(it.to).insert(it.from, m[it.to]), acts.drop_last())
        } else {
            replay_count(m, acts.drop_last())
        }
    }
}

/// The moves the replay performs, in the order it performs them, with
/// source and destination already swapped.
pub open spec fn replay_moves(m: Map<Seq<u8>, Seq<u8>>, acts: Seq<ItemModel>) -> Seq<ItemModel>
    decreases acts.len(),
{
    if acts.len() == 0 {
        Seq::empty()
    } else {
        let it = acts.last();
        if m.contains_key(it.to) {
            seq![
                ItemModel { from: it.to, to: it.from, reason: it.reason, duplicate: it.duplicate },
            ] + replay_moves(m.remove(it.to).insert(it.from, m[it.to]), acts.drop_last())
        } else {
            replay_moves(m, acts.drop_last())
        }
    }
}

/// Retiring a consumed record: moved under `archived/` when still present.
pub open spec fn spec_archive(m: Map<Seq<u8>, Seq<u8>>, k: Seq<u8>) -> Map<Seq<u8>, Seq<u8>> {
    if m.contains_key(k) {
        m.remove(k).insert(arch_name(k), m[k])
    } else {
        m
    }
}

/// What undo does to the model and what it returns: the new model, and
/// either the count and list of restoring moves or the error.
pub open spec fn spec_undo(m: Map<Seq<u8>, Seq<u8>>) -> (
    Map<Seq<u8>, Seq<u8>>,
    Result<(nat, Seq<ItemModel>), EngineError>,
) {
    match spec_latest(m) {
        None => (m, Err(EngineError::NotFound)),
        Some(k) => match p_txn(m[k]) {
            None => (m, Err(EngineError::SerializationError)),
            Some(t) => (
                spec_archive(replay_map(m, t.actions), k),
                Ok((replay_count(m, t.actions), replay_moves(m, t.actions))),
            ),
        },
    }
}

/// Undoes the most recent transaction and reports the restoring moves it
/// performed, so a caller can mirror them; the record is archived.
pub fn undo_last_moves(fs: &mut FsModel) -> (r: Result<(u64, Vec<TransactionItem>), EngineError>)
    requires
        old(fs).wf(),
    ensures
        final(fs).wf(),
        final(fs)@ == spec_undo(old(fs)@).0,
        match r {
            Ok(p) => spec_undo(old(fs)@).1 == Ok::<(nat, Seq<ItemModel>), EngineError>(
                (p.0 as nat, items_view(p.1@)),
            ),
            Err(e) => spec_undo(old(fs)@).1 == Err::<(nat, Seq<ItemModel>), EngineError>(e),
        },
{
    let ghost m0 = fs@;
    let (name, txn) = match read_last_txn(fs) {
        Ok(x) => x,
        Err(e) => {
            return Err(e);
        },
    };
    let ghost acts = items_view(txn.actions@);
    let mut count: u64 = 0;
    let mut moves: Vec<TransactionItem> = Vec::new();
    let mut idx: usize = txn.actions.len();
    proof {
        assert(acts.take(txn.actions@.len() as int) =~= acts);
        assert(items_view(Seq::<TransactionItem>::empty()) =~= Seq::<ItemModel>::empty());
    }
    while idx > 0
        invariant
            fs.wf(),
            m0 == old(fs)@,
            spec_latest(m0) == Some(name@),
            p_txn(m0[name@]) == Some(txn@),
            name@.len() == 31,
            idx <= txn.actions@.len(),
            txn.actions@.len() <= usize::MAX,
            acts == items_view(txn.actions@),
            count <= txn.actions@.len() - idx,
            replay_map(m0, acts) == replay_map(fs@, acts.take(idx as int)),
            replay_count(m0, acts) == count + replay_count(fs@, acts.take(idx as int)),
            replay_moves(m0, acts) == items_view(moves@) + replay_moves(fs@, acts.take(idx as int)),
        decreases idx,
    {
        let ghost mcur = fs@;
        let ghost part = acts.take(idx as int);
        proof {
            assert(part.last() == acts[idx - 1]);
            assert(acts[idx - 1] == txn.actions@[idx - 1]@);
            assert(part.drop_last() =~= acts.take(idx - 1));
        }
        let it = &txn.actions[idx - 1];
        if fs.contains(&it.to) {
            match move_file(fs, &it.to, &it.from, true) {
                Ok(()) => {},
                Err(_) => {
                    proof {
                        assert(false);
                    }
                    return Err(EngineError::IoError);
                },
            }
            count += 1;
            let ghost moves0 = moves@;
            moves.push(
                TransactionItem {
                    from: copy_bytes(&it.to),
                    to: copy_bytes(&it.from),
                    reason: match &it.reason {
                        Some(rr) => Some(copy_bytes(rr)),
                        None => None,
                    },
                    duplicate: it.duplicate,
                },
            );
            proof {
                let swapped = ItemModel {
                    from: part.last().to,
                    to: part.last().from,
                    reason: part.last().reason,
                    duplicate: part.last().duplicate,
                };
                assert(fs@ == mcur.remove(part.last().to).insert(
                    part.last().from,
                    mcur[part.last().to],
                ));
                assert(replay_map(mcur, part) == replay_map(fs@, acts.take(idx - 1)));
                assert(replay_count(mcur, part) == 1 + replay_count(fs@, acts.take(idx - 1)));
                assert(replay_moves(mcur, part) == seq![swapped] + replay_moves(
                    fs@,
                    acts.take(idx - 1),
                ));
                assert(moves@[moves0.len() as int]@ == swapped);
                assert(items_view(moves@) =~= items_view(moves0) + seq![swapped]);
                assert(items_view(moves@) + replay_moves(fs@, acts.take(idx - 1)) =~= items_view(
                    moves0,
                ) + (seq![swapped] + replay_moves(fs@, acts.take(idx - 1))));
            }
        } else {
            proof {
                assert(replay_map(mcur, part) == replay_map(mcur, acts.take(idx - 1)));
                assert(replay_count(mcur, part) == replay_count(mcur, acts.take(idx - 1)));
                assert(replay_moves(mcur, part) == replay_moves(mcur, acts.take(idx - 1)));
            }
        }
        idx -= 1;
    }
    proof {
        assert(acts.take(0) =~= Seq::<ItemModel>::empty());
    }
    // archive the consumed record
    let ghost m1 = fs@;
    if fs.contains(&name) {
        let data = match fs.get(&name) {
            Some(d) => copy_bytes(d),
            None => {
                proof {
                    assert(false);
                }
                return Err(EngineError::IoError);
            },
        };
        fs.remove(&name);
        proof {
            assert(name@.len() == 31);
        }
        let an = arch_name_vec(&name);
        fs.put(an, data);
        proof {
            assert(fs@ =~= spec_archive(m1, name@));
        }
    } else {
        proof {
            assert(fs@ =~= spec_archive(m1, name@));
        }
    }
    Ok((count, moves))
}

/// Undoes the most recent transaction, replaying its moves in reverse and
/// skipping destinations that no longer exist; archives the record and
/// returns how many files were restored.
pub fn undo_last(fs: &mut FsModel) -> (r: Result<u64, EngineError>)
    requires
        old(fs).wf(),
    ensures
        final(fs).wf(),
        final(fs)@ == spec_undo(old(fs)@).0,
        match r {
            Ok(c) => spec_undo(old(fs)@).1 matches Ok(p) && p.0 == c as nat,
            Err(e) => spec_undo(old(fs)@).1 == Err::<(nat, Seq<ItemModel>), EngineError>(e),
        },
{
    match undo_last_moves(fs) {
        Ok(p) => Ok(p.0),
        Err(e) => Err(e),
    }
}

} // verus!
