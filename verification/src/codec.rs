//! Executable encoding and parsing of transaction records.
//!
//! Encoding produces exactly [`crate::record::enc_txn`] of the transaction's
//! model; parsing implements the grammar [`crate::record::p_txn`] and is
//! proved to agree with it on every input.
use vstd::prelude::*;
use crate::num::{TS_LIMIT, ts_to_padded, parse_padded_ts};
use crate::record::{
    esc, esc_byte, enc_str, enc_reason, enc_bool, enc_item, enc_items, enc_items_rest, enc_txn,
    lit_item_from, lit_item_to, lit_item_reason, lit_item_dup, lit_null, lit_true, lit_false,
    lit_tx_head, lit_tx_when, lit_tx_tail, p_lit, p_str_body, p_str, p_ts, p_reason, p_bool,
    p_item, p_items, p_items_rest, p_txn, items_view, ItemModel, TransactionItem, Transaction,
};

verus! {

pub proof fn lemma_esc_one(x: u8)
    ensures
        esc(seq![x]) == esc_byte(x),
{
    assert(seq![x].skip(1) =~= Seq::<u8>::empty());
    assert(esc(seq![x]) =~= esc_byte(x) + esc(Seq::<u8>::empty()));
    assert(esc(seq![x]) =~= esc_byte(x));
}

pub proof fn lemma_esc_app(a: Seq<u8>, b: Seq<u8>)
    ensures
        esc(a + b) == esc(a) + esc(b),
    decreases a.len(),
{
    if a.len() == 0 {
        assert(a + b =~= b);
        assert(esc(a) + esc(b) =~= esc(b));
    } else {
        assert((a + b)[0] == a[0]);
        assert((a + b).skip(1) =~= a.skip(1) + b);
        lemma_esc_app(a.skip(1), b);
        assert(esc(a + b) =~= esc_byte(a[0]) + (esc(a.skip(1)) + esc(b)));
        assert(esc(a) + esc(b) =~= esc_byte(a[0]) + (esc(a.skip(1)) + esc(b)));
    }
}

// ---------------------------------------------------------------------------
// Literal byte strings, executable form
// ---------------------------------------------------------------------------
fn push_byte(out: &mut Vec<u8>, b: u8)
    ensures
        final(out)@ == old(out)@ + seq![b],
{
    out.push(b);
    assert(out@ =~= old(out)@ + seq![b]);
}

fn push_all(out: &mut Vec<u8>, l: &Vec<u8>)
    ensures
        final(out)@ == old(out)@ + l@,
{
    let ghost base = out@;
    let mut i: usize = 0;
    while i < l.len()
        invariant
            i <= l.len(),
            out@ =~= base + l@.take(i as int),
        decreases l.len() - i,
    {
        out.push(l[i]);
        assert(out@ =~= base + l@.take(i + 1));
        i += 1;
    }
    assert(out@ =~= base + l@);
}

fn lit_vec(which: u8) -> (r: Vec<u8>)
    requires
        0 <= which < 10,
    ensures
        which == 0 ==> r@ == lit_item_from(),
        which == 1 ==> r@ == lit_item_to(),
        which == 2 ==> r@ == lit_item_reason(),
        which == 3 ==> r@ == lit_item_dup(),
        which == 4 ==> r@ == lit_null(),
        which == 5 ==> r@ == lit_true(),
        which == 6 ==> r@ == lit_false(),
        which == 7 ==> r@ == lit_tx_head(),
        which == 8 ==> r@ == lit_tx_when(),
        which == 9 ==> r@ == lit_tx_tail(),
{
    let mut r: Vec<u8> = Vec::new();
    if which == 0 {
        r.push(123);
        r.push(34);
        r.push(102);
        r.push(114);
        r.push(111);
        r.push(109);
        r.push(34);
        r.push(58);
        assert(r@ =~= lit_item_from());
    } else if which == 1 {
        r.push(44);
        r.push(34);
        r.push(116);
        r.push(111);
        r.push(34);
        r.push(58);
        assert(r@ =~= lit_item_to());
    } else if which == 2 {
        r.push(44);
        r.push(34);
        r.push(114);
        r.push(101);
        r.push(97);
        r.push(115);
        r.push(111);
        r.push(110);
        r.push(34);
        r.push(58);
        assert(r@ =~= lit_item_reason());
    } else if which == 3 {
        r.push(44);
        r.push(34);
        r.push(100);
        r.push(117);
        r.push(112);
        r.push(108);
        r.push(105);
        r.push(99);
        r.push(97);
        r.push(116);
        r.push(101);
        r.push(34);
        r.push(58);
        assert(r@ =~= lit_item_dup());
    } else if which == 4 {
        r.push(110);
        r.push(117);
        r.push(108);
        r.push(108);
        assert(r@ =~= lit_null());
    } else if which == 5 {
        r.push(116);
        r.push(114);
        r.push(117);
        r.push(101);
        assert(r@ =~= lit_true());
    } else if which == 6 {
        r.push(102);
        r.push(97);
        r.push(108);
        r.push(115);
        r.push(101);
        assert(r@ =~= lit_false());
    } else if which == 7 {
        r.push(123);
        r.push(34);
        r.push(97);
        r.push(99);
        r.push(116);
        r.push(105);
        r.push(111);
        r.push(110);
        r.push(115);
        r.push(34);
        r.push(58);
        r.push(91);
        assert(r@ =~= lit_tx_head());
    } else if which == 8 {
        r.push(44);
        r.push(34);
        r.push(119);
        r.push(104);
        r.push(101);
        r.push(110);
        r.push(34);
        r.push(58);
        r.push(34);
        assert(r@ =~= lit_tx_when());
    } else {
        r.push(34);
        r.push(125);
        assert(r@ =~= lit_tx_tail());
    }
    r
}

// ---------------------------------------------------------------------------
// Encoding
// ---------------------------------------------------------------------------
fn push_esc(out: &mut Vec<u8>, s: &Vec<u8>)
    ensures
        final(out)@ == old(out)@ + esc(s@),
{
    let ghost base = out@;
    let mut i: usize = 0;
    while i < s.len()
        invariant
            i <= s.len(),
            out@ == base + esc(s@.take(i as int)),
        decreases s.len() - i,
    {
        let b = s[i];
        if b == 34 || b == 92 {
            out.push(92);
        }
        out.push(b);
        proof {
            lemma_esc_app(s@.take(i as int), seq![s@[i as int]]);
            lemma_esc_one(s@[i as int]);
            assert(s@.take(i + 1) =~= s@.take(i as int) + seq![s@[i as int]]);
            assert(out@ =~= base + esc(s@.take(i + 1)));
        }
        i += 1;
    }
    assert(s@.take(s.len() as int) =~= s@);
}

fn push_str(out: &mut Vec<u8>, s: &Vec<u8>)
    ensures
        final(out)@ == old(out)@ + enc_str(s@),
{
    push_byte(out, 34);
    push_esc(out, s);
    push_byte(out, 34);
    assert(out@ =~= old(out)@ + enc_str(s@));
}

fn push_item(out: &mut Vec<u8>, it: &TransactionItem)
    ensures
        final(out)@ == old(out)@ + enc_item(it@),
{
    let l0 = lit_vec(0);
    push_all(out, &l0);
    push_str(out, &it.from);
    let l1 = lit_vec(1);
    push_all(out, &l1);
    push_str(out, &it.to);
    let l2 = lit_vec(2);
    push_all(out, &l2);
    match &it.reason {
        Some(r) => push_str(out, r),
        None => {
            let l4 = lit_vec(4);
            push_all(out, &l4);
        },
    }
    let l3 = lit_vec(3);
    push_all(out, &l3);
    if it.duplicate {
        let l5 = lit_vec(5);
        push_all(out, &l5);
    } else {
        let l6 = lit_vec(6);
        push_all(out, &l6);
    }
    push_byte(out, 125);
    assert(out@ =~= old(out)@ + enc_item(it@));
}

proof fn lemma_enc_items_rest_snoc(s: Seq<ItemModel>, x: ItemModel)
    ensures
        enc_items_rest(s.push(x)) == enc_items_rest(s) + seq![44u8] + enc_item(x),
    decreases s.len(),
{
    if s.len() == 0 {
        assert(s.push(x)[0] == x);
        assert(s.push(x).skip(1) =~= Seq::<ItemModel>::empty());
        assert(enc_items_rest(Seq::<ItemModel>::empty()) == Seq::<u8>::empty());
        assert(enc_items_rest(s.push(x)) == seq![44u8] + enc_item(x) + enc_items_rest(
            s.push(x).skip(1),
        ));
        assert(enc_items_rest(s.push(x)) =~= enc_items_rest(s) + seq![44u8] + enc_item(x));
    } else {
        assert(s.push(x)[0] == s[0]);
        assert(s.push(x).skip(1) =~= s.skip(1).push(x));
        lemma_enc_items_rest_snoc(s.skip(1), x);
        assert(enc_items_rest(s.push(x)) =~= enc_items_rest(s) + seq![44u8] + enc_item(x));
    }
}

proof fn lemma_enc_items_snoc(s: Seq<ItemModel>, x: ItemModel)
    ensures
        s.len() == 0 ==> enc_items(s.push(x)) == enc_item(x),
        s.len() > 0 ==> enc_items(s.push(x)) == enc_items(s) + seq![44u8] + enc_item(x),
{
    if s.len() == 0 {
        assert(s.push(x)[0] == x);
        assert(s.push(x).skip(1) =~= Seq::<ItemModel>::empty());
        assert(enc_items(s.push(x)) =~= enc_item(x));
    } else {
        assert(s.push(x)[0] == s[0]);
        assert(s.push(x).skip(1) =~= s.skip(1).push(x));
        lemma_enc_items_rest_snoc(s.skip(1), x);
        assert(enc_items(s.push(x)) =~= enc_items(s) + seq![44u8] + enc_item(x));
    }
}

/// The canonical record document for `txn`, executable form.
pub fn encode_transaction(txn: &Transaction) -> (r: Vec<u8>)
    requires
        txn.wf(),
    ensures
        r@ == enc_txn(txn@),
{
    let ghost acts = items_view(txn.actions@);
    let mut out: Vec<u8> = Vec::new();
    let l7 = lit_vec(7);
    push_all(&mut out, &l7);
    let mut i: usize = 0;
    while i < txn.actions.len()
        invariant
            i <= txn.actions@.len(),
            acts == items_view(txn.actions@),
            txn.wf(),
            out@ == lit_tx_head() + enc_items(acts.take(i as int)),
        decreases txn.actions@.len() - i,
    {
        if i > 0 {
            push_byte(&mut out, 44);
        }
        push_item(&mut out, &txn.actions[i]);
        proof {
            lemma_enc_items_snoc(acts.take(i as int), acts[i as int]);
            assert(acts.take(i + 1) =~= acts.take(i as int).push(acts[i as int]));
            assert(acts[i as int] == txn.actions@[i as int]@);
            assert(out@ =~= lit_tx_head() + enc_items(acts.take(i + 1)));
        }
        i += 1;
    }
    proof {
        assert(acts.take(txn.actions@.len() as int) =~= acts);
    }
    push_byte(&mut out, 93);
    let l8 = lit_vec(8);
    push_all(&mut out, &l8);
    let mut ts = ts_to_padded(txn.when);
    out.append(&mut ts);
    let l9 = lit_vec(9);
    push_all(&mut out, &l9);
    assert(out@ =~= enc_txn(txn@));
    out
}

// ---------------------------------------------------------------------------
// Parsing
// ---------------------------------------------------------------------------
fn e_lit(s: &Vec<u8>, i: usize, l: &Vec<u8>) -> (r: Option<usize>)
    ensures
        match r {
            Some(j) => {
                &&& p_lit(s@, i as int, l@) == Some(j as int)
                &&& j == i + l@.len()
                &&& j <= s@.len()
            },
            None => p_lit(s@, i as int, l@) is None,
        },
{
    if i > s.len() || l.len() > s.len() - i {
        return None;
    }
    let mut k: usize = 0;
    while k < l.len()
        invariant
            k <= l.len(),
            i + l.len() <= s.len(),
            forall|t: int| 0 <= t < k ==> s@[i + t] == l@[t],
        decreases l.len() - k,
    {
        if s[i + k] != l[k] {
            proof {
                assert(s@.subrange(i as int, i + l@.len())[k as int] != l@[k as int]);
            }
            return None;
        }
        k += 1;
    }
    proof {
        assert(s@.subrange(i as int, i + l@.len()) =~= l@);
    }
    Some(i + l.len())
}

fn e_str_body(s: &Vec<u8>, i: usize) -> (r: Option<(Vec<u8>, usize)>)
    ensures
        match r {
            Some((v, j)) => p_str_body(s@, i as int) == Some((v@, j as int)) && i < j <= s@.len(),
            None => p_str_body(s@, i as int) is None,
        },
    decreases s@.len() - i,
{
    if i >= s.len() {
        return None;
    }
    let b = s[i];
    if b == 34 {
        let v: Vec<u8> = Vec::new();
        assert(v@ =~= Seq::<u8>::empty());
        Some((v, i + 1))
    } else if b == 92 {
        if i + 1 < s.len() {
            let c = s[i + 1];
            match e_str_body(s, i + 2) {
                Some((mut v, j)) => {
                    let ghost v0 = v@;
                    v.insert(0, c);
                    assert(v@ =~= seq![s@[i + 1]] + v0);
                    Some((v, j))
                },
                None => None,
            }
        } else {
            None
        }
    } else {
        match e_str_body(s, i + 1) {
            Some((mut v, j)) => {
                let ghost v0 = v@;
                v.insert(0, b);
                assert(v@ =~= seq![s@[i as int]] + v0);
                Some((v, j))
            },
            None => None,
        }
    }
}

fn e_str(s: &Vec<u8>, i: usize) -> (r: Option<(Vec<u8>, usize)>)
    ensures
        match r {
            Some((v, j)) => p_str(s@, i as int) == Some((v@, j as int)) && i < j <= s@.len(),
            None => p_str(s@, i as int) is None,
        },
{
    if i < s.len() && s[i] == 34 {
        e_str_body(s, i + 1)
    } else {
        None
    }
}

fn e_ts(s: &Vec<u8>, i: usize) -> (r: Option<(u64, usize)>)
    ensures
        match r {
            Some((v, j)) => {
                &&& p_ts(s@, i as int) == Some((v as int, j as int))
                &&& v < TS_LIMIT
                &&& i < j <= s@.len()
            },
            None => p_ts(s@, i as int) is None,
        },
{
    if s.len() >= 15 && i <= s.len() - 15 {
        match parse_padded_ts(s, i) {
            Some(v) => Some((v, i + 15)),
            None => None,
        }
    } else {
        None
    }
}

fn e_reason(s: &Vec<u8>, i: usize) -> (r: Option<(Option<Vec<u8>>, usize)>)
    ensures
        match r {
            Some((v, j)) => {
                &&& p_reason(s@, i as int) == Some(
                    (
                        match v {
                            Some(x) => Some(x@),
                            None => None,
                        },
                        j as int,
                    ),
                )
                &&& i < j <= s@.len()
            },
            None => p_reason(s@, i as int) is None,
        },
{
    let l4 = lit_vec(4);
    match e_lit(s, i, &l4) {
        Some(j) => Some((None, j)),
        None => match e_str(s, i) {
            Some((v, j)) => Some((Some(v), j)),
            None => None,
        },
    }
}

fn e_bool(s: &Vec<u8>, i: usize) -> (r: Option<(bool, usize)>)
    ensures
        match r {
            Some((v, j)) => p_bool(s@, i as int) == Some((v, j as int)) && i < j <= s@.len(),
            None => p_bool(s@, i as int) is None,
        },
{
    let l5 = lit_vec(5);
    match e_lit(s, i, &l5) {
        Some(j) => Some((true, j)),
        None => {
            let l6 = lit_vec(6);
            match e_lit(s, i, &l6) {
                Some(j) => Some((false, j)),
                None => None,
            }
        },
    }
}

fn e_item(s: &Vec<u8>, i: usize) -> (r: Option<(TransactionItem, usize)>)
    ensures
        match r {
            Some((it, j)) => p_item(s@, i as int) == Some((it@, j as int)) && i < j <= s@.len(),
            None => p_item(s@, i as int) is None,
        },
{
    let l0 = lit_vec(0);
    let i1 = match e_lit(s, i, &l0) {
        Some(j) => j,
        None => {
            return None;
        },
    };
    let (from, i2) = match e_str(s, i1) {
        Some(x) => x,
        None => {
            return None;
        },
    };
    let l1 = lit_vec(1);
    let i3 = match e_lit(s, i2, &l1) {
        Some(j) => j,
        None => {
            return None;
        },
    };
    let (to, i4) = match e_str(s, i3) {
        Some(x) => x,
        None => {
            return None;
        },
    };
    let l2 = lit_vec(2);
    let i5 = match e_lit(s, i4, &l2) {
        Some(j) => j,
        None => {
            return None;
        },
    };
    let (reason, i6) = match e_reason(s, i5) {
        Some(x) => x,
        None => {
            return None;
        },
    };
    let l3 = lit_vec(3);
    let i7 = match e_lit(s, i6, &l3) {
        Some(j) => j,
        None => {
            return None;
        },
    };
    let (duplicate, i8) = match e_bool(s, i7) {
        Some(x) => x,
        None => {
            return None;
        },
    };
    let mut close: Vec<u8> = Vec::new();
    close.push(125);
    assert(close@ =~= seq![125u8]);
    let i9 = match e_lit(s, i8, &close) {
        Some(j) => j,
        None => {
            return None;
        },
    };
    Some((TransactionItem { from, to, reason, duplicate }, i9))
}

fn e_items_rest(s: &Vec<u8>, i: usize) -> (r: Option<(Vec<TransactionItem>, usize)>)
    ensures
        match r {
            Some((v, j)) => {
                &&& p_items_rest(s@, i as int) == Some((items_view(v@), j as int))
                &&& i < j <= s@.len()
            },
            None => p_items_rest(s@, i as int) is None,
        },
    decreases s@.len() - i,
{
    let mut brk: Vec<u8> = Vec::new();
    brk.push(93);
    assert(brk@ =~= seq![93u8]);
    match e_lit(s, i, &brk) {
        Some(j) => {
            let v: Vec<TransactionItem> = Vec::new();
            assert(items_view(v@) =~= Seq::<ItemModel>::empty());
            Some((v, j))
        },
        None => {
            let mut comma: Vec<u8> = Vec::new();
            comma.push(44);
            assert(comma@ =~= seq![44u8]);
            let i1 = match e_lit(s, i, &comma) {
                Some(j) => j,
                None => {
                    return None;
                },
            };
            let (it, j) = match e_item(s, i1) {
                Some(x) => x,
                None => {
                    return None;
                },
            };
            match e_items_rest(s, j) {
                Some((mut v, k)) => {
                    let ghost v0 = v@;
                    v.insert(0, it);
                    proof {
                        assert(items_view(v@) =~= seq![v@[0]@] + items_view(v0));
                    }
                    Some((v, k))
                },
                None => None,
            }
        },
    }
}

fn e_items(s: &Vec<u8>, i: usize) -> (r: Option<(Vec<TransactionItem>, usize)>)
    ensures
        match r {
            Some((v, j)) => {
                &&& p_items(s@, i as int) == Some((items_view(v@), j as int))
                &&& i < j <= s@.len()
            },
            None => p_items(s@, i as int) is None,
        },
{
    let mut brk: Vec<u8> = Vec::new();
    brk.push(93);
    assert(brk@ =~= seq![93u8]);
    match e_lit(s, i, &brk) {
        Some(j) => {
            let v: Vec<TransactionItem> = Vec::new();
            assert(items_view(v@) =~= Seq::<ItemModel>::empty());
            Some((v, j))
        },
        None => {
            let (it, j) = match e_item(s, i) {
                Some(x) => x,
                None => {
                    return None;
                },
            };
            match e_items_rest(s, j) {
                Some((mut v, k)) => {
                    let ghost v0 = v@;
                    v.insert(0, it);
                    proof {
                        assert(items_view(v@) =~= seq![v@[0]@] + items_view(v0));
                    }
                    Some((v, k))
                },
                None => None,
            }
        },
    }
}

/// Reads a record document; `None` exactly on inputs outside the grammar.
pub fn parse_transaction(s: &Vec<u8>) -> (r: Option<Transaction>)
    ensures
        match r {
            Some(t) => p_txn(s@) == Some(t@) && t.wf(),
            None => p_txn(s@) is None,
        },
{
    let l7 = lit_vec(7);
    let i1 = match e_lit(s, 0, &l7) {
        Some(j) => j,
        None => {
            return None;
        },
    };
    let (actions, i2) = match e_items(s, i1) {
        Some(x) => x,
        None => {
            return None;
        },
    };
    let l8 = lit_vec(8);
    let i3 = match e_lit(s, i2, &l8) {
        Some(j) => j,
        None => {
            return None;
        },
    };
    let (when, i4) = match e_ts(s, i3) {
        Some(x) => x,
        None => {
            return None;
        },
    };
    let l9 = lit_vec(9);
    let i5 = match e_lit(s, i4, &l9) {
        Some(j) => j,
        None => {
            return None;
        },
    };
    if i5 == s.len() {
        Some(Transaction { actions, when })
    } else {
        None
    }
}

} // verus!
