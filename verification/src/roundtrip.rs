//! Parsing a record that was encoded returns the original transaction.
//!
//! The grammar in [`crate::record`] is proved to invert the encoder: for
//! every well-formed transaction model `t`, `p_txn(enc_txn(t)) == Some(t)`.
use vstd::prelude::*;
use crate::num::{TS_LIMIT, padded_ts, lemma_padded_ts};
use crate::record::{
    esc, esc_byte, enc_str, enc_reason, enc_bool, enc_item, enc_items, enc_items_rest, enc_txn,
    lit_item_from, lit_item_to, lit_item_reason, lit_item_dup, lit_null, lit_true, lit_false,
    lit_tx_head, lit_tx_when, lit_tx_tail, p_lit, p_str_body, p_str, p_ts, p_reason, p_bool,
    p_item, p_items, p_items_rest, p_txn, ItemModel, TxnModel,
};

verus! {

/// Splits a window known to hold `a + b` into the windows of `a` and of `b`.
proof fn lemma_chunk(s: Seq<u8>, i: int, a: Seq<u8>, b: Seq<u8>)
    requires
        0 <= i,
        i + a.len() + b.len() <= s.len(),
        s.subrange(i, i + a.len() + b.len()) == a + b,
    ensures
        s.subrange(i, i + a.len()) == a,
        s.subrange(i + a.len(), i + a.len() + b.len()) == b,
{
    assert(s.subrange(i, i + a.len()) =~= a) by {
        assert forall|t: int| 0 <= t < a.len() implies s.subrange(i, i + a.len())[t] == a[t] by {
            assert(s.subrange(i, i + a.len() + b.len())[t] == (a + b)[t]);
        }
    }
    assert(s.subrange(i + a.len(), i + a.len() + b.len()) =~= b) by {
        assert forall|t: int| 0 <= t < b.len() implies s.subrange(
            i + a.len(),
            i + a.len() + b.len(),
        )[t] == b[t] by {
            assert(s.subrange(i, i + a.len() + b.len())[a.len() + t] == (a + b)[a.len() + t]);
            assert((a + b)[a.len() + t] == b[t]);
            assert(s.subrange(i, i + a.len() + b.len())[a.len() + t] == s[i + a.len() + t]);
            assert(s.subrange(i + a.len(), i + a.len() + b.len())[t] == s[i + a.len() + t]);
        }
    }
}

proof fn lemma_p_lit_at(s: Seq<u8>, i: int, l: Seq<u8>)
    requires
        0 <= i,
        i + l.len() <= s.len(),
        s.subrange(i, i + l.len()) == l,
    ensures
        p_lit(s, i, l) == Some(i + l.len()),
{
}

proof fn lemma_p_str_body_at(s: Seq<u8>, i: int, c: Seq<u8>)
    requires
        0 <= i,
        i + esc(c).len() + 1 <= s.len(),
        s.subrange(i, i + esc(c).len()) == esc(c),
        s[i + esc(c).len()] == 34,
    ensures
        p_str_body(s, i) == Some((c, i + esc(c).len() + 1)),
    decreases c.len(),
{
    if c.len() == 0 {
        assert(esc(c).len() == 0);
        assert(s[i] == 34);
    } else {
        let c0 = c[0];
        let rest = c.skip(1);
        assert(esc(c) == esc_byte(c0) + esc(rest));
        let eb = esc_byte(c0);
        lemma_chunk(s, i, eb, esc(rest));
        assert(seq![c0] + rest =~= c);
        if c0 == 34 || c0 == 92 {
            assert(eb == seq![92u8, c0]);
            assert(s[i] == s.subrange(i, i + 2)[0]);
            assert(s[i] == 92);
            assert(s[i + 1] == s.subrange(i, i + 2)[1]);
            assert(s[i + 1] == c0);
            lemma_p_str_body_at(s, i + 2, rest);
            assert(p_str_body(s, i) == Some((seq![s[i + 1]] + rest, i + esc(c).len() + 1)));
            assert(seq![s[i + 1]] + rest =~= c);
        } else {
            assert(eb == seq![c0]);
            assert(s[i] == s.subrange(i, i + 1)[0]);
            assert(s[i] == c0);
            lemma_p_str_body_at(s, i + 1, rest);
            assert(p_str_body(s, i) == Some((seq![s[i]] + rest, i + esc(c).len() + 1)));
            assert(seq![s[i]] + rest =~= c);
        }
    }
}

proof fn lemma_p_str_at(s: Seq<u8>, i: int, c: Seq<u8>)
    requires
        0 <= i,
        i + enc_str(c).len() <= s.len(),
        s.subrange(i, i + enc_str(c).len()) == enc_str(c),
    ensures
        p_str(s, i) == Some((c, i + enc_str(c).len())),
{
    let e = esc(c);
    assert(enc_str(c) == seq![34u8] + e + seq![34u8]);
    lemma_chunk(s, i, seq![34u8] + e, seq![34u8]);
    lemma_chunk(s, i, seq![34u8], e);
    assert(s[i] == s.subrange(i, i + 1)[0]);
    assert(s[i] == 34);
    assert(s[i + 1 + e.len()] == s.subrange(i + 1 + e.len(), i + 2 + e.len())[0]);
    assert(s[i + 1 + e.len()] == 34);
    lemma_p_str_body_at(s, i + 1, c);
}

proof fn lemma_p_item_at(s: Seq<u8>, i: int, it: ItemModel)
    requires
        0 <= i,
        i + enc_item(it).len() <= s.len(),
        s.subrange(i, i + enc_item(it).len()) == enc_item(it),
    ensures
        p_item(s, i) == Some((it, i + enc_item(it).len())),
{
    let l0 = lit_item_from();
    let s1 = enc_str(it.from);
    let l1 = lit_item_to();
    let s2 = enc_str(it.to);
    let l2 = lit_item_reason();
    let rr = enc_reason(it.reason);
    let l3 = lit_item_dup();
    let bb = enc_bool(it.duplicate);
    let cc = seq![125u8];
    let x1 = l0 + s1;
    let x2 = x1 + l1;
    let x3 = x2 + s2;
    let x4 = x3 + l2;
    let x5 = x4 + rr;
    let x6 = x5 + l3;
    let x7 = x6 + bb;
    assert(enc_item(it) == x7 + cc);
    lemma_chunk(s, i, x7, cc);
    lemma_chunk(s, i, x6, bb);
    lemma_chunk(s, i, x5, l3);
    lemma_chunk(s, i, x4, rr);
    lemma_chunk(s, i, x3, l2);
    lemma_chunk(s, i, x2, s2);
    lemma_chunk(s, i, x1, l1);
    lemma_chunk(s, i, l0, s1);
    let o1 = i + l0.len();
    let o2 = o1 + s1.len();
    let o3 = o2 + l1.len();
    let o4 = o3 + s2.len();
    let o5 = o4 + l2.len();
    let o6 = o5 + rr.len();
    let o7 = o6 + l3.len();
    let o8 = o7 + bb.len();
    let o9 = o8 + 1;
    lemma_p_lit_at(s, i, l0);
    lemma_p_str_at(s, o1, it.from);
    lemma_p_lit_at(s, o2, l1);
    lemma_p_str_at(s, o3, it.to);
    lemma_p_lit_at(s, o4, l2);
    match it.reason {
        Option::Some(r) => {
            assert(rr == enc_str(r));
            lemma_p_str_at(s, o5, r);
            // `null` cannot match here: the window opens with a quote
            assert(s[o5] == s.subrange(o5, o6)[0]);
            assert(s[o5] == 34);
            if p_lit(s, o5, lit_null()) is Some {
                assert(s.subrange(o5, o5 + 4)[0] == lit_null()[0]);
                assert(false);
            }
            assert(p_reason(s, o5) == Some((Option::Some(r), o6)));
        },
        Option::None => {
            assert(rr == lit_null());
            lemma_p_lit_at(s, o5, lit_null());
            assert(p_reason(s, o5) == Some((Option::<Seq<u8>>::None, o6)));
        },
    }
    lemma_p_lit_at(s, o6, l3);
    if it.duplicate {
        assert(bb == lit_true());
        lemma_p_lit_at(s, o7, lit_true());
        assert(p_bool(s, o7) == Some((true, o8)));
    } else {
        assert(bb == lit_false());
        lemma_p_lit_at(s, o7, lit_false());
        assert(s[o7] == s.subrange(o7, o8)[0]);
        assert(s[o7] == 102);
        if p_lit(s, o7, lit_true()) is Some {
            assert(s.subrange(o7, o7 + 4)[0] == lit_true()[0]);
            assert(false);
        }
        assert(p_bool(s, o7) == Some((false, o8)));
    }
    lemma_p_lit_at(s, o8, cc);
    assert(p_item(s, i) == Some((ItemModel { from: it.from, to: it.to, reason: it.reason, duplicate: it.duplicate }, o9)));
    assert(ItemModel { from: it.from, to: it.to, reason: it.reason, duplicate: it.duplicate } == it);
}

proof fn lemma_p_items_rest_at(s: Seq<u8>, i: int, acts: Seq<ItemModel>)
    requires
        0 <= i,
        i + enc_items_rest(acts).len() + 1 <= s.len(),
        s.subrange(i, i + enc_items_rest(acts).len() + 1) == enc_items_rest(acts) + seq![93u8],
    ensures
        p_items_rest(s, i) == Some((acts, i + enc_items_rest(acts).len() + 1)),
    decreases acts.len(),
{
    if acts.len() == 0 {
        assert(enc_items_rest(acts).len() == 0);
        assert(enc_items_rest(acts) + seq![93u8] =~= seq![93u8]);
        lemma_p_lit_at(s, i, seq![93u8]);
    } else {
        let it = acts[0];
        let rest = acts.skip(1);
        assert(enc_items_rest(acts) == seq![44u8] + enc_item(it) + enc_items_rest(rest));
        let whole = enc_items_rest(acts) + seq![93u8];
        assert(whole =~= seq![44u8] + enc_item(it) + (enc_items_rest(rest) + seq![93u8]));
        lemma_chunk(
            s,
            i,
            seq![44u8] + enc_item(it),
            enc_items_rest(rest) + seq![93u8],
        );
        lemma_chunk(s, i, seq![44u8], enc_item(it));
        assert(s[i] == s.subrange(i, i + 1)[0]);
        assert(s[i] == 44);
        if p_lit(s, i, seq![93u8]) is Some {
            assert(s.subrange(i, i + 1)[0] == 93);
            assert(false);
        }
        lemma_p_lit_at(s, i, seq![44u8]);
        let o1 = i + 1;
        let o2 = o1 + enc_item(it).len();
        lemma_p_item_at(s, o1, it);
        lemma_p_items_rest_at(s, o2, rest);
        assert(p_items_rest(s, i) == Some(
            (seq![it] + rest, i + enc_items_rest(acts).len() + 1),
        ));
        assert(seq![it] + rest =~= acts);
    }
}

proof fn lemma_p_items_at(s: Seq<u8>, i: int, acts: Seq<ItemModel>)
    requires
        0 <= i,
        i + enc_items(acts).len() + 1 <= s.len(),
        s.subrange(i, i + enc_items(acts).len() + 1) == enc_items(acts) + seq![93u8],
    ensures
        p_items(s, i) == Some((acts, i + enc_items(acts).len() + 1)),
{
    if acts.len() == 0 {
        assert(enc_items(acts).len() == 0);
        assert(enc_items(acts) + seq![93u8] =~= seq![93u8]);
        lemma_p_lit_at(s, i, seq![93u8]);
    } else {
        let it = acts[0];
        let rest = acts.skip(1);
        assert(enc_items(acts) == enc_item(it) + enc_items_rest(rest));
        let whole = enc_items(acts) + seq![93u8];
        assert(whole =~= enc_item(it) + (enc_items_rest(rest) + seq![93u8]));
        lemma_chunk(s, i, enc_item(it), enc_items_rest(rest) + seq![93u8]);
        assert(s[i] == s.subrange(i, i + enc_item(it).len())[0]);
        assert(enc_item(it)[0] == 123);
        assert(s[i] == 123);
        if p_lit(s, i, seq![93u8]) is Some {
            assert(s.subrange(i, i + 1)[0] == 93);
            assert(false);
        }
        let o1 = i + enc_item(it).len();
        lemma_p_item_at(s, i, it);
        lemma_p_items_rest_at(s, o1, rest);
        assert(p_items(s, i) == Some((seq![it] + rest, i + enc_items(acts).len() + 1)));
        assert(seq![it] + rest =~= acts);
    }
}

/// Round trip: the grammar inverts the encoder on every well-formed model.
pub proof fn lemma_parse_encode(t: TxnModel)
    requires
        t.when < TS_LIMIT,
    ensures
        p_txn(enc_txn(t)) == Some(t),
{
    let s = enc_txn(t);
    let h = lit_tx_head();
    let ei = enc_items(t.actions);
    let w = lit_tx_when();
    let pt = padded_ts(t.when);
    let tl = lit_tx_tail();
    lemma_padded_ts(t.when);
    let x1 = h + ei;
    let x2 = x1 + seq![93u8];
    let x3 = x2 + w;
    let x4 = x3 + pt;
    assert(s == x4 + tl);
    assert(s.subrange(0, s.len() as int) =~= s);
    lemma_chunk(s, 0, x4, tl);
    lemma_chunk(s, 0, x3, pt);
    lemma_chunk(s, 0, x2, w);
    lemma_chunk(s, 0, x1, seq![93u8]);
    lemma_chunk(s, 0, h, ei);
    let o1 = h.len() as int;
    let o2 = o1 + ei.len();
    let o3 = o2 + 1;
    let o4 = o3 + w.len();
    let o5 = o4 + pt.len();
    let o6 = o5 + tl.len();
    lemma_p_lit_at(s, 0, h);
    assert(s.subrange(o1, o2 + 1) =~= ei + seq![93u8]) by {
        assert forall|k: int| 0 <= k < ei.len() + 1 implies s.subrange(o1, o2 + 1)[k] == (ei
            + seq![93u8])[k] by {
            if k < ei.len() {
                assert(s.subrange(o1, o2)[k] == ei[k]);
            } else {
                assert(s.subrange(o2, o3)[0] == 93);
            }
        }
    }
    lemma_p_items_at(s, o1, t.actions);
    lemma_p_lit_at(s, o3, w);
    assert(p_ts(s, o4) == Some((t.when as int, o5))) by {
        assert(s.subrange(o4, o4 + 15) == pt);
    }
    lemma_p_lit_at(s, o5, tl);
    assert(o6 == s.len());
    assert(p_txn(s) == Some(TxnModel { actions: t.actions, when: t.when }));
    assert(TxnModel { actions: t.actions, when: t.when } == t);
}

} // verus!
