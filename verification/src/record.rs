//! Transaction records.
//!
//! A transaction is the durable description of one executed plan: the moves
//! in execution order, each with its finally resolved destination, plus the
//! application timestamp. Records are written as a canonical, human-readable
//! JSON-shaped document; [`p_txn`] is the exact grammar the engine reads
//! back, and parsing what was encoded returns the original transaction.
use vstd::prelude::*;
use crate::num::{all_digits, digits_val, padded_ts, TS_LIMIT};

verus! {

/// Mathematical model of one executed move.
pub ghost struct ItemModel {
    pub from: Seq<u8>,
    pub to: Seq<u8>,
    pub reason: Option<Seq<u8>>,
    pub duplicate: bool,
}

/// Mathematical model of a transaction.
pub ghost struct TxnModel {
    pub actions: Seq<ItemModel>,
    pub when: nat,
}

/// One planned or executed move: paths relative to the working root. The
/// `reason` and `duplicate` fields come from the planning layer and are
/// carried through without interpretation. In an executed transaction, `to`
/// is the destination actually used after conflict resolution.
#[derive(Debug)]
pub struct TransactionItem {
    pub from: Vec<u8>,
    pub to: Vec<u8>,
    pub reason: Option<Vec<u8>>,
    pub duplicate: bool,
}

/// The durable record of one executed plan.
#[derive(Debug)]
pub struct Transaction {
    pub actions: Vec<TransactionItem>,
    pub when: u64,
}

impl View for TransactionItem {
    type V = ItemModel;

    open spec fn view(&self) -> ItemModel {
        ItemModel {
            from: self.from@,
            to: self.to@,
            reason: match self.reason {
                Option::Some(r) => Option::Some(r@),
                Option::None => Option::None,
            },
            duplicate: self.duplicate,
        }
    }
}

pub open spec fn items_view(v: Seq<TransactionItem>) -> Seq<ItemModel> {
    v.map_values(|it: TransactionItem| it@)
}

impl View for Transaction {
    type V = TxnModel;

    open spec fn view(&self) -> TxnModel {
        TxnModel { actions: items_view(self.actions@), when: self.when as nat }
    }
}

impl Transaction {
    /// Timestamps stay below the fixed-width limit.
    pub open spec fn wf(&self) -> bool {
        self.when < TS_LIMIT
    }
}

// ---------------------------------------------------------------------------
// Encoding
// ---------------------------------------------------------------------------
/// Escaping for path and reason bytes inside a quoted string: a quote or a
/// backslash is preceded by a backslash, every other byte stands as itself.
pub open spec fn esc_byte(b: u8) -> Seq<u8> {
    if b == 34 || b == 92 {
        seq![92u8, b]
    } else {
        seq![b]
    }
}

pub open spec fn esc(s: Seq<u8>) -> Seq<u8>
    decreases s.len(),
{
    if s.len() == 0 {
        Seq::empty()
    } else {
        esc_byte(s[0]) + esc(s.skip(1))
    }
}

/// A quoted, escaped string.
pub open spec fn enc_str(s: Seq<u8>) -> Seq<u8> {
    seq![34u8] + esc(s) + seq![34u8]
}

pub open spec fn lit_item_from() -> Seq<u8> {
    seq![123u8, 34u8, 102u8, 114u8, 111u8, 109u8, 34u8, 58u8]
}

pub open spec fn lit_item_to() -> Seq<u8> {
    seq![44u8, 34u8, 116u8, 111u8, 34u8, 58u8]
}

pub open spec fn lit_item_reason() -> Seq<u8> {
    seq![44u8, 34u8, 114u8, 101u8, 97u8, 115u8, 111u8, 110u8, 34u8, 58u8]
}

pub open spec fn lit_item_dup() -> Seq<u8> {
    seq![44u8, 34u8, 100u8, 117u8, 112u8, 108u8, 105u8, 99u8, 97u8, 116u8, 101u8, 34u8, 58u8]
}

pub open spec fn lit_null() -> Seq<u8> {
    seq![110u8, 117u8, 108u8, 108u8]
}

pub open spec fn lit_true() -> Seq<u8> {
    seq![116u8, 114u8, 117u8, 101u8]
}

pub open spec fn lit_false() -> Seq<u8> {
    seq![102u8, 97u8, 108u8, 115u8, 101u8]
}

pub open spec fn lit_tx_head() -> Seq<u8> {
    seq![123u8, 34u8, 97u8, 99u8, 116u8, 105u8, 111u8, 110u8, 115u8, 34u8, 58u8, 91u8]
}

pub open spec fn lit_tx_when() -> Seq<u8> {
    seq![44u8, 34u8, 119u8, 104u8, 101u8, 110u8, 34u8, 58u8, 34u8]
}

pub open spec fn lit_tx_tail() -> Seq<u8> {
    seq![34u8, 125u8]
}

pub open spec fn enc_reason(r: Option<Seq<u8>>) -> Seq<u8> {
    match r {
        Option::Some(s) => enc_str(s),
        Option::None => lit_null(),
    }
}

pub open spec fn enc_bool(b: bool) -> Seq<u8> {
    if b {
        lit_true()
    } else {
        lit_false()
    }
}

pub open spec fn enc_item(it: ItemModel) -> Seq<u8> {
    lit_item_from() + enc_str(it.from) + lit_item_to() + enc_str(it.to) + lit_item_reason()
        + enc_reason(it.reason) + lit_item_dup() + enc_bool(it.duplicate) + seq![125u8]
}

/// The items after the first, each preceded by a comma.
pub open spec fn enc_items_rest(s: Seq<ItemModel>) -> Seq<u8>
    decreases s.len(),
{
    if s.len() == 0 {
        Seq::empty()
    } else {
        seq![44u8] + enc_item(s[0]) + enc_items_rest(s.skip(1))
    }
}

pub open spec fn enc_items(s: Seq<ItemModel>) -> Seq<u8> {
    if s.len() == 0 {
        Seq::empty()
    } else {
        enc_item(s[0]) + enc_items_rest(s.skip(1))
    }
}

/// The canonical record document for a transaction.
pub open spec fn enc_txn(t: TxnModel) -> Seq<u8> {
    lit_tx_head() + enc_items(t.actions) + seq![93u8] + lit_tx_when() + padded_ts(t.when)
        + lit_tx_tail()
}

// ---------------------------------------------------------------------------
// Parsing
// ---------------------------------------------------------------------------
/// Recognizes the literal `l` at position `i`, returning the next position.
pub open spec fn p_lit(s: Seq<u8>, i: int, l: Seq<u8>) -> Option<int> {
    if 0 <= i && i + l.len() <= s.len() && s.subrange(i, i + l.len()) == l {
        Some(i + l.len())
    } else {
        None
    }
}

/// Reads the body of a quoted string up to its closing quote, undoing the
/// escaping; `i` stands just after the opening quote.
pub open spec fn p_str_body(s: Seq<u8>, i: int) -> Option<(Seq<u8>, int)>
    decreases s.len() - i,
{
    if i < 0 || i >= s.len() {
        None
    } else if s[i] == 34 {
        Some((Seq::empty(), i + 1))
    } else if s[i] == 92 {
        if i + 1 < s.len() {
            match p_str_body(s, i + 2) {
                Some((r, j)) => Some((seq![s[i + 1]] + r, j)),
                None => None,
            }
        } else {
            None
        }
    } else {
        match p_str_body(s, i + 1) {
            Some((r, j)) => Some((seq![s[i]] + r, j)),
            None => None,
        }
    }
}

pub open spec fn p_str(s: Seq<u8>, i: int) -> Option<(Seq<u8>, int)> {
    if 0 <= i && i < s.len() && s[i] == 34 {
        p_str_body(s, i + 1)
    } else {
        None
    }
}

/// Reads a fixed-width timestamp.
pub open spec fn p_ts(s: Seq<u8>, i: int) -> Option<(int, int)> {
    if 0 <= i && i + 15 <= s.len() && all_digits(s.subrange(i, i + 15)) {
        Some((digits_val(s.subrange(i, i + 15)), i + 15))
    } else {
        None
    }
}

pub open spec fn p_reason(s: Seq<u8>, i: int) -> Option<(Option<Seq<u8>>, int)> {
    match p_lit(s, i, lit_null()) {
        Some(j) => Some((Option::None, j)),
        None => match p_str(s, i) {
            Some((r, j)) => Some((Option::Some(r), j)),
            None => None,
        },
    }
}

pub open spec fn p_bool(s: Seq<u8>, i: int) -> Option<(bool, int)> {
    match p_lit(s, i, lit_true()) {
        Some(j) => Some((true, j)),
        None => match p_lit(s, i, lit_false()) {
            Some(j) => Some((false, j)),
            None => None,
        },
    }
}

pub open spec fn p_item(s: Seq<u8>, i: int) -> Option<(ItemModel, int)> {
    match p_lit(s, i, lit_item_from()) {
        None => None,
        Some(i1) => match p_str(s, i1) {
            None => None,
            Some((from, i2)) => match p_lit(s, i2, lit_item_to()) {
                None => None,
                Some(i3) => match p_str(s, i3) {
                    None => None,
                    Some((to, i4)) => match p_lit(s, i4, lit_item_reason()) {
                        None => None,
                        Some(i5) => match p_reason(s, i5) {
                            None => None,
                            Some((reason, i6)) => match p_lit(s, i6, lit_item_dup()) {
                                None => None,
                                Some(i7) => match p_bool(s, i7) {
                                    None => None,
                                    Some((duplicate, i8)) => match p_lit(s, i8, seq![125u8]) {
                                        None => None,
                                        Some(i9) => Some(
                                            (ItemModel { from, to, reason, duplicate }, i9),
                                        ),
                                    },
                                },
                            },
                        },
                    },
                },
            },
        },
    }
}

/// Reads `, item , item ... ]` after a first item.
pub open spec fn p_items_rest(s: Seq<u8>, i: int) -> Option<(Seq<ItemModel>, int)>
    decreases s.len() - i,
{
    match p_lit(s, i, seq![93u8]) {
        Some(j) => Some((Seq::empty(), j)),
        None => match p_lit(s, i, seq![44u8]) {
            None => None,
            Some(i1) => match p_item(s, i1) {
                None => None,
                Some((it, j)) => {
                    if i < j <= s.len() {
                        match p_items_rest(s, j) {
                            None => None,
                            Some((rest, k)) => Some((seq![it] + rest, k)),
                        }
                    } else {
                        None
                    }
                },
            },
        },
    }
}

/// Reads the item list together with its closing bracket.
pub open spec fn p_items(s: Seq<u8>, i: int) -> Option<(Seq<ItemModel>, int)> {
    match p_lit(s, i, seq![93u8]) {
        Some(j) => Some((Seq::empty(), j)),
        None => match p_item(s, i) {
            None => None,
            Some((it, j)) => {
                if i < j <= s.len() {
                    match p_items_rest(s, j) {
                        None => None,
                        Some((rest, k)) => Some((seq![it] + rest, k)),
                    }
                } else {
                    None
                }
            },
        },
    }
}

/// The whole record grammar; `None` on any malformed document.
pub open spec fn p_txn(s: Seq<u8>) -> Option<TxnModel> {
    match p_lit(s, 0, lit_tx_head()) {
        None => None,
        Some(i1) => match p_items(s, i1) {
            None => None,
            Some((actions, i2)) => match p_lit(s, i2, lit_tx_when()) {
                None => None,
                Some(i3) => match p_ts(s, i3) {
                    None => None,
                    Some((when, i4)) => match p_lit(s, i4, lit_tx_tail()) {
                        None => None,
                        Some(i5) => {
                            if i5 == s.len() {
                                Some(TxnModel { actions, when: when as nat })
                            } else {
                                None
                            }
                        },
                    },
                },
            },
        },
    }
}

} // verus!
