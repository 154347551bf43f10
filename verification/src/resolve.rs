//! Conflict resolution for destination paths.
//!
//! A desired destination that already exists is replaced by the first free
//! candidate `stem-1.ext`, `stem-2.ext`, ... — the numeric suffix stands
//! before the extension of the path's final component. The resolver probes
//! the model; against the live file system this is advisory, under the
//! engine's single-writer assumption it is exact.
use vstd::prelude::*;
use crate::fs_model::FsModel;
use crate::num::{dec_rep, lemma_dec_rep, u128_to_dec};
use crate::copy_bytes;

verus! {

/// `i` is the position of the last slash of `p`.
pub open spec fn is_last_slash(p: Seq<u8>, i: int) -> bool {
    &&& 0 <= i < p.len()
    &&& p[i] == 47
    &&& forall|k: int| i < k < p.len() ==> p[k] != 47
}

/// Index just after the last slash: where the final component begins.
pub open spec fn base_of(p: Seq<u8>) -> int {
    if exists|i: int| is_last_slash(p, i) {
        (choose|i: int| is_last_slash(p, i)) + 1
    } else {
        0
    }
}

/// `j` is the position of the final component's extension dot: the last dot,
/// strictly inside the component, so that a leading dot names no extension.
pub open spec fn is_ext_dot(p: Seq<u8>, j: int) -> bool {
    &&& base_of(p) < j < p.len()
    &&& p[j] == 46
    &&& forall|k: int| j < k < p.len() ==> p[k] != 46
}

/// Where the numeric suffix goes: before the extension, else at the end.
pub open spec fn split_point(p: Seq<u8>) -> int {
    if exists|j: int| is_ext_dot(p, j) {
        choose|j: int| is_ext_dot(p, j)
    } else {
        p.len() as int
    }
}

proof fn lemma_last_slash_unique(p: Seq<u8>, i: int, j: int)
    requires
        is_last_slash(p, i),
        is_last_slash(p, j),
    ensures
        i == j,
{
}

proof fn lemma_ext_dot_unique(p: Seq<u8>, i: int, j: int)
    requires
        is_ext_dot(p, i),
        is_ext_dot(p, j),
    ensures
        i == j,
{
}

pub proof fn lemma_split_point_bounds(p: Seq<u8>)
    ensures
        0 <= split_point(p) <= p.len(),
{
    if exists|j: int| is_ext_dot(p, j) {
        let j = choose|j: int| is_ext_dot(p, j);
        assert(0 <= j < p.len());
    }
}

/// The `n`-th suffixed candidate for a taken destination.
pub open spec fn cand(p: Seq<u8>, n: nat) -> Seq<u8> {
    p.subrange(0, split_point(p)) + seq![45u8] + dec_rep(n) + p.subrange(
        split_point(p),
        p.len() as int,
    )
}

pub proof fn lemma_cand_longer(p: Seq<u8>, n: nat)
    ensures
        cand(p, n).len() > p.len(),
{
    lemma_split_point_bounds(p);
    lemma_dec_rep(n);
}

pub proof fn lemma_cand_injective(p: Seq<u8>, a: nat, b: nat)
    requires
        cand(p, a) == cand(p, b),
    ensures
        a == b,
{
    lemma_split_point_bounds(p);
    lemma_dec_rep(a);
    lemma_dec_rep(b);
    let sp = split_point(p);
    let la = dec_rep(a).len();
    let lb = dec_rep(b).len();
    assert(cand(p, a).len() == p.len() + 1 + la);
    assert(cand(p, b).len() == p.len() + 1 + lb);
    assert(la == lb);
    assert(dec_rep(a) =~= dec_rep(b)) by {
        assert forall|t: int| 0 <= t < la implies dec_rep(a)[t] == dec_rep(b)[t] by {
            assert(cand(p, a)[sp + 1 + t] == dec_rep(a)[t]);
            assert(cand(p, b)[sp + 1 + t] == dec_rep(b)[t]);
        }
    }
    assert(a == b);
}

/// In a finite set of taken paths some candidate with index in
/// `[i, i + len]` is free.
proof fn lemma_find_free(s: Set<Seq<u8>>, p: Seq<u8>, i: nat)
    requires
        s.finite(),
    ensures
        exists|j: nat| i <= j <= i + s.len() && !s.contains(cand(p, j)),
    decreases s.len(),
{
    if !s.contains(cand(p, i)) {
        assert(i <= i <= i + s.len() && !s.contains(cand(p, i)));
    } else {
        let s2 = s.remove(cand(p, i));
        assert(s2.len() == s.len() - 1);
        lemma_find_free(s2, p, i + 1);
        let j = choose|j: nat| i + 1 <= j <= i + 1 + s2.len() && !s2.contains(cand(p, j));
        assert(j != i);
        if s.contains(cand(p, j)) {
            lemma_cand_injective(p, i, j);
            assert(false);
        }
        assert(i <= j <= i + s.len() && !s.contains(cand(p, j)));
    }
}

/// `j` is the first free suffix index for `p`.
pub open spec fn is_first_free(m: Map<Seq<u8>, Seq<u8>>, p: Seq<u8>, j: nat) -> bool {
    &&& 1 <= j
    &&& !m.contains_key(cand(p, j))
    &&& forall|k: nat| 1 <= k < j ==> m.contains_key(cand(p, k))
}

pub open spec fn resolve_idx(m: Map<Seq<u8>, Seq<u8>>, p: Seq<u8>) -> nat {
    choose|j: nat| is_first_free(m, p, j)
}

/// The destination actually used for a desired destination `p`: `p` itself
/// when free, else the first free suffixed candidate.
pub open spec fn spec_resolve(m: Map<Seq<u8>, Seq<u8>>, p: Seq<u8>) -> Seq<u8> {
    if !m.contains_key(p) {
        p
    } else {
        cand(p, resolve_idx(m, p))
    }
}

pub proof fn lemma_first_free_unique(m: Map<Seq<u8>, Seq<u8>>, p: Seq<u8>, a: nat, b: nat)
    requires
        is_first_free(m, p, a),
        is_first_free(m, p, b),
    ensures
        a == b,
{
    if a < b {
        assert(m.contains_key(cand(p, a)));
    }
    if b < a {
        assert(m.contains_key(cand(p, b)));
    }
}

proof fn lemma_min_free(m: Map<Seq<u8>, Seq<u8>>, p: Seq<u8>, j0: nat)
    requires
        1 <= j0,
        !m.contains_key(cand(p, j0)),
    ensures
        exists|j: nat| is_first_free(m, p, j),
    decreases j0,
{
    if forall|k: nat| 1 <= k < j0 ==> m.contains_key(cand(p, k)) {
        assert(is_first_free(m, p, j0));
    } else {
        let k = choose|k: nat| 1 <= k < j0 && !m.contains_key(cand(p, k));
        lemma_min_free(m, p, k);
    }
}

pub proof fn lemma_exists_first_free(m: Map<Seq<u8>, Seq<u8>>, p: Seq<u8>)
    requires
        m.dom().finite(),
    ensures
        exists|j: nat| is_first_free(m, p, j),
{
    lemma_find_free(m.dom(), p, 1);
    let j0 = choose|j: nat| 1 <= j <= 1 + m.dom().len() && !m.dom().contains(cand(p, j));
    assert(!m.contains_key(cand(p, j0)));
    lemma_min_free(m, p, j0);
}

/// What the resolver returns never exists, and a taken destination is never
/// returned unchanged.
pub proof fn lemma_resolve_fresh(m: Map<Seq<u8>, Seq<u8>>, p: Seq<u8>)
    requires
        m.dom().finite(),
    ensures
        !m.contains_key(spec_resolve(m, p)),
        m.contains_key(p) ==> spec_resolve(m, p) != p,
{
    if m.contains_key(p) {
        lemma_exists_first_free(m, p);
        let j = resolve_idx(m, p);
        assert(is_first_free(m, p, j));
        lemma_cand_longer(p, j);
    }
}

/// Against a directory already holding the candidates `1..=n`, resolution
/// returns the candidate `n + 1`.
pub proof fn lemma_resolve_suffix_run(m: Map<Seq<u8>, Seq<u8>>, p: Seq<u8>, n: nat)
    requires
        m.contains_key(p),
        forall|k: nat| 1 <= k <= n ==> m.contains_key(cand(p, k)),
        !m.contains_key(cand(p, (n + 1) as nat)),
    ensures
        spec_resolve(m, p) == cand(p, (n + 1) as nat),
{
    assert(is_first_free(m, p, (n + 1) as nat));
    let j = resolve_idx(m, p);
    assert(is_first_free(m, p, j));
    lemma_first_free_unique(m, p, j, (n + 1) as nat);
}

/// The split point of the final component, executable form.
fn find_split(p: &Vec<u8>) -> (r: usize)
    ensures
        r == split_point(p@),
        r <= p.len(),
{
    proof {
        lemma_split_point_bounds(p@);
    }
    // last slash
    let mut base: usize = 0;
    let mut i: usize = p.len();
    let mut found_slash = false;
    while i > 0 && !found_slash
        invariant
            i <= p.len(),
            !found_slash ==> forall|k: int| i <= k < p@.len() ==> p@[k] != 47,
            found_slash ==> 1 <= base <= p.len() && is_last_slash(p@, base - 1),
        decreases i + (if found_slash { 0int } else { 1int }),
    {
        if p[i - 1] == 47 {
            base = i;
            found_slash = true;
        } else {
            i -= 1;
        }
    }
    proof {
        if found_slash {
            let w = choose|w: int| is_last_slash(p@, w);
            lemma_last_slash_unique(p@, w, base - 1);
            assert(base_of(p@) == base);
        } else {
            if exists|w: int| is_last_slash(p@, w) {
                let w = choose|w: int| is_last_slash(p@, w);
                assert(p@[w] != 47);
                assert(false);
            }
            assert(base_of(p@) == 0);
        }
    }
    if !found_slash {
        base = 0;
    }
    // last dot strictly inside the final component
    let mut j: usize = p.len();
    while j > 0 && j - 1 > base
        invariant
            base < j + 1,
            j <= p.len(),
            base == base_of(p@),
            forall|k: int| j <= k < p@.len() ==> p@[k] != 46,
        decreases j,
    {
        if p[j - 1] == 46 {
            proof {
                assert(is_ext_dot(p@, j - 1));
                let w = choose|w: int| is_ext_dot(p@, w);
                lemma_ext_dot_unique(p@, w, j - 1);
            }
            return j - 1;
        }
        j -= 1;
    }
    proof {
        if exists|w: int| is_ext_dot(p@, w) {
            let w = choose|w: int| is_ext_dot(p@, w);
            assert(p@[w] != 46);
            assert(false);
        }
    }
    p.len()
}

/// The `n`-th suffixed candidate, executable form.
fn build_cand(p: &Vec<u8>, sp: usize, n: u128) -> (r: Vec<u8>)
    requires
        sp == split_point(p@),
        sp <= p.len(),
    ensures
        r@ == cand(p@, n as nat),
{
    let mut r: Vec<u8> = Vec::new();
    let mut i: usize = 0;
    while i < sp
        invariant
            i <= sp <= p@.len(),
            r@ =~= p@.subrange(0, i as int),
        decreases sp - i,
    {
        r.push(p[i]);
        assert(r@ =~= p@.subrange(0, i + 1));
        i += 1;
    }
    r.push(45);
    let mut digits = u128_to_dec(n);
    r.append(&mut digits);
    let mut k: usize = sp;
    while k < p.len()
        invariant
            sp <= k <= p@.len(),
            sp == split_point(p@),
            r@ =~= p@.subrange(0, sp as int) + seq![45u8] + dec_rep(n as nat) + p@.subrange(
                sp as int,
                k as int,
            ),
        decreases p@.len() - k,
    {
        r.push(p[k]);
        assert(r@ =~= p@.subrange(0, sp as int) + seq![45u8] + dec_rep(n as nat) + p@.subrange(
            sp as int,
            k + 1,
        ));
        k += 1;
    }
    r
}

/// An equivalent of the desired destination `to` that does not exist in the
/// model: `to` itself when free, else the first free suffixed candidate.
pub fn resolve_conflict(fs: &FsModel, to: &Vec<u8>) -> (r: Vec<u8>)
    requires
        fs.wf(),
    ensures
        r@ == spec_resolve(fs@, to@),
        !fs@.contains_key(r@),
{
    if !fs.contains(to) {
        return copy_bytes(to);
    }
    proof {
        fs.lemma_finite();
        lemma_exists_first_free(fs@, to@);
    }
    let cap = fs.file_count();
    let ghost bound: nat = 1 + fs@.dom().len();
    assert(bound <= 1 + cap as nat);
    let sp = find_split(to);
    let mut n: u128 = 1;
    let mut c = build_cand(to, sp, 1);
    proof {
        lemma_find_free(fs@.dom(), to@, 1);
    }
    while fs.contains(&c)
        invariant
            fs.wf(),
            1 <= n,
            sp == split_point(to@),
            sp <= to@.len(),
            bound == 1 + fs@.dom().len(),
            c@ == cand(to@, n as nat),
            n <= bound,
            bound <= 1 + cap as nat,
            forall|k: nat| 1 <= k < n ==> fs@.contains_key(cand(to@, k)),
            exists|j: nat| n <= j <= bound && !fs@.contains_key(cand(to@, j)),
        decreases bound - n,
    {
        proof {
            let j = choose|j: nat| n <= j <= bound && !fs@.contains_key(cand(to@, j));
            assert(j != n);
            assert((n + 1) as nat <= j <= bound && !fs@.contains_key(cand(to@, j)));
            fs.lemma_finite();
        }
        n = n + 1;
        c = build_cand(to, sp, n);
    }
    proof {
        assert(is_first_free(fs@, to@, n as nat));
        let j = resolve_idx(fs@, to@);
        assert(is_first_free(fs@, to@, j));
        lemma_first_free_unique(fs@, to@, j, n as nat);
    }
    c
}

} // verus!
