//! Model of the working root's contents.
//!
//! The engine reasons about the root directory as a finite map from relative
//! paths to file contents, both byte strings. Directories are implicit: a
//! path exists exactly when a file was put there, and moving a file carries
//! its parent directories into being as a side effect of the real move.
use vstd::prelude::*;
use crate::bytes_eq;

verus! {

struct FileEntry {
    path: Vec<u8>,
    data: Vec<u8>,
}

/// In-memory model of the files beneath a working root.
pub struct FsModel {
    files: Vec<FileEntry>,
}

spec fn map_of(s: Seq<FileEntry>) -> Map<Seq<u8>, Seq<u8>>
    decreases s.len(),
{
    if s.len() == 0 {
        Map::empty()
    } else {
        map_of(s.drop_last()).insert(s.last().path@, s.last().data@)
    }
}

spec fn distinct_paths(s: Seq<FileEntry>) -> bool {
    forall|i: int, j: int| 0 <= i < j < s.len() ==> s[i].path@ != s[j].path@
}

proof fn lemma_map_of_contains(s: Seq<FileEntry>, p: Seq<u8>)
    ensures
        map_of(s).contains_key(p) <==> exists|i: int| 0 <= i < s.len() && s[i].path@ == p,
    decreases s.len(),
{
    if s.len() == 0 {
    } else {
        lemma_map_of_contains(s.drop_last(), p);
        if map_of(s).contains_key(p) {
            if s.last().path@ == p {
                assert(s[s.len() - 1].path@ == p);
            } else {
                let i = choose|i: int| 0 <= i < s.len() - 1 && s.drop_last()[i].path@ == p;
                assert(s[i].path@ == p);
            }
        }
        if exists|i: int| 0 <= i < s.len() && s[i].path@ == p {
            let i = choose|i: int| 0 <= i < s.len() && s[i].path@ == p;
            if i < s.len() - 1 {
                assert(s.drop_last()[i].path@ == p);
            }
        }
    }
}

proof fn lemma_map_of_value(s: Seq<FileEntry>, i: int)
    requires
        distinct_paths(s),
        0 <= i < s.len(),
    ensures
        map_of(s).contains_key(s[i].path@),
        map_of(s)[s[i].path@] == s[i].data@,
    decreases s.len(),
{
    lemma_map_of_contains(s, s[i].path@);
    if i == s.len() - 1 {
    } else {
        assert(s.drop_last()[i] == s[i]);
        lemma_map_of_value(s.drop_last(), i);
        assert(s.last().path@ != s[i].path@);
    }
}

proof fn lemma_map_of_finite(s: Seq<FileEntry>)
    ensures
        map_of(s).dom().finite(),
        map_of(s).dom().len() <= s.len(),
    decreases s.len(),
{
    if s.len() == 0 {
        assert(map_of(s).dom() =~= Set::<Seq<u8>>::empty());
    } else {
        lemma_map_of_finite(s.drop_last());
        assert(map_of(s).dom() =~= map_of(s.drop_last()).dom().insert(s.last().path@));
        vstd::set_lib::lemma_len_union::<Seq<u8>>(
            map_of(s.drop_last()).dom(),
            Set::empty().insert(s.last().path@),
        );
        assert(map_of(s.drop_last()).dom().union(Set::empty().insert(s.last().path@)) =~= map_of(
            s,
        ).dom());
    }
}

proof fn lemma_map_of_update(s: Seq<FileEntry>, i: int, e: FileEntry)
    requires
        distinct_paths(s),
        0 <= i < s.len(),
        e.path@ == s[i].path@,
    ensures
        map_of(s.update(i, e)) =~= map_of(s).insert(e.path@, e.data@),
        distinct_paths(s.update(i, e)),
    decreases s.len(),
{
    if i == s.len() - 1 {
        assert(s.update(i, e).drop_last() =~= s.drop_last());
    } else {
        assert(s.update(i, e).drop_last() =~= s.drop_last().update(i, e));
        assert(s.update(i, e).last() == s.last());
        lemma_map_of_update(s.drop_last(), i, e);
        assert(s.last().path@ != e.path@);
    }
}

proof fn lemma_map_of_remove(s: Seq<FileEntry>, i: int)
    requires
        distinct_paths(s),
        0 <= i < s.len(),
    ensures
        map_of(s.remove(i)) =~= map_of(s).remove(s[i].path@),
        distinct_paths(s.remove(i)),
    decreases s.len(),
{
    if i == s.len() - 1 {
        assert(s.remove(i) =~= s.drop_last());
        lemma_map_of_contains(s.drop_last(), s[i].path@);
        assert(!map_of(s.drop_last()).contains_key(s[i].path@));
        assert(map_of(s.drop_last()).remove(s[i].path@) =~= map_of(s.drop_last()));
    } else {
        assert(s.remove(i).drop_last() =~= s.drop_last().remove(i));
        assert(s.remove(i).last() == s.last());
        lemma_map_of_remove(s.drop_last(), i);
        assert(s.last().path@ != s[i].path@);
    }
}

impl FsModel {
    pub closed spec fn view(&self) -> Map<Seq<u8>, Seq<u8>> {
        map_of(self.files@)
    }

    pub closed spec fn wf(&self) -> bool {
        distinct_paths(self.files@)
    }

    /// The model of an empty root.
    pub fn new() -> (r: FsModel)
        ensures
            r.wf(),
            r@ == Map::<Seq<u8>, Seq<u8>>::empty(),
    {
        FsModel { files: Vec::new() }
    }

    pub proof fn lemma_finite(&self)
        ensures
            self@.dom().finite(),
    {
        lemma_map_of_finite(self.files@);
    }

    /// An executable bound on how many files exist.
    pub fn file_count(&self) -> (r: usize)
        ensures
            self@.dom().len() <= r,
    {
        proof {
            lemma_map_of_finite(self.files@);
        }
        self.files.len()
    }

    fn find(&self, p: &Vec<u8>) -> (r: Option<usize>)
        requires
            self.wf(),
        ensures
            match r {
                Some(i) => i < self.files@.len() && self.files@[i as int].path@ == p@,
                None => !self@.contains_key(p@),
            },
    {
        proof {
            lemma_map_of_contains(self.files@, p@);
        }
        let mut i: usize = 0;
        while i < self.files.len()
            invariant
                i <= self.files@.len(),
                forall|j: int| 0 <= j < i ==> self.files@[j].path@ != p@,
            decreases self.files@.len() - i,
        {
            if bytes_eq(&self.files[i].path, p) {
                return Some(i);
            }
            i += 1;
        }
        None
    }

    /// Whether a file exists at `p`.
    pub fn contains(&self, p: &Vec<u8>) -> (r: bool)
        requires
            self.wf(),
        ensures
            r == self@.contains_key(p@),
    {
        match self.find(p) {
            Some(i) => {
                proof {
                    lemma_map_of_value(self.files@, i as int);
                }
                true
            },
            None => false,
        }
    }

    /// The contents of the file at `p`, if one exists.
    pub fn get(&self, p: &Vec<u8>) -> (r: Option<&Vec<u8>>)
        requires
            self.wf(),
        ensures
            match r {
                Some(d) => self@.contains_key(p@) && d@ == self@[p@],
                None => !self@.contains_key(p@),
            },
    {
        match self.find(p) {
            Some(i) => {
                proof {
                    lemma_map_of_value(self.files@, i as int);
                }
                Some(&self.files[i].data)
            },
            None => None,
        }
    }

    /// Creates or overwrites the file at `p`.
    pub fn put(&mut self, p: Vec<u8>, d: Vec<u8>)
        requires
            old(self).wf(),
        ensures
            final(self).wf(),
            final(self)@ == old(self)@.insert(p@, d@),
    {
        match self.find(&p) {
            Some(i) => {
                let e = FileEntry { path: p, data: d };
                proof {
                    lemma_map_of_update(self.files@, i as int, e);
                }
                self.files[i] = e;
            },
            None => {
                let ghost s0 = self.files@;
                self.files.push(FileEntry { path: p, data: d });
                proof {
                    assert(self.files@.drop_last() =~= s0);
                    lemma_map_of_contains(s0, p@);
                    assert(distinct_paths(self.files@));
                }
            },
        }
    }

    /// Deletes the file at `p`; no effect when none exists.
    pub fn remove(&mut self, p: &Vec<u8>)
        requires
            old(self).wf(),
        ensures
            final(self).wf(),
            final(self)@ == old(self)@.remove(p@),
    {
        match self.find(p) {
            Some(i) => {
                proof {
                    lemma_map_of_remove(self.files@, i as int);
                }
                self.files.remove(i);
            },
            None => {
                proof {
                    assert(self@.remove(p@) =~= self@);
                }
            },
        }
    }

    /// All paths that currently exist, each exactly once.
    pub fn paths(&self) -> (r: Vec<Vec<u8>>)
        requires
            self.wf(),
        ensures
            forall|i: int, j: int| 0 <= i < j < r@.len() ==> r@[i]@ != r@[j]@,
            forall|i: int| 0 <= i < r@.len() ==> self@.contains_key(#[trigger] r@[i]@),
            forall|k: Seq<u8>|
                self@.contains_key(k) ==> exists|i: int| 0 <= i < r@.len() && #[trigger] r@[i]@ == k,
    {
        let mut r: Vec<Vec<u8>> = Vec::new();
        let mut i: usize = 0;
        while i < self.files.len()
            invariant
                self.wf(),
                i <= self.files@.len(),
                r@.len() == i,
                forall|j: int| 0 <= j < i ==> r@[j]@ == self.files@[j].path@,
            decreases self.files@.len() - i,
        {
            let p = crate::copy_bytes(&self.files[i].path);
            r.push(p);
            i += 1;
        }
        proof {
            assert forall|i2: int| 0 <= i2 < r@.len() implies self@.contains_key(
                #[trigger] r@[i2]@,
            ) by {
                lemma_map_of_value(self.files@, i2);
            }
            assert forall|k: Seq<u8>| self@.contains_key(k) implies exists|i2: int|
                0 <= i2 < r@.len() && #[trigger] r@[i2]@ == k by {
                lemma_map_of_contains(self.files@, k);
                let i2 = choose|i2: int| 0 <= i2 < self.files@.len() && self.files@[i2].path@ == k;
                assert(r@[i2]@ == k);
            }
        }
        r
    }
}

} // verus!
