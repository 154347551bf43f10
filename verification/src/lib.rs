//! Plan application and undo engine for a file reorganizer.
//!
//! The engine moves files inside a working root according to an externally
//! supplied plan, resolves destination-name collisions with numeric suffixes,
//! records every executed plan as a durable transaction, and can replay the
//! most recent transaction in reverse to restore the prior state.
//!
//! All reasoning happens over an explicit model of the root directory's
//! contents ([`fs_model::FsModel`]): a finite map from relative paths (byte
//! strings) to file contents (byte strings). The surrounding application is
//! responsible for mirroring the model's moves onto the real file system and
//! for the single-writer assumption: at most one apply or undo runs against a
//! given root at a time.
use vstd::prelude::*;

pub mod clock;
pub mod codec;
pub mod engine;
pub mod fs_model;
pub mod laws;
pub mod num;
pub mod record;
pub mod resolve;
pub mod roundtrip;

verus! {

/// Compares two byte strings; the engine's paths and file contents are bytes.
pub fn bytes_eq(a: &Vec<u8>, b: &Vec<u8>) -> (r: bool)
    ensures
        r == (a@ == b@),
{
    if a.len() != b.len() {
        assert(a@ != b@);
        return false;
    }
    let mut i: usize = 0;
    while i < a.len()
        invariant
            i <= a.len(),
            a.len() == b.len(),
            forall|j: int| 0 <= j < i ==> a@[j] == b@[j],
        decreases a.len() - i,
    {
        if a[i] != b[i] {
            assert(a@ != b@);
            return false;
        }
        i += 1;
    }
    assert(a@ =~= b@);
    true
}

/// A fresh byte string with the same contents.
pub fn copy_bytes(a: &Vec<u8>) -> (r: Vec<u8>)
    ensures
        r@ == a@,
{
    let mut r: Vec<u8> = Vec::new();
    let mut i: usize = 0;
    while i < a.len()
        invariant
            i <= a.len(),
            r@ =~= a@.take(i as int),
        decreases a.len() - i,
    {
        r.push(a[i]);
        assert(r@ =~= a@.take(i + 1));
        i += 1;
    }
    assert(r@ =~= a@);
    r
}

} // verus!
