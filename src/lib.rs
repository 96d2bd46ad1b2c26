//! A small content-addressed object store: blobs and trees, their canonical
//! byte encoding, their SHA-1 addresses and their compressed stored form.

pub mod digest;
pub mod object;
pub mod store;
pub mod laws;

use vstd::prelude::*;

verus! {

} // verus!
