//! The entity cache: a string-keyed, string-valued tiered store that
//! spills serialized wiki entities to disk once it grows.

use crate::file_hash::FileHash;
use vstd::prelude::*;

verus! {

pub type EntityFileCache = FileHash<String, String>;

} // verus!
