//! The volumes of a game, each held in memory under its number.

use vstd::prelude::*;
use std::collections::HashMap;

verus! {

/// The bytes of every volume that was loaded, by volume number.
pub struct Files {
    pub files: HashMap<usize, Vec<u8>>,
}

} // verus!
