//! A workspace that holds feature sets for later combination.

use crate::colset::{ColSet, ColSetView};
use vstd::prelude::*;

verus! {

/// An ordered collection of feature sets. It stores them and nothing more:
/// it does not look for repeated sets and keeps no index by hash.
pub struct ColSetContainer {
    pub contents: Vec<ColSet>,
}

impl View for ColSetContainer {
    type V = Seq<ColSetView>;

    open spec fn view(&self) -> Seq<ColSetView> {
        self.contents@.map_values(|set: ColSet| set@)
    }
}

} // verus!
