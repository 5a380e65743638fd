//! An index from page identifiers to positions.

use std::collections::BTreeMap;

use vstd::prelude::*;

use crate::stage::EntityId;

verus! {

/// Maps page identifiers to positions; a later entry replaces an earlier one.
pub struct PageIndex {
    positions: BTreeMap<u128, usize>,
}

impl View for PageIndex {
    type V = Map<EntityId, usize>;

    closed spec fn view(&self) -> Map<EntityId, usize> {
        Map::new(
            |page: EntityId| self.positions@.contains_key(page.0),
            |page: EntityId| self.positions@[page.0],
        )
    }
}

impl PageIndex {
    pub fn new() -> (result: PageIndex)
        ensures
            result@ == Map::<EntityId, usize>::empty(),
    {
        PageIndex { positions: BTreeMap::new() }
    }

    pub fn insert(&mut self, page: EntityId, position: usize)
        ensures
            final(self)@ == old(self)@.insert(page, position),
    {
        broadcast use vstd::std_specs::btree::group_btree_axioms;

        self.positions.insert(page.0, position);
    }

    pub fn get(&self, page: EntityId) -> (result: Option<usize>)
        ensures
            match result {
                Some(position) => self@.contains_key(page) && self@[page] == position,
                None => !self@.contains_key(page),
            },
    {
        broadcast use vstd::std_specs::btree::group_btree_axioms;

        match self.positions.get(&page.0) {
            Some(position) => Some(*position),
            None => None,
        }
    }
}

} // verus!
