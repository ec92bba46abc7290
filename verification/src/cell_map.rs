//! A map from grid positions to values, for the bookkeeping of a search.

use std::collections::HashMap;
use vstd::prelude::*;
use crate::vec::Vecu;
use crate::MAZE_SIZE;

verus! {

broadcast use vstd::std_specs::hash::group_hash_axioms;

/// The number under which a position is stored: no two positions share one.
pub open spec fn key_of(pos: Vecu) -> u16 {
    (pos.x + pos.y * 256) as u16
}

/// Represents a custom Map implementation where the key is a [Vecu].
pub struct CellMap<V> {
    elements: HashMap<u16, V>,
}

impl<V> View for CellMap<V> {
    type V = Map<Vecu, V>;

    closed spec fn view(&self) -> Map<Vecu, V> {
        Map::new(
            |pos: Vecu| self.elements@.contains_key(key_of(pos)),
            |pos: Vecu| self.elements@[key_of(pos)],
        )
    }
}

/// Computes the number under which `vec` is stored.
fn key(vec: &Vecu) -> (k: u16)
    ensures
        k == key_of(*vec),
{
    (vec.x as u16) + (vec.y as u16) * 256
}

impl<V> CellMap<V> {
    /// Creates an empty map, with room for every cell of the maze.
    pub fn new() -> (m: Self)
        ensures
            m@ == Map::<Vecu, V>::empty(),
    {
        let m = CellMap { elements: HashMap::with_capacity(MAZE_SIZE) };
        assert(m@ =~= Map::<Vecu, V>::empty());
        m
    }

    /// Returns the value stored for `vec`, if there is one.
    pub fn _get(&self, vec: &Vecu) -> (r: Option<&V>)
        ensures
            r == if self@.contains_key(*vec) {
                Some(&self@[*vec])
            } else {
                None
            },
    {
        let k = key(vec);
        self.elements.get(&k)
    }

    /// Stores `value` for `vec`, and returns the value that was stored for it
    /// before, if there was one.
    pub fn insert(&mut self, vec: Vecu, value: V) -> (r: Option<V>)
        ensures
            final(self)@ == old(self)@.insert(vec, value),
            r == if old(self)@.contains_key(vec) {
                Some(old(self)@[vec])
            } else {
                None
            },
    {
        let r = self.elements.insert(key(&vec), value);
        proof {
            assert forall|p: Vecu| p != vec implies key_of(p) != key_of(vec) by {}
            assert(self@ =~= old(self)@.insert(vec, value));
        }
        r
    }

    /// Whether a value is stored for `vec`.
    pub fn contains_key(&self, vec: &Vecu) -> (b: bool)
        ensures
            b == self@.contains_key(*vec),
    {
        let k = key(vec);
        self.elements.contains_key(&k)
    }
}

impl<V> Default for CellMap<V> {
    fn default() -> (m: Self)
        ensures
            m@ == Map::<Vecu, V>::empty(),
    {
        Self::new()
    }
}

} // verus!
