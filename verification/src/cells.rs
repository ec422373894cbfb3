//! Maps keyed by the cells of a longitude/latitude grid.

use std::collections::HashMap;

use vstd::prelude::*;

verus! {

broadcast use vstd::std_specs::hash::group_hash_axioms;

/// A grid cell: its longitude index, then its latitude index.
pub type Cell = (i16, i16);

/// The number under which a cell is stored. Different cells have different
/// numbers.
pub open spec fn cell_id(k: Cell) -> int {
    k.0 * 0x1_0000 + k.1 + 0x8000
}

/// A map from grid cells to values.
pub struct CellMap<V> {
    by_id: HashMap<i32, V>,
}

impl<V: View> View for CellMap<V> {
    type V = Map<Cell, V::V>;

    closed spec fn view(&self) -> Map<Cell, V::V> {
        Map::new(
            |k: Cell| self.by_id@.contains_key(cell_id(k) as i32),
            |k: Cell| self.by_id@[cell_id(k) as i32]@,
        )
    }
}

fn pack(key: [i16; 2]) -> (id: i32)
    ensures
        id as int == cell_id((key[0], key[1])),
{
    (key[0] as i32) * 0x1_0000 + (key[1] as i32 + 0x8000)
}

impl<V: View> CellMap<V> {
    /// A map without entries.
    pub fn new() -> (m: Self)
        ensures
            m@ == Map::<Cell, V::V>::empty(),
    {
        CellMap { by_id: HashMap::new() }
    }

    /// Stores `value` for the cell, in place of what it held before.
    pub fn insert(&mut self, key: [i16; 2], value: V)
        ensures
            final(self)@ == old(self)@.insert((key[0], key[1]), value@),
    {
        let id: i32 = pack(key);
        self.by_id.insert(id, value);
        proof {
            let cell = (key[0], key[1]);
            assert forall|k: Cell| cell_id(k) as i32 == id implies k == cell by {}
            assert(self@ =~= old(self)@.insert(cell, value@));
        }
    }

    /// What the cell holds, if anything.
    pub fn get(&self, key: [i16; 2]) -> (r: Option<&V>)
        ensures
            r is Some <==> self@.contains_key((key[0], key[1])),
            r matches Some(v) ==> v@ == self@[(key[0], key[1])],
    {
        let id: i32 = pack(key);
        self.by_id.get(&id)
    }
}

} // verus!
