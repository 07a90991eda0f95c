//! The principal variation below every ply.
use crate::types::{Move, MAX_PLY};
use vstd::prelude::*;

verus! {

/// For each ply, the best line found from there.
pub struct PvTable {
    rows: Vec<Vec<Move>>,
}

impl PvTable {
    /// The lines, by ply.
    pub closed spec fn view(&self) -> Seq<Seq<Move>> {
        self.rows@.map_values(|row: Vec<Move>| row@)
    }

    /// A table with an empty line for every ply.
    pub fn new() -> (table: PvTable)
        ensures
            table@ == Seq::new((MAX_PLY + 1) as nat, |i: int| Seq::<Move>::empty()),
    {
        let mut rows: Vec<Vec<Move>> = Vec::new();
        while rows.len() < MAX_PLY + 1
            invariant
                rows@.len() <= MAX_PLY + 1,
                forall|i: int| 0 <= i < rows@.len() ==> (#[trigger] rows@[i])@ == Seq::<Move>::empty(),
            decreases MAX_PLY + 1 - rows@.len(),
        {
            rows.push(Vec::new());
        }
        let table = PvTable { rows };
        assert(table@ =~= Seq::new((MAX_PLY + 1) as nat, |i: int| Seq::<Move>::empty()));
        table
    }

    /// Empties the line of a ply.
    pub fn clear(&mut self, ply: usize)
        requires
            ply < old(self)@.len(),
        ensures
            final(self)@ == old(self)@.update(ply as int, Seq::empty()),
    {
        self.rows[ply] = Vec::new();
        assert(self@ =~= old(self)@.update(ply as int, Seq::empty()));
    }

    /// Makes the line of a ply the given move, followed by the line of the
    /// next ply.
    pub fn update(&mut self, ply: usize, mv: Move)
        requires
            ply < MAX_PLY,
            old(self)@.len() == MAX_PLY + 1,
        ensures
            final(self)@ == old(self)@.update(ply as int, seq![mv] + old(self)@[ply + 1]),
    {
        let mut row: Vec<Move> = Vec::new();
        row.push(mv);
        let tail = &self.rows[ply + 1];
        let mut i: usize = 0;
        while i < tail.len()
            invariant
                i <= tail@.len(),
                row@ == seq![mv] + tail@.take(i as int),
            decreases tail@.len() - i,
        {
            row.push(tail[i]);
            i = i + 1;
            assert(row@ =~= seq![mv] + tail@.take(i as int));
        }
        assert(tail@.take(i as int) =~= tail@);
        self.rows[ply] = row;
        assert(self@ =~= old(self)@.update(ply as int, seq![mv] + old(self)@[ply + 1]));
    }

    /// A copy of the line of a ply.
    pub fn line(&self, ply: usize) -> (line: Vec<Move>)
        requires
            ply < self@.len(),
        ensures
            line@ == self@[ply as int],
    {
        let row = &self.rows[ply];
        let mut line: Vec<Move> = Vec::new();
        let mut i: usize = 0;
        while i < row.len()
            invariant
                i <= row@.len(),
                line@ == row@.take(i as int),
            decreases row@.len() - i,
        {
            line.push(row[i]);
            i = i + 1;
            assert(line@ =~= row@.take(i as int));
        }
        assert(row@.take(i as int) =~= row@);
        line
    }
}

} // verus!
