//! A bounded list of moves.

use vstd::prelude::*;
use vstd::std_specs::iter::IteratorSpec;

use crate::moves::Move;

verus! {

/// Holds at most 256 moves (the orthodox maximum of legal moves is 218);
/// a push onto a full list is ignored.
#[derive(Clone)]
pub struct MoveList {
    moves: Vec<Move>,
}

impl View for MoveList {
    type V = Seq<Move>;

    closed spec fn view(&self) -> Seq<Move> {
        self.moves@
    }
}

impl MoveList {
    pub fn new() -> (r: Self)
        ensures
            r@ == Seq::<Move>::empty(),
    {
        MoveList { moves: Vec::with_capacity(256) }
    }

    pub fn push(&mut self, mv: Move)
        ensures
            old(self)@.len() < 256 ==> final(self)@ == old(self)@.push(mv),
            old(self)@.len() >= 256 ==> final(self)@ == old(self)@,
    {
        if self.moves.len() < 256 {
            self.moves.push(mv);
        }
    }

    pub fn len(&self) -> (r: usize)
        ensures
            r == self@.len(),
    {
        self.moves.len()
    }

    pub fn is_empty(&self) -> (r: bool)
        ensures
            r == (self@.len() == 0),
    {
        self.moves.len() == 0
    }

    pub fn get(&self, i: usize) -> (r: Move)
        requires
            i < self@.len(),
        ensures
            r == self@[i as int],
    {
        self.moves[i]
    }

    pub(crate) fn set(&mut self, i: usize, mv: Move)
        requires
            i < old(self)@.len(),
        ensures
            final(self)@ == old(self)@.update(i as int, mv),
    {
        self.moves.set(i, mv);
    }

    /// Whether `mv` is in the list.
    pub fn contains(&self, mv: Move) -> (r: bool)
        ensures
            r == self@.contains(mv),
    {
        let mut i: usize = 0;
        while i < self.moves.len()
            invariant
                i <= self@.len(),
                forall|j: int| 0 <= j < i ==> self@[j] != mv,
            decreases self@.len() - i,
        {
            if self.moves[i] == mv {
                return true;
            }
            i = i + 1;
        }
        false
    }

    /// An iterator over the moves of the list, in order.
    pub fn iter(&self) -> (r: std::slice::Iter<'_, Move>)
        ensures
            vstd::std_specs::slice::into_iter_elts(r) == self@,
            r.remaining().unref() == self@,
    {
        let it = self.moves.as_slice().iter();
        proof {
            assert(it.remaining() == self.moves@.as_ref());
            assert(it.remaining().unref() =~= self@);
        }
        it
    }
}

impl Default for MoveList {
    fn default() -> (r: Self)
        ensures
            r@ == Seq::<Move>::empty(),
    {
        MoveList::new()
    }
}

} // verus!
