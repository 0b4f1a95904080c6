use vstd::prelude::*;

use crate::anfield::Anfield;
use crate::piece::Piece;
use crate::strategy::{sizes_ok, Strategy};

verus! {

/// A game in progress: the field as last read, and the strategy that picks
/// each move.
pub struct Game<S: Strategy> {
    pub anfield: Anfield,
    pub strategy: S,
}

impl<S: Strategy> Game<S> {
    /// The move for `piece` on the current field, as the strategy picks it.
    pub fn play(&mut self, piece: &Piece) -> (r: [i32; 2])
        requires
            old(self).anfield.wf(),
            piece.wf(),
            sizes_ok(&old(self).anfield, piece),
        ensures
            *final(self) == *old(self),
            old(self).strategy.chooses(&old(self).anfield, piece, r),
    {
        self.strategy.choose_move(&self.anfield, piece)
    }
}

} // verus!
