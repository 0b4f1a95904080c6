use vstd::prelude::*;

pub mod attack;
pub mod laws;

use crate::anfield::Anfield;
use crate::piece::Piece;

verus! {

/// The sizes for which every anchor of the search fits an `i32`.
pub open spec fn sizes_ok(f: &Anfield, p: &Piece) -> bool {
    f.width <= i32::MAX && f.height <= i32::MAX && p.width <= i32::MAX && p.height <= i32::MAX
}

/// A way of choosing where to put a piece.
pub trait Strategy {
    /// `r` is a move this strategy may choose for `piece` on `anfield`.
    spec fn chooses(&self, anfield: &Anfield, piece: &Piece, r: [i32; 2]) -> bool;

    /// The anchor `[x, y]` chosen for `piece` on `anfield`.
    fn choose_move(&self, anfield: &Anfield, piece: &Piece) -> (r: [i32; 2])
        requires
            anfield.wf(),
            piece.wf(),
            sizes_ok(anfield, piece),
        ensures
            self.chooses(anfield, piece, r),
    ;
}

} // verus!
