use vstd::prelude::*;
use vstd::string::{StrSliceExecFns, StringExecFns};

use crate::anfield::lines_view;
use crate::cell::{cell_of, Cell};
use crate::errors::GameError;
use crate::symbols::NEW_PIECE_CHAR;

verus! {

/// A shape to place: a `width` by `height` bounding box and the cells of the
/// box that the piece occupies, as offsets from its top left corner.
#[derive(Debug)]
pub struct Piece {
    pub width: usize,
    pub height: usize,
    pub shape: Vec<Cell>,
}

/// A legal anchor for a piece, with how much the engine likes it.
#[derive(Default, Debug, Clone, Copy)]
pub struct PossiblePlacement {
    pub x: isize,
    pub y: isize,
    pub weight: u128,
}

/// Cell `a` comes before cell `b` in row-major order.
pub open spec fn row_major_before(a: Cell, b: Cell) -> bool {
    a.y < b.y || (a.y == b.y && a.x < b.x)
}

/// The rows have the size of a `w` by `h` box.
pub open spec fn piece_rows_ok(rows: Seq<Seq<char>>, w: int, h: int) -> bool {
    &&& rows.len() == h
    &&& forall|y: int| 0 <= y < h ==> #[trigger] rows[y].len() == w
}

/// Cell `(x, y)` of the rows is occupied.
pub open spec fn occupied(rows: Seq<Seq<char>>, x: int, y: int) -> bool {
    rows[y][x] == NEW_PIECE_CHAR
}

/// Some cell of the `w` by `h` box is occupied.
pub open spec fn has_occupied(rows: Seq<Seq<char>>, w: int, h: int) -> bool {
    exists|x: int, y: int| 0 <= x < w && 0 <= y < h && #[trigger] occupied(rows, x, y)
}

/// The occupied cells of the rows, in row-major order.
pub open spec fn is_shape_of(shape: Seq<Cell>, rows: Seq<Seq<char>>, w: int, h: int) -> bool {
    &&& forall|i: int|
        0 <= i < shape.len() ==> (#[trigger] shape[i]).x < w && shape[i].y < h && occupied(
            rows,
            shape[i].x as int,
            shape[i].y as int,
        )
    &&& forall|x: int, y: int|
        0 <= x < w && 0 <= y < h && occupied(rows, x, y) ==> exists|i: int|
            0 <= i < shape.len() && #[trigger] shape[i] == Cell { x: x as usize, y: y as usize }
    &&& forall|i: int, j: int| 0 <= i < j < shape.len() ==> row_major_before(shape[i], shape[j])
}

impl Piece {
    /// Every occupied cell lies in the bounding box, and there is one.
    pub open spec fn wf(&self) -> bool {
        &&& self.shape@.len() > 0
        &&& forall|i: int|
            0 <= i < self.shape@.len() ==> (#[trigger] self.shape@[i]).x < self.width
                && self.shape@[i].y < self.height
    }

    /// The piece drawn by `lines`: `height` rows of `width` characters,
    /// where the occupied cells are marked. Rows of the wrong number or
    /// length, or no occupied cell, are refused.
    pub fn new(lines: &Vec<String>, width: usize, height: usize) -> (r: Result<Self, GameError>)
        ensures
            r is Ok == (piece_rows_ok(lines_view(lines@), width as int, height as int)
                && has_occupied(lines_view(lines@), width as int, height as int)),
            r is Err ==> r->Err_0 is ParsePieceBody,
            r is Ok ==> {
                let p = r->Ok_0;
                &&& p.wf()
                &&& p.width == width
                &&& p.height == height
                &&& is_shape_of(
                    p.shape@,
                    lines_view(lines@),
                    width as int,
                    height as int,
                )
            },
    {
        let ghost rows = lines_view(lines@);
        if lines.len() != height {
            return Err(GameError::ParsePieceBody(String::from_str("wrong number of rows")));
        }
        for y in 0..height
            invariant
                rows == lines_view(lines@),
                lines@.len() == height,
                forall|yy: int| 0 <= yy < y ==> #[trigger] rows[yy].len() == width,
        {
            assert(rows[y as int] == lines@[y as int]@);
            if lines[y].as_str().unicode_len() != width {
                return Err(GameError::ParsePieceBody(String::from_str("wrong row length")));
            }
        }
        assert forall|y: int| 0 <= y < lines@.len() implies #[trigger] lines@[y]@.len() == width by {
            assert(rows[y] == lines@[y]@);
        }
        let shape = parse(lines, width);
        if shape.len() == 0 {
            return Err(GameError::ParsePieceBody(String::from_str("empty piece")));
        }
        proof {
            let c = shape@[0];
            assert(occupied(rows, c.x as int, c.y as int));
        }
        Ok(Piece { width, height, shape })
    }
}

/// The occupied cells of `raw`, rows `width` long, in row-major order.
fn parse(raw: &Vec<String>, width: usize) -> (shape: Vec<Cell>)
    requires
        forall|y: int| 0 <= y < raw@.len() ==> #[trigger] raw@[y]@.len() == width,
    ensures
        is_shape_of(shape@, lines_view(raw@), width as int, raw@.len() as int),
{
    let ghost rows = lines_view(raw@);
    let mut shape: Vec<Cell> = Vec::new();
    let height = raw.len();
    for y in 0..height
        invariant
            rows == lines_view(raw@),
            height == raw@.len(),
            forall|yy: int| 0 <= yy < raw@.len() ==> #[trigger] raw@[yy]@.len() == width,
            forall|i: int|
                0 <= i < shape@.len() ==> (#[trigger] shape@[i]).x < width && shape@[i].y < y
                    && occupied(rows, shape@[i].x as int, shape@[i].y as int),
            forall|xx: int, yy: int|
                0 <= xx < width && 0 <= yy < y && occupied(rows, xx, yy) ==> exists|i: int|
                    0 <= i < shape@.len() && #[trigger] shape@[i] == cell_of(xx, yy),
            forall|i: int, j: int|
                0 <= i < j < shape@.len() ==> row_major_before(shape@[i], shape@[j]),
    {
        let line = raw[y].as_str();
        assert(line@ == rows[y as int]);
        for x in 0..width
            invariant
                rows == lines_view(raw@),
                height == raw@.len(),
                y < height,
                line@ == rows[y as int],
                line@.len() == width,
                forall|i: int|
                    0 <= i < shape@.len() ==> (#[trigger] shape@[i]).x < width && shape@[i].y <= y
                        && (shape@[i].y == y ==> shape@[i].x < x) && occupied(
                        rows,
                        shape@[i].x as int,
                        shape@[i].y as int,
                    ),
                forall|xx: int, yy: int|
                    0 <= xx < width && 0 <= yy < y && occupied(rows, xx, yy) ==> exists|i: int|
                        0 <= i < shape@.len() && #[trigger] shape@[i] == cell_of(xx, yy),
                forall|xx: int|
                    0 <= xx < x && occupied(rows, xx, y as int) ==> exists|i: int|
                        0 <= i < shape@.len() && #[trigger] shape@[i] == cell_of(xx, y as int),
                forall|i: int, j: int|
                    0 <= i < j < shape@.len() ==> row_major_before(shape@[i], shape@[j]),
        {
            if line.get_char(x) == NEW_PIECE_CHAR {
                let ghost before = shape@;
                shape.push(Cell { x, y });
                proof {
                    assert forall|xx: int, yy: int|
                        0 <= xx < width && 0 <= yy < y && occupied(rows, xx, yy) implies exists|
                        i: int,
                    |
                        0 <= i < shape@.len() && #[trigger] shape@[i] == cell_of(xx, yy) by {
                        let i = choose|i: int|
                            0 <= i < before.len() && #[trigger] before[i] == cell_of(xx, yy);
                        assert(shape@[i] == before[i]);
                    }
                    assert forall|xx: int|
                        0 <= xx < x + 1 && occupied(rows, xx, y as int) implies exists|i: int|
                        0 <= i < shape@.len() && #[trigger] shape@[i] == cell_of(xx, y as int) by {
                        if xx == x {
                            assert(shape@[before.len() as int] == Cell { x: xx as usize, y: y });
                        } else {
                            let i = choose|i: int|
                                0 <= i < before.len() && #[trigger] before[i] == cell_of(xx, y as int);
                            assert(shape@[i] == before[i]);
                        }
                    }
                }
            }
        }
    }
    shape
}

} // verus!
