use vstd::prelude::*;
use vstd::string::{StrSliceExecFns, StringExecFns};

use crate::cell::{flat_index, lemma_flat_index_bounds, lemma_flat_index_injective};
use crate::errors::GameError;
use crate::parse::chars_of;
use crate::symbols::{
    char_of_role, opponent_char_of, opponent_latest_char_of, own_char_of, own_latest_char_of,
    role_of_char, CellRole, SymbolTable,
};

verus! {

/// The playing field: a `width` by `height` grid of cell roles, kept in
/// row-major order, with the symbol table of the local player.
pub struct Anfield {
    pub width: usize,
    pub height: usize,
    /// Row-major order: the cell `(x, y)` is `cells[y * width + x]`.
    pub cells: Vec<CellRole>,
    /// Which character stands for which role.
    pub symbols: SymbolTable,
}

/// Row `y` of a snapshot: the line after the column header.
pub open spec fn snapshot_row(lines: Seq<Seq<char>>, y: int) -> Seq<char> {
    lines[y + 1]
}

/// The character that a snapshot gives for cell `(x, y)`: each row starts
/// with a four-character row number.
pub open spec fn snapshot_char(lines: Seq<Seq<char>>, x: int, y: int) -> char {
    snapshot_row(lines, y)[x + 4]
}

/// A snapshot fits a `w` by `h` field of player `own_id`: a column header,
/// then `h` rows of a four-character row number and `w` known symbols.
pub open spec fn snapshot_ok(lines: Seq<Seq<char>>, w: int, h: int, own_id: u8) -> bool {
    &&& lines.len() == h + 1
    &&& forall|y: int| 0 <= y < h ==> #[trigger] snapshot_row(lines, y).len() == w + 4
    &&& forall|x: int, y: int|
        0 <= x < w && 0 <= y < h ==> role_of_char(own_id, #[trigger] snapshot_char(lines, x, y))
            is Some
}

/// The strings of `lines`, as sequences of characters.
pub open spec fn lines_view(lines: Seq<String>) -> Seq<Seq<char>> {
    lines.map_values(|l: String| l@)
}

/// The character of decimal digit `d`.
pub open spec fn digit_char(d: nat) -> char {
    ((d + 48) as u8) as char
}

/// The decimal digits of `n`, without leading zeros.
pub open spec fn decimal_digits(n: nat) -> Seq<char>
    decreases n,
{
    if n < 10 {
        seq![digit_char(n)]
    } else {
        decimal_digits(n / 10).push(digit_char(n % 10))
    }
}

/// The decimal digits of `n`, with zeros in front up to `width` digits.
pub open spec fn zero_padded(n: nat, width: nat) -> Seq<char> {
    let d = decimal_digits(n);
    if d.len() < width {
        Seq::new((width - d.len()) as nat, |i: int| '0') + d
    } else {
        d
    }
}

/// The column ruler: the last digit of each column number.
pub open spec fn column_digits(w: nat) -> Seq<char> {
    Seq::new(w, |x: int| digit_char((x % 10) as nat))
}

/// Row `y` of the field as text: its number on three digits, a space, its
/// cells and a line break.
pub open spec fn row_text(f: &Anfield, y: int) -> Seq<char> {
    zero_padded(y as nat, 3) + seq![' '] + Seq::new(
        f.width as nat,
        |x: int| char_of_role(f.own_id(), f.cells@[flat_index(x, y, f.width as int)]),
    ) + seq!['\n']
}

/// The first `k` rows of the field as text.
pub open spec fn rows_text(f: &Anfield, k: nat) -> Seq<char>
    decreases k,
{
    if k == 0 {
        seq![]
    } else {
        rows_text(f, (k - 1) as nat) + row_text(f, k - 1)
    }
}

/// The field as text: a header with its size, a column ruler, the rows,
/// and the characters of each side.
pub open spec fn field_text(f: &Anfield) -> Seq<char> {
    let id = f.own_id();
    "Anfield "@ + decimal_digits(f.width as nat) + seq![' '] + decimal_digits(f.height as nat)
        + seq!['\n'] + "    "@ + column_digits(f.width as nat) + seq!['\n']
        + rows_text(f, f.height as nat) + "own_char: "@ + seq![own_char_of(id)]
        + ", opponent_char: "@ + seq![opponent_char_of(id)] + ", own_latest_char: "@ + seq![
        own_latest_char_of(id),
    ] + ", opponent_latest_char: "@ + seq![opponent_latest_char_of(id)]
}

/// Relies on `String`'s `FromIterator<char>`: the string holds the
/// characters in order.
#[verifier::external_body]
fn string_from_chars(chars: &Vec<char>) -> (r: String)
    ensures
        r@ == chars@,
{
    chars.iter().collect()
}

fn push_digit(out: &mut Vec<char>, d: usize)
    requires
        d < 10,
    ensures
        final(out)@ == old(out)@.push(digit_char(d as nat)),
{
    out.push(((d + 48) as u8) as char);
}

/// Appends the decimal digits of `n`.
fn push_decimal(out: &mut Vec<char>, n: usize)
    ensures
        final(out)@ == old(out)@ + decimal_digits(n as nat),
    decreases n,
{
    if n >= 10 {
        push_decimal(out, n / 10);
    }
    push_digit(out, n % 10);
    assert(final(out)@ =~= old(out)@ + decimal_digits(n as nat));
}

/// Appends the characters of `s`.
fn push_str(out: &mut Vec<char>, s: &str)
    ensures
        final(out)@ == old(out)@ + s@,
{
    let chars = chars_of(s);
    let n = chars.len();
    let ghost start = out@;
    for i in 0..n
        invariant
            n == chars@.len(),
            chars@ == s@,
            out@ == start + s@.take(i as int),
    {
        out.push(chars[i]);
        assert(out@ =~= start + s@.take(i + 1));
    }
    assert(s@.take(n as int) =~= s@);
}

impl Anfield {
    /// The identity of the local player, which decides the symbol table.
    pub open spec fn own_id(&self) -> u8 {
        self.symbols.own_id()
    }

    pub open spec fn wf(&self) -> bool {
        &&& self.cells@.len() == self.width * self.height
        &&& self.symbols.wf()
    }

    /// The role of cell `(x, y)`, or `None` off the field.
    pub open spec fn role_at(&self, x: int, y: int) -> Option<CellRole> {
        if 0 <= x < self.width && 0 <= y < self.height {
            Some(self.cells@[flat_index(x, y, self.width as int)])
        } else {
            None
        }
    }

    /// An empty field of no size for the player with identity `own_id`.
    pub fn new(own_id: u8) -> (r: Self)
        ensures
            r.wf(),
            r.width == 0,
            r.height == 0,
            r.own_id() == own_id,
    {
        Self { width: 0, height: 0, cells: Vec::new(), symbols: SymbolTable::new(own_id) }
    }

    /// The role of cell `(x, y)`; `None` when it lies off the field.
    pub fn get_cell_role(&self, x: usize, y: usize) -> (r: Option<CellRole>)
        requires
            self.wf(),
        ensures
            r == self.role_at(x as int, y as int),
    {
        let n = self.cells.len();
        if x < self.width && y < self.height {
            proof {
                lemma_flat_index_bounds(x as int, y as int, self.width as int, self.height as int);
                assert(y * self.width + x < self.cells@.len());
            }
            Some(self.cells[y * self.width + x])
        } else {
            None
        }
    }

    /// The role that character `c` stands for in this field's symbol table.
    fn parse_cell(&self, c: char) -> (r: Option<CellRole>)
        requires
            self.wf(),
        ensures
            r == role_of_char(self.own_id(), c),
    {
        self.symbols.role_of(c)
    }

    /// Replaces every cell from a snapshot: a column header line, then one
    /// line per row, a four-character row number followed by one symbol per
    /// cell. A snapshot of the wrong shape, or with an unknown symbol, is
    /// refused and leaves the field as it was.
    pub fn parse(&mut self, lines: &Vec<String>) -> (r: Result<(), GameError>)
        requires
            old(self).wf(),
        ensures
            final(self).wf(),
            final(self).width == old(self).width,
            final(self).height == old(self).height,
            final(self).own_id() == old(self).own_id(),
            r is Ok == snapshot_ok(
                lines_view(lines@),
                old(self).width as int,
                old(self).height as int,
                old(self).own_id(),
            ),
            r is Err ==> r->Err_0 is ParseAnfieldBody && final(self).cells@ == old(self).cells@,
            r is Ok ==> forall|x: int, y: int|
                0 <= x < final(self).width && 0 <= y < final(self).height
                    ==> #[trigger] final(self).role_at(x, y) == role_of_char(
                    final(self).own_id(),
                    snapshot_char(lines_view(lines@), x, y),
                ),
    {
        let ghost lv = lines_view(lines@);
        let w = self.width;
        let h = self.height;
        if lines.len() == 0 || lines.len() - 1 != h {
            return Err(GameError::ParseAnfieldBody(String::from_str("wrong number of rows")));
        }
        let mut fresh: Vec<CellRole> = Vec::new();
        assert(0 * w == 0);
        for y in 0..h
            invariant
                self.wf(),
                w == self.width,
                h == self.height,
                lv == lines_view(lines@),
                lines@.len() == h + 1,
                fresh@.len() == y * w,
                forall|yy: int| 0 <= yy < y ==> #[trigger] snapshot_row(lv, yy).len() == w + 4,
                forall|xx: int, yy: int|
                    0 <= xx < w && 0 <= yy < y ==> #[trigger] role_of_char(
                        self.own_id(),
                        snapshot_char(lv, xx, yy),
                    ) == Some(fresh@[flat_index(xx, yy, w as int)]),
        {
            let line = lines[y + 1].as_str();
            let len = line.unicode_len();
            assert(line@ == snapshot_row(lv, y as int));
            if len < 4 || len - 4 != w {
                return Err(GameError::ParseAnfieldBody(String::from_str("wrong row length")));
            }
            for x in 0..w
                invariant
                    self.wf(),
                    w == self.width,
                    h == self.height,
                    y < h,
                    lv == lines_view(lines@),
                    line@ == snapshot_row(lv, y as int),
                    line@.len() == w + 4,
                    w + 4 <= usize::MAX,
                    fresh@.len() == y * w + x,
                    forall|xx: int, yy: int|
                        0 <= xx < w && 0 <= yy < y ==> #[trigger] role_of_char(
                            self.own_id(),
                            snapshot_char(lv, xx, yy),
                        ) == Some(fresh@[flat_index(xx, yy, w as int)]),
                    forall|xx: int|
                        0 <= xx < x ==> #[trigger] role_of_char(
                            self.own_id(),
                            snapshot_char(lv, xx, y as int),
                        ) == Some(fresh@[flat_index(xx, y as int, w as int)]),
            {
                let c = line.get_char(x + 4);
                match self.parse_cell(c) {
                    Some(role) => {
                        proof {
                            assert forall|xx: int, yy: int|
                                0 <= xx < w && 0 <= yy < y implies flat_index(xx, yy, w as int)
                                < fresh@.len() by {
                                lemma_flat_index_bounds(xx, yy, w as int, y as int);
                                assert(y * w <= fresh@.len());
                            }
                        }
                        fresh.push(role);
                    },
                    None => {
                        assert(c == snapshot_char(lv, x as int, y as int));
                        return Err(GameError::ParseAnfieldBody(String::from_str("unknown symbol")));
                    },
                }
            }
            assert(fresh@.len() == (y + 1) * w) by (nonlinear_arith)
                requires
                    fresh@.len() == y * w + w,
            ;
        }
        assert(fresh@.len() == w * h) by (nonlinear_arith)
            requires
                fresh@.len() == h * w,
        ;
        self.cells = fresh;
        Ok(())
    }

    /// Gives the field its size, every cell empty. A field is sized once.
    pub fn set_dimensions(&mut self, width: usize, height: usize)
        requires
            old(self).wf(),
            old(self).width == 0,
            width * height <= usize::MAX,
        ensures
            final(self).wf(),
            final(self).width == width,
            final(self).height == height,
            final(self).own_id() == old(self).own_id(),
            forall|i: int| 0 <= i < final(self).cells@.len() ==> final(self).cells@[i] == CellRole::Empty,
    {
        let n = width * height;
        let mut cells: Vec<CellRole> = Vec::new();
        for i in 0..n
            invariant
                cells@.len() == i,
                forall|j: int| 0 <= j < i ==> cells@[j] == CellRole::Empty,
        {
            cells.push(CellRole::Empty);
        }
        self.width = width;
        self.height = height;
        self.cells = cells;
    }

    /// The field as text: `Anfield <width> <height>`, a column ruler, each
    /// row with its three-digit number, and the characters of each side.
    pub fn to_string(&self) -> (r: String)
        requires
            self.wf(),
        ensures
            r@ == field_text(self),
    {
        let w = self.width;
        let h = self.height;
        let n = self.cells.len();
        let mut out: Vec<char> = Vec::new();
        push_str(&mut out, "Anfield ");
        push_decimal(&mut out, w);
        out.push(' ');
        push_decimal(&mut out, h);
        out.push('\n');
        push_str(&mut out, "    ");
        let ghost head = out@;
        for x in 0..w
            invariant
                out@ == head + column_digits(x as nat),
        {
            push_digit(&mut out, x % 10);
            assert(out@ =~= head + column_digits((x + 1) as nat));
        }
        out.push('\n');
        let ghost before_rows = out@;
        proof {
            assert(rows_text(self, 0) =~= Seq::<char>::empty());
            assert(out@ =~= before_rows + rows_text(self, 0));
        }
        for y in 0..h
            invariant
                self.wf(),
                w == self.width,
                h == self.height,
                n == self.cells@.len(),
                out@ == before_rows + rows_text(self, y as nat),
        {
            let ghost row_start = out@;
            let mut digits: Vec<char> = Vec::new();
            push_decimal(&mut digits, y);
            let mut pad = digits.len();
            while pad < 3
                invariant
                    digits@ == decimal_digits(y as nat),
                    digits@.len() <= pad <= 3 || pad == digits@.len(),
                    out@ == row_start + Seq::new((pad - digits@.len()) as nat, |i: int| '0'),
                decreases 3 - pad,
            {
                out.push('0');
                pad = pad + 1;
                assert(out@ =~= row_start + Seq::new((pad - digits@.len()) as nat, |i: int| '0'));
            }
            let ghost padded = out@;
            for i in 0..digits.len()
                invariant
                    out@ == padded + digits@.take(i as int),
            {
                out.push(digits[i]);
                assert(out@ =~= padded + digits@.take(i + 1));
            }
            assert(digits@.take(digits@.len() as int) =~= digits@);
            assert(out@ =~= row_start + zero_padded(y as nat, 3));
            out.push(' ');
            let ghost cells_start = out@;
            for x in 0..w
                invariant
                    self.wf(),
                    w == self.width,
                    h == self.height,
                    n == self.cells@.len(),
                    y < h,
                    out@ == cells_start + Seq::new(
                        x as nat,
                        |xx: int| char_of_role(self.own_id(), self.cells@[flat_index(xx, y as int, w as int)]),
                    ),
            {
                proof {
                    lemma_flat_index_bounds(x as int, y as int, w as int, h as int);
                }
                let c = self.symbols.char_of(self.cells[y * w + x]);
                out.push(c);
                assert(out@ =~= cells_start + Seq::new(
                    (x + 1) as nat,
                    |xx: int| char_of_role(self.own_id(), self.cells@[flat_index(xx, y as int, w as int)]),
                ));
            }
            out.push('\n');
            assert(out@ =~= before_rows + rows_text(self, (y + 1) as nat));
        }
        push_str(&mut out, "own_char: ");
        out.push(self.symbols.char_of(CellRole::OwnSymbol));
        push_str(&mut out, ", opponent_char: ");
        out.push(self.symbols.char_of(CellRole::OpponentSymbol));
        push_str(&mut out, ", own_latest_char: ");
        out.push(self.symbols.char_of(CellRole::OwnLatestMove));
        push_str(&mut out, ", opponent_latest_char: ");
        out.push(self.symbols.char_of(CellRole::OpponentLatestMove));
        assert(out@ =~= field_text(self));
        string_from_chars(&out)
    }
}

} // verus!
