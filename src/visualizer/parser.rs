use vstd::prelude::*;
use vstd::string::StrSliceExecFns;

use crate::parse::{
    chars_of, parse_usize, parse_usize_spec, split_chars, trim_colons, trim_end_colons, words,
    words_view,
};

verus! {

/// Picks field snapshots out of a stream of game lines: a header
/// `Anfield <width> <height>:` sets the size, and the rows that follow, each
/// a three-digit row number, a space and the cells, make up the grid.
pub struct GridParser {
    width: usize,
    height: usize,
    grid: Vec<Vec<char>>,
}

/// The header that announces a field.
pub open spec fn header_prefix() -> Seq<char> {
    seq!['A', 'n', 'f', 'i', 'e', 'l', 'd', ' ']
}

/// `line` starts a field header.
pub open spec fn is_header(line: Seq<char>) -> bool {
    line.len() >= 8 && line.take(8) == header_prefix()
}

/// The number that `t` writes, or 0.
pub open spec fn number_or_zero(t: Seq<char>) -> usize {
    match parse_usize_spec(t) {
        Some(v) => v,
        None => 0,
    }
}

/// `line` is a row of a field: three ASCII digits, a space, and at least
/// one more character.
pub open spec fn is_grid_row(line: Seq<char>) -> bool {
    &&& line.len() > 4
    &&& '0' <= line[0] <= '9'
    &&& '0' <= line[1] <= '9'
    &&& '0' <= line[2] <= '9'
    &&& line[3] == ' '
}

impl View for GridParser {
    type V = (usize, usize, Seq<Seq<char>>);

    closed spec fn view(&self) -> (usize, usize, Seq<Seq<char>>) {
        (self.width, self.height, words_view(self.grid@))
    }
}

/// What reading `line` in state `s` does: the next state, and the finished
/// grid, if the line completes one.
pub open spec fn next_state(s: (usize, usize, Seq<Seq<char>>), line: Seq<char>) -> (
    (usize, usize, Seq<Seq<char>>),
    Option<(usize, usize, Seq<Seq<char>>)>,
) {
    let (w, h, grid) = s;
    if is_header(line) {
        let parts = words(trim_end_colons(line));
        if parts.len() >= 3 {
            ((number_or_zero(parts[1]), number_or_zero(parts[2]), seq![]), None)
        } else {
            (s, None)
        }
    } else if w > 0 && h > 0 && is_grid_row(line) && line.len() - 4 >= w {
        let g = grid.push(line.skip(4).take(w as int));
        if g.len() == h {
            ((w, h, seq![]), Some((w, h, g)))
        } else {
            ((w, h, g), None)
        }
    } else {
        (s, None)
    }
}

impl GridParser {
    pub fn new() -> (r: Self)
        ensures
            r@ == (0usize, 0usize, Seq::<Seq<char>>::empty()),
    {
        let r = Self { width: 0, height: 0, grid: Vec::new() };
        assert(words_view(r.grid@) =~= Seq::<Seq<char>>::empty());
        r
    }

    /// Reads one line; returns the width, height and rows of a field when
    /// the line is the last row of one.
    pub fn process_line(&mut self, line: &str) -> (r: Option<(usize, usize, Vec<Vec<char>>)>)
        ensures
            final(self)@ == next_state(old(self)@, line@).0,
            r matches Some((w, h, g)) ==> next_state(old(self)@, line@).1 == Some((w, h, words_view(g@))),
            r is None ==> next_state(old(self)@, line@).1 is None,
    {
        if Self::starts_with_header(line) {
            self.parse_header(line);
        } else if self.width > 0 && self.height > 0 {
            if let Some(grid_data) = self.try_parse_grid_row(line) {
                return Some(grid_data);
            }
        }
        None
    }

    fn starts_with_header(line: &str) -> (r: bool)
        ensures
            r == is_header(line@),
    {
        let n = line.unicode_len();
        if n < 8 {
            return false;
        }
        let r = line.get_char(0) == 'A' && line.get_char(1) == 'n' && line.get_char(2) == 'f'
            && line.get_char(3) == 'i' && line.get_char(4) == 'e' && line.get_char(5) == 'l'
            && line.get_char(6) == 'd' && line.get_char(7) == ' ';
        assert(r == (line@.take(8) =~= header_prefix()));
        r
    }

    fn parse_header(&mut self, line: &str)
        requires
            is_header(line@),
        ensures
            final(self)@ == next_state(old(self)@, line@).0,
    {
        let chars = chars_of(line);
        let trimmed = trim_colons(&chars);
        let parts = split_chars(&trimmed);
        if parts.len() >= 3 {
            assert(parts@[1]@ == words(trim_end_colons(line@))[1]);
            assert(parts@[2]@ == words(trim_end_colons(line@))[2]);
            self.width = match parse_usize(&parts[1]) {
                Ok(v) => v,
                Err(_) => 0,
            };
            self.height = match parse_usize(&parts[2]) {
                Ok(v) => v,
                Err(_) => 0,
            };
            self.grid.clear();
            assert(words_view(self.grid@) =~= Seq::<Seq<char>>::empty());
        }
    }

    fn try_parse_grid_row(&mut self, line: &str) -> (r: Option<(usize, usize, Vec<Vec<char>>)>)
        requires
            !is_header(line@),
            old(self).width > 0,
            old(self).height > 0,
        ensures
            final(self)@ == next_state(old(self)@, line@).0,
            r matches Some((w, h, g)) ==> next_state(old(self)@, line@).1 == Some((w, h, words_view(g@))),
            r is None ==> next_state(old(self)@, line@).1 is None,
    {
        let n = line.unicode_len();
        if n <= 4 {
            return None;
        }
        if !Self::is_grid_data_line(line) {
            return None;
        }
        if n - 4 >= self.width {
            let mut row: Vec<char> = Vec::new();
            let mut i: usize = 0;
            while i < self.width
                invariant
                    n == line@.len(),
                    n - 4 >= self.width,
                    i <= self.width,
                    row@ == line@.skip(4).take(i as int),
                decreases self.width - i,
            {
                row.push(line.get_char(4 + i));
                i = i + 1;
                assert(row@ =~= line@.skip(4).take(i as int));
            }
            let ghost g0 = self.grid@;
            self.grid.push(row);
            assert(words_view(self.grid@) =~= words_view(g0).push(line@.skip(4).take(self.width as int)));
            if self.grid.len() == self.height {
                let mut done: Vec<Vec<char>> = Vec::new();
                std::mem::swap(&mut self.grid, &mut done);
                assert(words_view(self.grid@) =~= Seq::<Seq<char>>::empty());
                return Some((self.width, self.height, done));
            }
        }
        None
    }

    /// `line` starts with three ASCII digits and a space.
    fn is_grid_data_line(line: &str) -> (r: bool)
        requires
            line@.len() > 4,
        ensures
            r == is_grid_row(line@),
    {
        let a = line.get_char(0);
        let b = line.get_char(1);
        let c = line.get_char(2);
        let d = line.get_char(3);
        ('0' <= a && a <= '9') && ('0' <= b && b <= '9') && ('0' <= c && c <= '9') && d == ' '
    }
}

} // verus!
