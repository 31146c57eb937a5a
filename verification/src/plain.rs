//! A small terminal emulator, which turns what is written to a terminal into text.
use vstd::prelude::*;
use vstd::utf8::{decode_utf8, encode_scalar, encode_utf8, valid_utf8};

use crate::inputs::{is_white, number_of, parse_number, trim_back, white};
use crate::text::{join, joined, split, split_on, substring, texts};

verus! {

/// What a terminal shows, where its cursor is, and whether the next character wraps.
pub struct TermModel {
    pub grid: Seq<Seq<char>>,
    pub rows: int,
    pub cols: int,
    pub row: int,
    pub col: int,
    pub wrap: bool,
}

/// The smaller of a position and the last of `n`.
pub open spec fn within(at: int, n: int) -> int {
    let last = if n > 0 {
        n - 1
    } else {
        0
    };
    if at < last {
        at
    } else {
        last
    }
}

/// A position moved back, but not before the first.
pub open spec fn back(at: int, n: int) -> int {
    if at > n {
        at - n
    } else {
        0
    }
}

/// Which part of the screen is erased.
#[derive(Clone, Copy, Debug, PartialEq, Eq, Structural)]
pub enum Erase {
    Screen,
    ToScreenEnd,
    ToScreenStart,
    Line,
    ToLineEnd,
    ToLineStart,
}

impl Erase {
    /// Whether a cell is erased when the cursor is at (`row`, `col`).
    pub open spec fn covers(self, row: int, col: int, r: int, c: int) -> bool {
        match self {
            Erase::Screen => true,
            Erase::ToScreenEnd => r > row || (r == row && c >= col),
            Erase::ToScreenStart => r < row || (r == row && c <= col),
            Erase::Line => r == row,
            Erase::ToLineEnd => r == row && c >= col,
            Erase::ToLineStart => r == row && c <= col,
        }
    }

    fn hits(self, row: usize, col: usize, r: usize, c: usize) -> (b: bool)
        ensures
            b == self.covers(row as int, col as int, r as int, c as int),
    {
        match self {
            Erase::Screen => true,
            Erase::ToScreenEnd => r > row || (r == row && c >= col),
            Erase::ToScreenStart => r < row || (r == row && c <= col),
            Erase::Line => r == row,
            Erase::ToLineEnd => r == row && c >= col,
            Erase::ToLineStart => r == row && c <= col,
        }
    }
}

impl TermModel {
    /// A part of the screen erased.
    pub open spec fn erased(self, part: Erase) -> TermModel {
        TermModel {
            grid: Seq::new(
                self.rows as nat,
                |r: int|
                    Seq::new(
                        self.cols as nat,
                        |c: int|
                            if part.covers(self.row, self.col, r, c) {
                                ' '
                            } else {
                                self.grid[r][c]
                            },
                    ),
            ),
            ..self
        }
    }

    /// The cursor moved; no wrap is pending.
    pub open spec fn moved(self, row: int, col: int) -> TermModel {
        TermModel { row, col, wrap: false, ..self }
    }

    /// A control sequence carried out. Its numbers count from 1 for positions.
    pub open spec fn controlled(self, code: char, params: Seq<usize>) -> TermModel {
        let p0 = if params.len() > 0 {
            Some(params[0] as int)
        } else {
            None
        };
        let step = match p0 {
            Some(n) => n,
            None => 1,
        };
        let second = if params.len() > 1 {
            params[1] as int
        } else {
            1
        };
        let what = match p0 {
            Some(n) => n,
            None => 0,
        };
        if code == 'H' || code == 'f' {
            self.moved(within(back(step, 1), self.rows), within(back(second, 1), self.cols))
        } else if code == 'A' {
            self.moved(back(self.row, step), self.col)
        } else if code == 'B' {
            self.moved(within(self.row + step, self.rows), self.col)
        } else if code == 'C' {
            self.moved(self.row, within(self.col + step, self.cols))
        } else if code == 'D' {
            self.moved(self.row, back(self.col, step))
        } else if code == 'G' {
            self.moved(self.row, within(back(step, 1), self.cols))
        } else if code == 'J' {
            self.erased(
                if what == 2 || what == 3 {
                    Erase::Screen
                } else if what == 1 {
                    Erase::ToScreenStart
                } else {
                    Erase::ToScreenEnd
                },
            ).moved(self.row, self.col)
        } else if code == 'K' {
            self.erased(
                if what == 2 {
                    Erase::Line
                } else if what == 1 {
                    Erase::ToLineStart
                } else {
                    Erase::ToLineEnd
                },
            ).moved(self.row, self.col)
        } else if code == 'm' {
            self
        } else {
            self.moved(self.row, self.col)
        }
    }

    /// A character put at the cursor.
    pub open spec fn put(self, c: char) -> TermModel {
        let grid = if self.row < self.rows && self.col < self.cols {
            self.grid.update(self.row, self.grid[self.row].update(self.col, c))
        } else {
            self.grid
        };
        if self.col + 1 >= self.cols {
            TermModel { grid, wrap: true, ..self }
        } else {
            TermModel { grid, col: self.col + 1, wrap: false, ..self }
        }
    }

    /// A character outside control sequences.
    pub open spec fn typed(self, c: char) -> TermModel {
        if c == '\r' {
            self.moved(self.row, 0)
        } else if c == '\n' {
            self.moved(within(self.row + 1, self.rows), self.col)
        } else if c == '\t' {
            self.moved(self.row, within((self.col / 8 + 1) * 8, self.cols))
        } else if c == '\u{8}' {
            self.moved(self.row, back(self.col, 1))
        } else if c >= ' ' {
            if self.wrap {
                self.moved(within(self.row + 1, self.rows), 0).put(c)
            } else {
                self.put(c)
            }
        } else {
            self
        }
    }

    /// Every cell is there.
    pub open spec fn wf(self) -> bool {
        &&& self.grid.len() == self.rows
        &&& forall|r: int| 0 <= r < self.rows ==> (#[trigger] self.grid[r]).len() == self.cols
    }
}

/// An empty screen.
pub open spec fn empty_screen(cols: int, rows: int) -> TermModel {
    TermModel {
        grid: Seq::new(rows as nat, |r: int| Seq::new(cols as nat, |c: int| ' ')),
        rows,
        cols,
        row: 0,
        col: 0,
        wrap: false,
    }
}

pub open spec fn is_letter(c: char) -> bool {
    ('A' <= c && c <= 'Z') || ('a' <= c && c <= 'z')
}

/// The first letter from the `i`-th character on, or the length.
pub open spec fn letter_from(s: Seq<char>, i: int) -> int
    decreases s.len() - i,
{
    if i >= s.len() || is_letter(s[i]) {
        i
    } else {
        letter_from(s, i + 1)
    }
}

/// The whole numbers among some texts.
pub open spec fn numbers_in(parts: Seq<Seq<char>>) -> Seq<usize>
    decreases parts.len(),
{
    if parts.len() == 0 {
        Seq::empty()
    } else {
        match number_of(parts.last()) {
            Some(n) => numbers_in(parts.drop_last()).push(n),
            None => numbers_in(parts.drop_last()),
        }
    }
}

/// What a terminal shows after the characters from the `i`-th on. Only control
/// sequences that begin with `ESC [` and not with `ESC [ ?` are carried out.
pub open spec fn after_text(t: TermModel, s: Seq<char>, i: int) -> TermModel
    decreases
            if i < s.len() {
                s.len() - i
            } else {
                0
            },
{
    proof {
        lemma_letter_from(s, i + 2);
    }
    if i >= s.len() {
        t
    } else if s[i] != '\u{1b}' {
        after_text(t.typed(s[i]), s, i + 1)
    } else if i + 1 < s.len() && s[i + 1] == '[' {
        let j = letter_from(s, i + 2);
        if j >= s.len() {
            t
        } else if s[i + 2] == '?' {
            after_text(t, s, j + 1)
        } else {
            after_text(
                t.controlled(s[j], numbers_in(split(s.subrange(i + 2, j), ';'))),
                s,
                j + 1,
            )
        }
    } else {
        after_text(t, s, i + 2)
    }
}

pub proof fn lemma_letter_from(s: Seq<char>, i: int)
    ensures
        letter_from(s, i) >= i,
        i <= s.len() ==> letter_from(s, i) <= s.len(),
    decreases s.len() - i,
{
    if i < s.len() && !is_letter(s[i]) {
        lemma_letter_from(s, i + 1);
    }
}

/// The lines of a screen without the white space at their ends.
pub open spec fn trimmed_lines(grid: Seq<Seq<char>>) -> Seq<Seq<char>> {
    grid.map_values(|line: Seq<char>| trim_back(line))
}

/// The lines up to the last that is not empty.
pub open spec fn without_empty_end(lines: Seq<Seq<char>>) -> Seq<Seq<char>>
    decreases lines.len(),
{
    if lines.len() > 0 && lines.last().len() == 0 {
        without_empty_end(lines.drop_last())
    } else {
        lines
    }
}

/// The lines that a screen of `cols` by `rows` cells shows after a text.
pub open spec fn shown_lines(s: Seq<char>, cols: int, rows: int) -> Seq<Seq<char>> {
    without_empty_end(trimmed_lines(after_text(empty_screen(cols, rows), s, 0).grid))
}

/// What a screen of `cols` by `rows` cells shows after a text, as text.
pub open spec fn shown(s: Seq<char>, cols: int, rows: int) -> Seq<char> {
    join(shown_lines(s, cols, rows), "\n"@)
}

// ---------------------------------------------------------------------------
// The emulator

/// A terminal of a fixed size.
#[derive(Debug)]
struct Emulator {
    grid: Vec<Vec<char>>,
    rows: usize,
    cols: usize,
    row: usize,
    col: usize,
    wrap: bool,
}

spec fn cells(grid: Seq<Vec<char>>) -> Seq<Seq<char>> {
    grid.map_values(|line: Vec<char>| line@)
}

fn clamp_to(at: u128, n: usize) -> (r: usize)
    ensures
        r == within(at as int, n as int),
{
    let last: usize = if n > 0 {
        n - 1
    } else {
        0
    };
    if at < last as u128 {
        at as usize
    } else {
        last
    }
}

fn step_back(at: usize, n: usize) -> (r: usize)
    ensures
        r == back(at as int, n as int),
{
    if at > n {
        at - n
    } else {
        0
    }
}

impl Emulator {
    spec fn model(self) -> TermModel {
        TermModel {
            grid: cells(self.grid@),
            rows: self.rows as int,
            cols: self.cols as int,
            row: self.row as int,
            col: self.col as int,
            wrap: self.wrap,
        }
    }

    fn new(cols: usize, rows: usize) -> (t: Emulator)
        ensures
            t.model() == empty_screen(cols as int, rows as int),
            t.model().wf(),
    {
        let mut grid: Vec<Vec<char>> = Vec::new();
        let mut r: usize = 0;
        let ghost all = empty_screen(cols as int, rows as int).grid;
        while r < rows
            invariant
                r <= rows,
                all == empty_screen(cols as int, rows as int).grid,
                cells(grid@) =~= all.take(r as int),
            decreases rows - r,
        {
            let mut line: Vec<char> = Vec::new();
            let mut c: usize = 0;
            while c < cols
                invariant
                    c <= cols,
                    line@ =~= Seq::new(c as nat, |i: int| ' '),
                decreases cols - c,
            {
                line.push(' ');
                c = c + 1;
            }
            let ghost before = grid@;
            proof {
                assert(all[r as int] =~= line@);
            }
            grid.push(line);
            proof {
                assert(cells(grid@) =~= cells(before).push(line@));
                assert(all.take(r + 1) =~= all.take(r as int).push(all[r as int]));
            }
            r = r + 1;
        }
        let t = Emulator { grid, rows, cols, row: 0, col: 0, wrap: false };
        proof {
            assert(t.model().grid =~= all);
            assert forall|k: int| 0 <= k < rows implies (#[trigger] t.model().grid[k]).len()
                == cols by {
                assert(t.model().grid[k] == all[k]);
            }
        }
        t
    }

    fn move_to(&mut self, row: usize, col: usize)
        ensures
            final(self).model() == old(self).model().moved(row as int, col as int),
            final(self).grid == old(self).grid,
            final(self).rows == old(self).rows,
            final(self).cols == old(self).cols,
    {
        self.row = row;
        self.col = col;
        self.wrap = false;
    }

    fn erase(&mut self, part: Erase)
        requires
            old(self).model().wf(),
        ensures
            final(self).model() == old(self).model().erased(part),
            final(self).model().wf(),
    {
        let ghost m = self.model();
        let ghost all = m.erased(part).grid;
        let mut grid: Vec<Vec<char>> = Vec::new();
        let mut r: usize = 0;
        while r < self.rows
            invariant
                r <= self.rows,
                m == self.model(),
                m.wf(),
                all == m.erased(part).grid,
                cells(grid@) =~= all.take(r as int),
            decreases self.rows - r,
        {
            let mut line: Vec<char> = Vec::new();
            let mut c: usize = 0;
            proof {
                assert(m.grid[r as int] == self.grid@[r as int]@);
            }
            while c < self.cols
                invariant
                    c <= self.cols,
                    r < self.rows,
                    m == self.model(),
                    m.wf(),
                    all == m.erased(part).grid,
                    m.grid[r as int] == self.grid@[r as int]@,
                    self.grid.len() == self.rows,
                    self.grid@[r as int].len() == self.cols,
                    line@ =~= all[r as int].take(c as int),
                decreases self.cols - c,
            {
                if part.hits(self.row, self.col, r, c) {
                    line.push(' ');
                } else {
                    line.push(self.grid[r][c]);
                }
                c = c + 1;
            }
            let ghost before = grid@;
            proof {
                assert(all[r as int] =~= line@);
            }
            grid.push(line);
            proof {
                assert(cells(grid@) =~= cells(before).push(line@));
                assert(all.take(r + 1) =~= all.take(r as int).push(all[r as int]));
            }
            r = r + 1;
        }
        self.grid = grid;
        proof {
            assert(self.model().grid =~= all);
            assert forall|k: int| 0 <= k < self.rows implies (#[trigger] self.model().grid[k]).len()
                == self.cols by {
                assert(self.model().grid[k] == all[k]);
            }
        }
    }

    fn control(&mut self, code: char, params: &Vec<usize>)
        requires
            old(self).model().wf(),
        ensures
            final(self).model() == old(self).model().controlled(code, params@),
            final(self).model().wf(),
    {
        let step: usize = if params.len() > 0 {
            params[0]
        } else {
            1
        };
        let second: usize = if params.len() > 1 {
            params[1]
        } else {
            1
        };
        let what: usize = if params.len() > 0 {
            params[0]
        } else {
            0
        };
        let (row, col) = (self.row, self.col);
        if code == 'H' || code == 'f' {
            self.move_to(
                clamp_to(step_back(step, 1) as u128, self.rows),
                clamp_to(step_back(second, 1) as u128, self.cols),
            );
        } else if code == 'A' {
            self.move_to(step_back(row, step), col);
        } else if code == 'B' {
            self.move_to(clamp_to(row as u128 + step as u128, self.rows), col);
        } else if code == 'C' {
            self.move_to(row, clamp_to(col as u128 + step as u128, self.cols));
        } else if code == 'D' {
            self.move_to(row, step_back(col, step));
        } else if code == 'G' {
            self.move_to(row, clamp_to(step_back(step, 1) as u128, self.cols));
        } else if code == 'J' {
            self.erase(
                if what == 2 || what == 3 {
                    Erase::Screen
                } else if what == 1 {
                    Erase::ToScreenStart
                } else {
                    Erase::ToScreenEnd
                },
            );
            self.move_to(row, col);
        } else if code == 'K' {
            self.erase(
                if what == 2 {
                    Erase::Line
                } else if what == 1 {
                    Erase::ToLineStart
                } else {
                    Erase::ToLineEnd
                },
            );
            self.move_to(row, col);
        } else if code != 'm' {
            self.move_to(row, col);
        }
    }

    fn put(&mut self, c: char)
        requires
            old(self).model().wf(),
        ensures
            final(self).model() == old(self).model().put(c),
            final(self).model().wf(),
    {
        let ghost m = self.model();
        if self.row < self.rows && self.col < self.cols {
            let (r, k) = (self.row, self.col);
            proof {
                assert(m.grid[r as int] == self.grid@[r as int]@);
            }
            let mut line: Vec<char> = Vec::new();
            let mut i: usize = 0;
            while i < self.cols
                invariant
                    i <= self.cols,
                    r < self.rows,
                    k < self.cols,
                    self.grid.len() == self.rows,
                    self.grid@[r as int].len() == self.cols,
                    line@ =~= self.grid@[r as int]@.update(k as int, c).take(i as int),
                decreases self.cols - i,
            {
                if i == k {
                    line.push(c);
                } else {
                    line.push(self.grid[r][i]);
                }
                i = i + 1;
            }
            proof {
                assert(line@ =~= self.grid@[r as int]@.update(k as int, c));
            }
            self.grid.set(r, line);
            proof {
                assert(self.model().grid =~= m.put(c).grid);
            }
        }
        if self.cols == 0 || self.col >= self.cols - 1 {
            self.wrap = true;
        } else {
            self.col = self.col + 1;
            self.wrap = false;
        }
        proof {
            assert forall|j: int| 0 <= j < self.rows implies (#[trigger] self.model().grid[j]).len()
                == self.cols by {
                assert(m.grid[j].len() == m.cols);
            }
        }
    }

    fn write(&mut self, c: char)
        requires
            old(self).model().wf(),
        ensures
            final(self).model() == old(self).model().typed(c),
            final(self).model().wf(),
    {
        let (row, col) = (self.row, self.col);
        if c == '\r' {
            self.move_to(row, 0);
        } else if c == '\n' {
            self.move_to(clamp_to(row as u128 + 1, self.rows), col);
        } else if c == '\t' {
            self.move_to(row, clamp_to((col as u128 / 8 + 1) * 8, self.cols));
        } else if c == '\u{8}' {
            self.move_to(row, step_back(col, 1));
        } else if c >= ' ' {
            if self.wrap {
                self.move_to(clamp_to(row as u128 + 1, self.rows), 0);
            }
            self.put(c);
        }
    }
}

fn read_params(v: &Vec<char>, from: usize, to: usize) -> (r: Vec<usize>)
    requires
        from <= to <= v.len(),
    ensures
        r@ == numbers_in(split(v@.subrange(from as int, to as int), ';')),
{
    let ghost s = v@.subrange(from as int, to as int);
    let mut part: Vec<char> = Vec::new();
    let mut i: usize = from;
    while i < to
        invariant
            from <= i <= to <= v.len(),
            part@ =~= v@.subrange(from as int, i as int),
        decreases to - i,
    {
        part.push(v[i]);
        i = i + 1;
    }
    let parts = split_on(&part, ';');
    let ghost all = texts(parts@);
    let mut r: Vec<usize> = Vec::new();
    let mut k: usize = 0;
    while k < parts.len()
        invariant
            k <= parts.len(),
            all == texts(parts@),
            r@ == numbers_in(all.take(k as int)),
        decreases parts.len() - k,
    {
        proof {
            assert(all.take(k + 1).drop_last() =~= all.take(k as int));
            assert(all.take(k + 1).last() == parts@[k as int]@);
        }
        if let Some(n) = parse_number(parts[k].as_str()) {
            r.push(n);
        }
        k = k + 1;
    }
    proof {
        assert(all.take(k as int) =~= all);
    }
    r
}

fn find_letter(v: &Vec<char>, from: usize) -> (r: usize)
    requires
        from <= v.len(),
    ensures
        r == letter_from(v@, from as int),
        from <= r <= v.len(),
{
    let mut i: usize = from;
    while i < v.len() && !(('A' <= v[i] && v[i] <= 'Z') || ('a' <= v[i] && v[i] <= 'z'))
        invariant
            from <= i <= v.len(),
            letter_from(v@, i as int) == letter_from(v@, from as int),
        decreases v.len() - i,
    {
        i = i + 1;
    }
    i
}

fn trim_line(line: &Vec<char>) -> (r: String)
    ensures
        r@ == trim_back(line@),
{
    let mut n: usize = line.len();
    proof {
        assert(line@.take(n as int) =~= line@);
    }
    while n > 0 && white(line[n - 1])
        invariant
            n <= line.len(),
            trim_back(line@.take(n as int)) == trim_back(line@),
        decreases n,
    {
        proof {
            assert(line@.take(n as int).drop_last() =~= line@.take(n - 1));
            assert(line@.take(n as int).last() == line@[n - 1]);
        }
        n = n - 1;
    }
    proof {
        assert(line@.subrange(0, n as int) =~= line@.take(n as int));
        if n > 0 {
            assert(line@.take(n as int).last() == line@[n - 1]);
        }
    }
    substring(line, 0, n)
}

/// Leave out the empty lines at the end.
pub fn drop_empty_end(lines: &mut Vec<String>)
    ensures
        texts(final(lines)@) == without_empty_end(texts(old(lines)@)),
{
    while lines.len() > 0 && lines[lines.len() - 1].as_str().unicode_len() == 0
        invariant
            without_empty_end(texts(lines@)) == without_empty_end(texts(old(lines)@)),
        decreases lines.len(),
    {
        let ghost before = lines@;
        proof {
            assert(texts(before).last() == before.last()@);
            assert(texts(before).drop_last() =~= texts(before.drop_last()));
        }
        let _ = lines.pop();
    }
    proof {
        if lines.len() > 0 {
            assert(texts(lines@).last() == lines@.last()@);
        }
    }
}

/// What a terminal of `cols` by `rows` cells shows after some characters, as text: one
/// line for each row, without the blanks at its end and without the empty rows at the
/// end. Colours are ignored.
pub fn render_chars(v: &Vec<char>, cols: usize, rows: usize) -> (r: String)
    ensures
        r@ == shown(v@, cols as int, rows as int),
{
    let mut t = Emulator::new(cols, rows);
    let ghost done = after_text(empty_screen(cols as int, rows as int), v@, 0);
    let mut i: usize = 0;
    while i < v.len()
        invariant
            t.model().wf(),
            after_text(t.model(), v@, i as int) == done,
        decreases v.len() - i,
    {
        let c = v[i];
        if c != '\u{1b}' {
            t.write(c);
            i = i + 1;
        } else if i + 1 < v.len() && v[i + 1] == '[' {
            let j = find_letter(v, i + 2);
            if j >= v.len() {
                i = v.len();
            } else {
                if v[i + 2] != '?' {
                    let params = read_params(v, i + 2, j);
                    t.control(v[j], &params);
                }
                i = j + 1;
            }
        } else if i + 1 < v.len() {
            i = i + 2;
        } else {
            proof {
                assert(after_text(t.model(), v@, i + 2) == t.model());
            }
            i = i + 1;
        }
    }
    let ghost grid = cells(t.grid@);
    let mut lines: Vec<String> = Vec::new();
    let mut r: usize = 0;
    while r < t.grid.len()
        invariant
            r <= t.grid.len(),
            grid == cells(t.grid@),
            texts(lines@) =~= trimmed_lines(grid).take(r as int),
        decreases t.grid.len() - r,
    {
        let line = trim_line(&t.grid[r]);
        proof {
            assert(grid[r as int] == t.grid@[r as int]@);
        }
        crate::text::add_line(&mut lines, line);
        r = r + 1;
    }
    proof {
        assert(texts(lines@) =~= trimmed_lines(grid));
    }
    drop_empty_end(&mut lines);
    joined(&lines, "\n")
}

/// The text that bytes hold, as the standard library decodes it; what is not UTF-8 is
/// replaced.
pub uninterp spec fn lossy_text(bytes: Seq<u8>) -> Seq<char>;

/// `String::from_utf8_lossy`: the text of the bytes. It is the decoded text where the
/// bytes are UTF-8.
#[verifier::external_body]
pub(crate) fn decode_lossy(bytes: &[u8]) -> (r: String)
    ensures
        r@ == lossy_text(bytes@),
        valid_utf8(bytes@) ==> r@ == decode_utf8(bytes@),
{
    String::from_utf8_lossy(bytes).into_owned()
}

/// What a terminal of `cols` by `rows` cells shows after some bytes, as text.
pub fn render(bytes: &[u8], cols: usize, rows: usize) -> (r: String)
    ensures
        r@ == shown(lossy_text(bytes@), cols as int, rows as int),
        valid_utf8(bytes@) ==> r@ == shown(decode_utf8(bytes@), cols as int, rows as int),
{
    let text = decode_lossy(bytes);
    let v = crate::text::chars_of(text.as_str());
    render_chars(&v, cols, rows)
}

// ---------------------------------------------------------------------------
// Laws

/// A control sequence for styling: numbers and what parts them between `ESC [` and `m`.
pub open spec fn is_styling(s: Seq<char>) -> bool {
    &&& s.len() >= 3
    &&& s[0] == '\u{1b}'
    &&& s[1] == '['
    &&& s.last() == 'm'
    &&& forall|i: int| 2 <= i < s.len() - 1 ==> !is_letter(#[trigger] s[i])
}

proof fn lemma_letter_later(s: Seq<char>, k: int, i: int)
    requires
        0 <= k <= s.len(),
        i >= 0,
    ensures
        letter_from(s, i + k) == letter_from(s.skip(k), i) + k,
    decreases s.len() - k - i,
{
    if i + k < s.len() {
        assert(s.skip(k)[i] == s[i + k]);
        if !is_letter(s[i + k]) {
            lemma_letter_later(s, k, i + 1);
        }
    }
}

/// What stands before the `k`-th character does not matter from there on.
proof fn lemma_later(t: TermModel, s: Seq<char>, k: int, i: int)
    requires
        0 <= k <= s.len(),
        i >= 0,
    ensures
        after_text(t, s, i + k) == after_text(t, s.skip(k), i),
    decreases
            if i + k < s.len() {
                s.len() - i - k
            } else {
                0
            },
{
    let u = s.skip(k);
    let at = i + k;
    lemma_letter_from(s, at + 2);
    lemma_letter_later(s, k, i + 2);
    if at < s.len() {
        assert(u[i] == s[at]);
        if s[at] != '\u{1b}' {
            lemma_later(t.typed(s[at]), s, k, i + 1);
        } else if at + 1 < s.len() && s[at + 1] == '[' {
            assert(u[i + 1] == s[at + 1]);
            let j = letter_from(s, at + 2);
            if j < s.len() {
                assert(u[i + 2] == s[at + 2]);
                assert(u[j - k] == s[j]);
                assert(u.subrange(i + 2, j - k) =~= s.subrange(at + 2, j));
                if s[at + 2] == '?' {
                    lemma_later(t, s, k, j + 1 - k);
                } else {
                    let next = t.controlled(s[j], numbers_in(split(s.subrange(at + 2, j), ';')));
                    lemma_later(next, s, k, j + 1 - k);
                }
            }
        } else {
            if at + 1 < s.len() {
                assert(u[i + 1] == s[at + 1]);
            }
            lemma_later(t, s, k, i + 2);
        }
    }
}

/// What a terminal shows after characters none of which begins a control sequence.
spec fn after_plain(t: TermModel, s: Seq<char>) -> TermModel
    decreases s.len(),
{
    if s.len() == 0 {
        t
    } else {
        after_plain(t.typed(s[0]), s.skip(1))
    }
}

proof fn lemma_plain_then(t: TermModel, a: Seq<char>, x: Seq<char>)
    requires
        forall|i: int| 0 <= i < a.len() ==> #[trigger] a[i] != '\u{1b}',
    ensures
        after_text(t, a + x, 0) == after_text(after_plain(t, a), x, 0),
    decreases a.len(),
{
    if a.len() == 0 {
        assert(a + x =~= x);
    } else {
        let rest = a.skip(1);
        assert((a + x)[0] == a[0]);
        assert((a + x).skip(1) =~= rest + x);
        assert forall|i: int| 0 <= i < rest.len() implies #[trigger] rest[i] != '\u{1b}' by {
            assert(rest[i] == a[i + 1]);
        }
        lemma_later(t.typed(a[0]), a + x, 1, 0);
        lemma_plain_then(t.typed(a[0]), rest, x);
    }
}

proof fn lemma_styling_letter(style: Seq<char>, x: Seq<char>, i: int)
    requires
        is_styling(style),
        2 <= i < style.len(),
    ensures
        letter_from(style + x, i) == style.len() - 1,
    decreases style.len() - i,
{
    let s = style + x;
    assert(s[i] == style[i]);
    if i < style.len() - 1 {
        lemma_styling_letter(style, x, i + 1);
    } else {
        assert(style[i] == style.last());
    }
}

/// Styling is ignored, also where a wrap is pending: a text with a control sequence for
/// styling in it is shown as the text without it. What stands before the sequence begins
/// no other one.
pub proof fn law_styling_is_ignored(
    a: Seq<char>,
    style: Seq<char>,
    b: Seq<char>,
    cols: int,
    rows: int,
)
    requires
        is_styling(style),
        forall|i: int| 0 <= i < a.len() ==> #[trigger] a[i] != '\u{1b}',
    ensures
        shown_lines(a + style + b, cols, rows) == shown_lines(a + b, cols, rows),
        shown(a + style + b, cols, rows) == shown(a + b, cols, rows),
{
    let start = empty_screen(cols, rows);
    let t = after_plain(start, a);
    let x = style + b;
    let n = style.len() as int;
    assert(a + style + b =~= a + x);
    lemma_plain_then(start, a, x);
    lemma_plain_then(start, a, b);
    lemma_styling_letter(style, b, 2);
    assert(x[0] == style[0] && x[1] == style[1] && x[n - 1] == style.last());
    assert(after_text(t, x, 0) == after_text(t, x, n));
    lemma_later(t, x, n, 0);
    assert(x.skip(n) =~= b);
}

proof fn lemma_encode_joins(a: Seq<char>, b: Seq<char>)
    ensures
        encode_utf8(a + b) == encode_utf8(a) + encode_utf8(b),
    decreases a.len(),
{
    if a.len() == 0 {
        assert(a + b =~= b);
        assert(encode_utf8(a) + encode_utf8(b) =~= encode_utf8(b));
    } else {
        let all = a + b;
        assert(all[0] == a[0]);
        assert(all.drop_first() =~= a.drop_first() + b);
        lemma_encode_joins(a.drop_first(), b);
        assert(encode_scalar(a[0] as u32) + (encode_utf8(a.drop_first()) + encode_utf8(b))
            =~= encode_utf8(a) + encode_utf8(b));
    }
}

/// The bytes of a text with styling in it hold what the bytes without it hold, with the
/// styling between.
pub proof fn law_styled_bytes(a: Seq<u8>, style: Seq<char>, b: Seq<u8>)
    requires
        valid_utf8(a),
        valid_utf8(b),
    ensures
        valid_utf8(a + encode_utf8(style) + b),
        decode_utf8(a + encode_utf8(style) + b) == decode_utf8(a) + style + decode_utf8(b),
        valid_utf8(a + b),
        decode_utf8(a + b) == decode_utf8(a) + decode_utf8(b),
{
    broadcast use {
        vstd::utf8::decode_utf8_encode_utf8,
        vstd::utf8::encode_utf8_decode_utf8,
        vstd::utf8::encode_utf8_valid_utf8,
    };

    let (x, y) = (decode_utf8(a), decode_utf8(b));
    assert(encode_utf8(x) == a && encode_utf8(y) == b);
    lemma_encode_joins(x, style);
    lemma_encode_joins(x + style, y);
    lemma_encode_joins(x, y);
    assert(encode_utf8(x + style + y) == a + encode_utf8(style) + b);
    assert(decode_utf8(encode_utf8(x + style + y)) == x + style + y);
    assert(decode_utf8(encode_utf8(x + y)) == x + y);
}

impl TermModel {
    /// The cursor is on the screen, or at its origin where the screen is empty.
    pub open spec fn on_screen(self) -> bool {
        &&& self.wf()
        &&& self.rows >= 0
        &&& self.cols >= 0
        &&& 0 <= self.row <= within(self.rows, self.rows)
        &&& 0 <= self.col <= within(self.cols, self.cols)
    }
}

/// Whatever is written, the screen keeps its size and the cursor stays on it.
pub proof fn law_cursor_stays_on_screen(t: TermModel, s: Seq<char>, i: int)
    requires
        t.on_screen(),
        i >= 0,
    ensures
        after_text(t, s, i).on_screen(),
        after_text(t, s, i).rows == t.rows,
        after_text(t, s, i).cols == t.cols,
    decreases
            if i < s.len() {
                s.len() - i
            } else {
                0
            },
{
    lemma_letter_from(s, i + 2);
    if i < s.len() {
        if s[i] != '\u{1b}' {
            law_cursor_stays_on_screen(t.typed(s[i]), s, i + 1);
        } else if i + 1 < s.len() && s[i + 1] == '[' {
            let j = letter_from(s, i + 2);
            if j < s.len() {
                if s[i + 2] == '?' {
                    law_cursor_stays_on_screen(t, s, j + 1);
                } else {
                    let next = t.controlled(s[j], numbers_in(split(s.subrange(i + 2, j), ';')));
                    law_cursor_stays_on_screen(next, s, j + 1);
                }
            }
        } else {
            law_cursor_stays_on_screen(t, s, i + 2);
        }
    }
}

impl TermModel {
    /// No cell holds a control character.
    spec fn printable(self) -> bool {
        forall|r: int, c: int|
            0 <= r < self.rows && 0 <= c < self.cols ==> #[trigger] self.grid[r][c] >= ' '
    }
}

proof fn lemma_stays_printable(t: TermModel, s: Seq<char>, i: int)
    requires
        t.on_screen(),
        t.printable(),
        i >= 0,
    ensures
        after_text(t, s, i).printable(),
    decreases
            if i < s.len() {
                s.len() - i
            } else {
                0
            },
{
    lemma_letter_from(s, i + 2);
    if i < s.len() {
        if s[i] != '\u{1b}' {
            assert(t.typed(s[i]).printable());
            lemma_stays_printable(t.typed(s[i]), s, i + 1);
        } else if i + 1 < s.len() && s[i + 1] == '[' {
            let j = letter_from(s, i + 2);
            if j < s.len() {
                if s[i + 2] == '?' {
                    lemma_stays_printable(t, s, j + 1);
                } else {
                    let next = t.controlled(s[j], numbers_in(split(s.subrange(i + 2, j), ';')));
                    assert(next.printable());
                    lemma_stays_printable(next, s, j + 1);
                }
            }
        } else {
            lemma_stays_printable(t, s, i + 2);
        }
    }
}

proof fn lemma_trim_back(s: Seq<char>)
    ensures
        trim_back(s).len() <= s.len(),
        trim_back(s) == s.take(trim_back(s).len() as int),
        trim_back(s).len() > 0 ==> !is_white(trim_back(s).last()),
    decreases s.len(),
{
    if s.len() > 0 && is_white(s.last()) {
        lemma_trim_back(s.drop_last());
        let n = trim_back(s).len() as int;
        assert(s.drop_last().take(n) =~= s.take(n));
    } else {
        assert(s.take(s.len() as int) =~= s);
    }
}

proof fn lemma_without_empty_end(lines: Seq<Seq<char>>)
    ensures
        without_empty_end(lines).len() <= lines.len(),
        without_empty_end(lines) == lines.take(without_empty_end(lines).len() as int),
        without_empty_end(lines).len() > 0 ==> without_empty_end(lines).last().len() > 0,
    decreases lines.len(),
{
    if lines.len() > 0 && lines.last().len() == 0 {
        lemma_without_empty_end(lines.drop_last());
        let n = without_empty_end(lines).len() as int;
        assert(lines.drop_last().take(n) =~= lines.take(n));
    } else {
        assert(lines.take(lines.len() as int) =~= lines);
    }
}

/// Whatever is written, at most `rows` lines of at most `cols` characters are shown. None
/// ends in a blank or holds a line break, and the last one is not empty.
pub proof fn law_screen_bounds_the_text(s: Seq<char>, cols: int, rows: int)
    requires
        cols >= 0,
        rows >= 0,
    ensures
        shown_lines(s, cols, rows).len() <= rows,
        forall|i: int|
            0 <= i < shown_lines(s, cols, rows).len() ==> (#[trigger] shown_lines(
                s,
                cols,
                rows,
            )[i]).len() <= cols,
        forall|i: int|
            0 <= i < shown_lines(s, cols, rows).len() && (#[trigger] shown_lines(
                s,
                cols,
                rows,
            )[i]).len() > 0 ==> !is_white(shown_lines(s, cols, rows)[i].last()),
        forall|i: int, c: int|
            0 <= i < shown_lines(s, cols, rows).len() && 0 <= c < shown_lines(
                s,
                cols,
                rows,
            )[i].len() ==> #[trigger] shown_lines(s, cols, rows)[i][c] >= ' ',
        shown_lines(s, cols, rows).len() > 0 ==> shown_lines(s, cols, rows).last().len() > 0,
{
    let start = empty_screen(cols, rows);
    let t = after_text(start, s, 0);
    law_cursor_stays_on_screen(start, s, 0);
    lemma_stays_printable(start, s, 0);
    let all = trimmed_lines(t.grid);
    let lines = shown_lines(s, cols, rows);
    lemma_without_empty_end(all);
    assert forall|i: int| 0 <= i < lines.len() implies (#[trigger] lines[i]).len() <= cols && (
    lines[i].len() > 0 ==> !is_white(lines[i].last())) by {
        assert(lines[i] == trim_back(t.grid[i]));
        lemma_trim_back(t.grid[i]);
    }
    assert forall|i: int, c: int|
        0 <= i < lines.len() && 0 <= c < lines[i].len() implies #[trigger] lines[i][c] >= ' ' by {
        assert(lines[i] == trim_back(t.grid[i]));
        lemma_trim_back(t.grid[i]);
        assert(lines[i][c] == t.grid[i][c]);
    }
}

// ---------------------------------------------------------------------------
// The size of the screen

/// The size of the screen that is drawn: forced, or that of the terminal.
#[derive(Clone, Copy, Debug)]
pub struct Sizing {
    forced: Option<(u16, u16)>,
}

impl Sizing {
    /// The columns and rows that were forced.
    pub closed spec fn forced(self) -> Option<(u16, u16)> {
        self.forced
    }

    /// No size is forced.
    pub fn new() -> (s: Sizing)
        ensures
            s.forced() is None,
    {
        Sizing { forced: None }
    }

    /// Force a size. No columns and no rows lift the force.
    pub fn force_size(&mut self, cols: u16, rows: u16)
        ensures
            final(self).forced() == if cols == 0 && rows == 0 {
                None
            } else {
                Some((cols, rows))
            },
    {
        self.forced = if cols == 0 && rows == 0 {
            None
        } else {
            Some((cols, rows))
        };
    }

    /// The size to draw at: the forced one, else that of the terminal, else 100 by 40.
    pub fn term_size(&self, terminal: Option<(u16, u16)>) -> (r: (u16, u16))
        ensures
            r == match self.forced() {
                Some(size) => size,
                None => match terminal {
                    Some(size) => size,
                    None => (100u16, 40u16),
                },
            },
    {
        match self.forced {
            Some(size) => size,
            None => match terminal {
                Some(size) => size,
                None => (100, 40),
            },
        }
    }
}

// ---------------------------------------------------------------------------
// What is on the screen

/// The screen with the first `n` characters of a line typed.
spec fn line_typed(s: Seq<char>, n: int, cols: int, rows: int) -> TermModel {
    TermModel {
        grid: Seq::new(
            rows as nat,
            |r: int|
                Seq::new(
                    cols as nat,
                    |c: int|
                        if r == 0 && c < n {
                            s[c]
                        } else {
                            ' '
                        },
                ),
        ),
        rows,
        cols,
        row: 0,
        col: if n < cols {
            n
        } else {
            cols - 1
        },
        wrap: n == cols,
    }
}

proof fn lemma_line_typed(s: Seq<char>, n: int, cols: int, rows: int)
    requires
        0 <= n <= s.len() <= cols,
        0 < rows,
        0 < cols,
        forall|i: int| 0 <= i < s.len() ==> #[trigger] s[i] >= ' ',
    ensures
        after_text(line_typed(s, n, cols, rows), s, n) == line_typed(
            s,
            s.len() as int,
            cols,
            rows,
        ),
    decreases s.len() - n,
{
    if n < s.len() {
        let t = line_typed(s, n, cols, rows);
        let u = line_typed(s, n + 1, cols, rows);
        assert(s[n] >= ' ');
        let v = t.typed(s[n]);
        assert(v.grid =~= u.grid) by {
            assert forall|r: int| 0 <= r < rows implies #[trigger] v.grid[r] == u.grid[r] by {
                assert(v.grid[r] =~= u.grid[r]);
            }
        }
        assert(v == u);
        lemma_line_typed(s, n + 1, cols, rows);
    }
}

/// A line of text that fits on the screen, and does not end in white space, is shown as it
/// is.
pub proof fn law_lines_are_shown_as_they_are(s: Seq<char>, cols: int, rows: int)
    requires
        0 < s.len() <= cols,
        0 < rows,
        forall|i: int| 0 <= i < s.len() ==> #[trigger] s[i] >= ' ',
        !is_white(s.last()),
    ensures
        shown_lines(s, cols, rows) == seq![s],
        shown(s, cols, rows) == s,
{
    let t = line_typed(s, s.len() as int, cols, rows);
    assert(line_typed(s, 0, cols, rows).grid =~= empty_screen(cols, rows).grid) by {
        let (a, b) = (line_typed(s, 0, cols, rows).grid, empty_screen(cols, rows).grid);
        assert forall|r: int| 0 <= r < rows implies #[trigger] a[r] == b[r] by {
            assert(a[r] =~= b[r]);
        }
    }
    assert(line_typed(s, 0, cols, rows) == empty_screen(cols, rows));
    lemma_line_typed(s, 0, cols, rows);
    let lines = trimmed_lines(t.grid);
    let first = t.grid[0];
    lemma_trimmed_to(first, s.len() as int);
    assert(first.take(s.len() as int) =~= s);
    assert(lines[0] == s);
    assert forall|r: int| 1 <= r < lines.len() implies (#[trigger] lines[r]).len() == 0 by {
        lemma_trimmed_to(t.grid[r], 0);
    }
    lemma_one_line(lines);
    assert(lines.take(1) =~= seq![s]);
}

proof fn lemma_trimmed_to(line: Seq<char>, n: int)
    requires
        0 <= n <= line.len(),
        forall|i: int| n <= i < line.len() ==> #[trigger] line[i] == ' ',
        n > 0 ==> !is_white(line[n - 1]),
    ensures
        trim_back(line) == line.take(n),
    decreases line.len(),
{
    if n < line.len() {
        let t = line.drop_last();
        assert(line[line.len() - 1] == ' ');
        lemma_trimmed_to(t, n);
        assert(t.take(n) =~= line.take(n));
    } else {
        assert(line.take(n) =~= line);
    }
}

proof fn lemma_one_line(lines: Seq<Seq<char>>)
    requires
        lines.len() >= 1,
        lines[0].len() > 0,
        forall|r: int| 1 <= r < lines.len() ==> (#[trigger] lines[r]).len() == 0,
    ensures
        without_empty_end(lines) == lines.take(1),
    decreases lines.len(),
{
    if lines.len() > 1 {
        assert(lines[lines.len() - 1].len() == 0);
        lemma_one_line(lines.drop_last());
        assert(lines.drop_last().take(1) =~= lines.take(1));
    } else {
        assert(lines.take(1) =~= lines);
    }
}

/// The cursor moves up, down, right and left by as many cells as a sequence says, one where it
/// says nothing, and not past the edges; `H` puts it at a row and a column counted from 1. The
/// text stays.
pub proof fn law_cursor_sequences_move(t: TermModel, n: usize, m: usize)
    requires
        t.on_screen(),
        t.rows > 0,
        t.cols > 0,
        n > 0,
        m > 0,
    ensures
        t.row >= n ==> t.controlled('A', seq![n]).row == t.row - n,
        t.row + n < t.rows ==> t.controlled('B', seq![n]).row == t.row + n,
        t.col + n < t.cols ==> t.controlled('C', seq![n]).col == t.col + n,
        t.col >= n ==> t.controlled('D', seq![n]).col == t.col - n,
        t.row < n ==> t.controlled('A', seq![n]).row == 0,
        t.row + n >= t.rows ==> t.controlled('B', seq![n]).row == t.rows - 1,
        t.controlled('A', seq![n]).col == t.col && t.controlled('B', seq![n]).col == t.col,
        t.controlled('C', seq![n]).row == t.row && t.controlled('D', seq![n]).row == t.row,
        t.controlled('B', Seq::empty()) == t.controlled('B', seq![1]),
        t.controlled('A', Seq::empty()) == t.controlled('A', seq![1]),
        n <= t.rows && m <= t.cols ==> t.controlled('H', seq![n, m]).row == n - 1 && t.controlled(
            'H',
            seq![n, m],
        ).col == m - 1,
        t.controlled('A', seq![n]).grid == t.grid,
        t.controlled('B', seq![n]).grid == t.grid,
        t.controlled('C', seq![n]).grid == t.grid,
        t.controlled('D', seq![n]).grid == t.grid,
        t.controlled('H', seq![n, m]).grid == t.grid,
        t.controlled('m', seq![n]) == t,
{
}

/// `K` empties the line from the cursor on, `J` all that is from the cursor on; with 1 what is
/// up to the cursor, with 2 all of it. The rest stays, and the cursor too.
pub proof fn law_erasing_sequences_erase(t: TermModel, r: int, c: int)
    requires
        t.on_screen(),
        0 <= r < t.rows,
        0 <= c < t.cols,
    ensures
        t.controlled('K', Seq::empty()).grid[r][c] == if r == t.row && c >= t.col {
            ' '
        } else {
            t.grid[r][c]
        },
        t.controlled('K', seq![1]).grid[r][c] == if r == t.row && c <= t.col {
            ' '
        } else {
            t.grid[r][c]
        },
        t.controlled('K', seq![2]).grid[r][c] == if r == t.row {
            ' '
        } else {
            t.grid[r][c]
        },
        t.controlled('J', Seq::empty()).grid[r][c] == if r > t.row || (r == t.row && c >= t.col) {
            ' '
        } else {
            t.grid[r][c]
        },
        t.controlled('J', seq![1]).grid[r][c] == if r < t.row || (r == t.row && c <= t.col) {
            ' '
        } else {
            t.grid[r][c]
        },
        t.controlled('J', seq![2]).grid[r][c] == ' ',
        t.controlled('J', seq![2]).row == t.row && t.controlled('J', seq![2]).col == t.col,
        t.controlled('K', seq![2]).row == t.row && t.controlled('K', seq![2]).col == t.col,
{
}

/// A character is put where the cursor is, and nowhere else; a carriage return goes to the
/// start of the line, a line feed down, a backspace back.
pub proof fn law_characters_go_to_the_cursor(t: TermModel, ch: char, r: int, c: int)
    requires
        t.on_screen(),
        !t.wrap,
        ch >= ' ',
        0 <= r < t.rows,
        0 <= c < t.cols,
    ensures
        t.typed(ch).grid[r][c] == if r == t.row && c == t.col {
            ch
        } else {
            t.grid[r][c]
        },
        t.col + 1 < t.cols ==> t.typed(ch).col == t.col + 1 && t.typed(ch).row == t.row,
        t.typed('\r').col == 0 && t.typed('\r').row == t.row && t.typed('\r').grid == t.grid,
        t.row + 1 < t.rows ==> t.typed('\n').row == t.row + 1 && t.typed('\n').col == t.col,
        t.col > 0 ==> t.typed('\u{8}').col == t.col - 1,
{
    if r == t.row && c == t.col {
        assert(t.grid[t.row].len() == t.cols);
    }
    assert(t.grid[r].len() == t.cols);
    assert(t.grid[t.row].len() == t.cols);
}

} // verus!
