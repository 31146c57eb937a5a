//! Turning the cells of a drawn screen into text.
use vstd::prelude::*;

use crate::plain::{drop_empty_end, without_empty_end};
use crate::text::{add_line, chars_of, join, joined, substring, texts};

verus! {

/// How many columns a text takes on a terminal.
pub uninterp spec fn columns(s: Seq<char>) -> usize;

/// `unicode_width::UnicodeWidthStr::width`: how many columns a text takes on a terminal.
#[verifier::external_body]
fn column_width(s: &str) -> (r: usize)
    ensures
        r == columns(s@),
{
    unicode_width::UnicodeWidthStr::width(s)
}

/// A text without the spaces at its end.
pub open spec fn without_spaces(s: Seq<char>) -> Seq<char>
    decreases s.len(),
{
    if s.len() > 0 && s.last() == ' ' {
        without_spaces(s.drop_last())
    } else {
        s
    }
}

/// The text of the first `n` cells of a row and how many cells are still covered by the
/// last glyph. A glyph that is several columns wide covers the cells behind it, and they
/// add nothing.
pub open spec fn row_read(symbols: Seq<Seq<char>>, widths: Seq<usize>, n: int) -> (Seq<char>, int)
    decreases n,
{
    if n <= 0 {
        (Seq::empty(), 0)
    } else {
        let (line, covered) = row_read(symbols, widths, n - 1);
        let w = widths[n - 1] as int;
        let reach = if covered > w {
            covered
        } else {
            w
        };
        (
            if covered == 0 {
                line + symbols[n - 1]
            } else {
                line
            },
            if reach > 0 {
                reach - 1
            } else {
                0
            },
        )
    }
}

/// The rows of a screen of `width` by `height` cells.
pub open spec fn rows_read(
    symbols: Seq<Seq<char>>,
    widths: Seq<usize>,
    width: int,
    height: int,
) -> Seq<Seq<char>> {
    Seq::new(
        height as nat,
        |r: int|
            without_spaces(
                row_read(
                    symbols.subrange(r * width, (r + 1) * width),
                    widths.subrange(r * width, (r + 1) * width),
                    width,
                ).0,
            ),
    )
}

/// The widths of some texts.
pub open spec fn all_columns(symbols: Seq<Seq<char>>) -> Seq<usize> {
    symbols.map_values(|s: Seq<char>| columns(s))
}

fn strip_spaces(line: &str) -> (r: String)
    ensures
        r@ == without_spaces(line@),
{
    let v = chars_of(line);
    let mut n: usize = v.len();
    proof {
        assert(v@.take(n as int) =~= v@);
    }
    while n > 0 && v[n - 1] == ' '
        invariant
            n <= v.len(),
            without_spaces(v@.take(n as int)) == without_spaces(v@),
        decreases n,
    {
        proof {
            assert(v@.take(n as int).drop_last() =~= v@.take(n - 1));
            assert(v@.take(n as int).last() == v@[n - 1]);
        }
        n = n - 1;
    }
    proof {
        assert(v@.subrange(0, n as int) =~= v@.take(n as int));
        if n > 0 {
            assert(v@.take(n as int).last() == v@[n - 1]);
        }
    }
    substring(&v, 0, n)
}

/// The text of a screen of `width` by `height` cells: one line for each row, without the
/// spaces at its end and without the empty rows at the end. `widths` holds how many
/// columns each symbol takes.
pub fn cells_to_string(symbols: &Vec<String>, widths: &Vec<usize>, width: usize, height: usize) -> (r:
    String)
    requires
        symbols.len() == width * height,
        widths.len() == symbols.len(),
    ensures
        r@ == join(
            without_empty_end(
                rows_read(texts(symbols@), widths@, width as int, height as int),
            ),
            "\n"@,
        ),
{
    let ghost all = texts(symbols@);
    let ghost rows = rows_read(all, widths@, width as int, height as int);
    let mut lines: Vec<String> = Vec::new();
    let mut row: usize = 0;
    let mut at: usize = 0;
    while row < height
        invariant
            row <= height,
            at == row * width,
            symbols.len() == width * height,
            widths.len() == symbols.len(),
            all == texts(symbols@),
            rows == rows_read(all, widths@, width as int, height as int),
            texts(lines@) =~= rows.take(row as int),
        decreases height - row,
    {
        let ghost from = row * width;
        let ghost part = all.subrange(row * width, (row + 1) * width);
        let ghost spans = widths@.subrange(row * width, (row + 1) * width);
        proof {
            let (r, w, h) = (row as int, width as int, height as int);
            assert((r + 1) * w == r * w + w) by (nonlinear_arith);
            assert((r + 1) * w <= h * w) by (nonlinear_arith)
                requires
                    r + 1 <= h,
                    w >= 0,
            ;
            assert(h * w == w * h) by (nonlinear_arith);
        }
        let mut line = String::new();
        let mut covered: usize = 0;
        let mut col: usize = 0;
        while col < width
            invariant
                col <= width,
                at == from,
                from + width <= symbols.len(),
                widths.len() == symbols.len(),
                all == texts(symbols@),
                part == all.subrange(from, from + width),
                spans == widths@.subrange(from, from + width),
                (line@, covered as int) == row_read(part, spans, col as int),
            decreases width - col,
        {
            proof {
                assert(part[col as int] == symbols@[at + col]@);
                assert(spans[col as int] == widths@[at + col]);
            }
            if covered == 0 {
                line.append(symbols[at + col].as_str());
            }
            let w: usize = widths[at + col];
            if w > covered {
                covered = w;
            }
            if covered > 0 {
                covered = covered - 1;
            }
            col = col + 1;
        }
        add_line(&mut lines, strip_spaces(line.as_str()));
        at = at + width;
        row = row + 1;
    }
    proof {
        assert(texts(lines@) =~= rows);
    }
    drop_empty_end(&mut lines);
    joined(&lines, "\n")
}

/// The text of a drawn screen of `width` by `height` cells.
pub fn buffer_to_string(symbols: &Vec<String>, width: usize, height: usize) -> (r: String)
    requires
        symbols.len() == width * height,
    ensures
        r@ == join(
            without_empty_end(
                rows_read(
                    texts(symbols@),
                    all_columns(texts(symbols@)),
                    width as int,
                    height as int,
                ),
            ),
            "\n"@,
        ),
{
    let ghost all = all_columns(texts(symbols@));
    let mut widths: Vec<usize> = Vec::new();
    let mut i: usize = 0;
    while i < symbols.len()
        invariant
            i <= symbols.len(),
            all == all_columns(texts(symbols@)),
            widths@ =~= all.take(i as int),
        decreases symbols.len() - i,
    {
        proof {
            assert(all[i as int] == columns(symbols@[i as int]@));
        }
        widths.push(column_width(symbols[i].as_str()));
        i = i + 1;
    }
    proof {
        assert(widths@ =~= all);
    }
    cells_to_string(symbols, &widths, width, height)
}

/// The symbols of some cells, one after another.
pub open spec fn side_by_side(symbols: Seq<Seq<char>>) -> Seq<char>
    decreases symbols.len(),
{
    if symbols.len() == 0 {
        Seq::empty()
    } else {
        side_by_side(symbols.drop_last()) + symbols.last()
    }
}

/// Where every symbol is one cell wide, a row reads as its symbols side by side.
pub proof fn law_narrow_cells_read_side_by_side(
    symbols: Seq<Seq<char>>,
    widths: Seq<usize>,
    n: int,
)
    requires
        0 <= n <= symbols.len(),
        symbols.len() == widths.len(),
        forall|i: int| 0 <= i < widths.len() ==> #[trigger] widths[i] == 1,
    ensures
        row_read(symbols, widths, n) == (side_by_side(symbols.take(n)), 0int),
    decreases n,
{
    if n > 0 {
        law_narrow_cells_read_side_by_side(symbols, widths, n - 1);
        assert(widths[n - 1] == 1);
        assert(symbols.take(n).drop_last() =~= symbols.take(n - 1));
    } else {
        assert(symbols.take(0) =~= Seq::empty());
    }
}

/// A symbol that is two cells wide hides the cell behind it.
pub proof fn law_wide_cells_hide_the_next(symbols: Seq<Seq<char>>, widths: Seq<usize>, n: int)
    requires
        0 <= n,
        n + 2 <= symbols.len(),
        symbols.len() == widths.len(),
        row_read(symbols, widths, n).1 == 0,
        widths[n] == 2,
        widths[n + 1] <= 1,
    ensures
        row_read(symbols, widths, n + 2) == (row_read(symbols, widths, n).0 + symbols[n], 0int),
{
    reveal_with_fuel(row_read, 3);
}

/// A row is shown without the spaces at its end, and with all that is before them.
pub proof fn law_spaces_at_the_end_go(s: Seq<char>)
    ensures
        without_spaces(s).len() <= s.len(),
        without_spaces(s) == s.take(without_spaces(s).len() as int),
        without_spaces(s).len() > 0 ==> without_spaces(s).last() != ' ',
        forall|i: int| without_spaces(s).len() <= i < s.len() ==> #[trigger] s[i] == ' ',
    decreases s.len(),
{
    if s.len() > 0 && s.last() == ' ' {
        let t = s.drop_last();
        law_spaces_at_the_end_go(t);
        let n = without_spaces(s).len() as int;
        assert(t.take(n) =~= s.take(n));
        assert forall|i: int| n <= i < s.len() implies #[trigger] s[i] == ' ' by {
            if i < t.len() {
                assert(t[i] == s[i]);
            }
        }
    } else {
        assert(s.take(s.len() as int) =~= s);
    }
}

/// Each row of the screen is read from its own cells.
pub proof fn law_rows_are_read_from_their_cells(
    symbols: Seq<Seq<char>>,
    widths: Seq<usize>,
    width: int,
    height: int,
    r: int,
)
    requires
        0 <= r < height,
        0 <= width,
        symbols.len() == width * height,
        widths.len() == symbols.len(),
        forall|i: int| 0 <= i < widths.len() ==> #[trigger] widths[i] == 1,
    ensures
        rows_read(symbols, widths, width, height).len() == height,
        rows_read(symbols, widths, width, height)[r] == without_spaces(
            side_by_side(symbols.subrange(r * width, (r + 1) * width)),
        ),
{
    assert(0 <= r * width <= (r + 1) * width <= width * height) by (nonlinear_arith)
        requires
            0 <= r < height,
            0 <= width,
    ;
    assert((r + 1) * width - r * width == width) by (nonlinear_arith);
    let s = symbols.subrange(r * width, (r + 1) * width);
    let w = widths.subrange(r * width, (r + 1) * width);
    assert forall|i: int| 0 <= i < w.len() implies #[trigger] w[i] == 1 by {
        assert(w[i] == widths[r * width + i]);
    }
    law_narrow_cells_read_side_by_side(s, w, width);
    assert(s.take(width) =~= s);
}

} // verus!
