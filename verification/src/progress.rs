//! What is shown while something takes its time.
use vstd::prelude::*;

use crate::text::{add_line, chars_of, decimal, decimal_string, join, joined, substring, texts};

verus! {

// ---------------------------------------------------------------------------
// Times and names

/// A time for display: milliseconds below a second, tenths of a second below a minute,
/// else minutes and seconds.
pub open spec fn elapsed_text(secs: u64, millis: u128, tenths: Seq<char>) -> Seq<char> {
    if secs < 1 {
        decimal(millis as nat) + "ms"@
    } else if secs < 60 {
        tenths + "s"@
    } else {
        decimal((secs / 60) as nat) + "m"@ + decimal((secs % 60) as nat) + "s"@
    }
}

/// A time for display. `secs` and `millis` are its whole seconds and milliseconds,
/// `tenths` are its seconds with one digit behind the point.
pub fn format_elapsed(secs: u64, millis: u128, tenths: &str) -> (r: String)
    ensures
        r@ == elapsed_text(secs, millis, tenths@),
{
    if secs < 1 {
        decimal_string(millis).concat("ms")
    } else if secs < 60 {
        tenths.to_owned().concat("s")
    } else {
        decimal_string((secs / 60) as u128).concat("m").concat(
            decimal_string((secs % 60) as u128).as_str(),
        ).concat("s")
    }
}

/// The end of a text, at most `max` characters with the mark before it.
pub open spec fn tail_of(s: Seq<char>, max: int) -> Seq<char> {
    if s.len() <= max {
        s
    } else if max <= 1 {
        "…"@
    } else {
        "…"@ + s.skip(s.len() - (max - 1))
    }
}

/// Keep the end of a name, which says most, within `max` characters, with `…` before it
/// where it was cut.
pub fn truncate_tail(s: &str, max: usize) -> (r: String)
    ensures
        r@ == tail_of(s@, max as int),
{
    let v = chars_of(s);
    let n: usize = v.len();
    if n <= max {
        return s.to_owned();
    }
    if max <= 1 {
        return "…".to_owned();
    }
    let tail = substring(&v, n - (max - 1), n);
    proof {
        assert(tail@ =~= s@.skip(n - (max - 1)));
    }
    "…".to_owned().concat(tail.as_str())
}

/// A name that is cut is as long as asked for and ends as it did.
pub proof fn law_tail_fits(s: Seq<char>, max: int)
    requires
        max >= 1,
    ensures
        tail_of(s, max).len() <= max,
        s.len() > max ==> tail_of(s, max).len() == max,
        tail_of(s, max).skip(1) == s.skip(s.len() - tail_of(s, max).len() + 1) || s.len() <= max,
{
    reveal_strlit("…");
    if s.len() > max && max > 1 {
        assert(tail_of(s, max).skip(1) =~= s.skip(s.len() - max + 1));
    } else if s.len() > max {
        assert(tail_of(s, max).skip(1) =~= Seq::empty());
        assert(s.skip(s.len() as int) =~= Seq::empty());
    }
}

// ---------------------------------------------------------------------------
// Bars

/// A character so many times.
pub open spec fn repeated(c: char, n: int) -> Seq<char> {
    Seq::new(n as nat, |i: int| c)
}

fn repeat(c: char, n: usize) -> (r: String)
    ensures
        r@ == repeated(c, n as int),
{
    let mut r = String::new();
    let mut i: usize = 0;
    while i < n
        invariant
            i <= n,
            r@ =~= repeated(c, i as int),
        decreases n - i,
    {
        r.push(c);
        i = i + 1;
    }
    r
}

/// How much of a bar is filled.
pub open spec fn filled(done: int, total: int, width: int) -> int {
    if total == 0 {
        0
    } else {
        done * width / total
    }
}

/// A bar of `width` characters, filled as far as the work is done.
pub open spec fn bar_text(done: int, total: int, width: int) -> Seq<char> {
    let n = filled(done, total, width);
    "["@ + repeated('#', n) + repeated(
        '-',
        if n < width {
            width - n
        } else {
            0
        },
    ) + "]"@
}

/// A bar of `width` characters, filled as far as the work is done.
pub fn progress_bar(done: usize, total: usize, width: usize) -> (r: String)
    requires
        done * width <= usize::MAX,
    ensures
        r@ == bar_text(done as int, total as int, width as int),
{
    let n: usize = if total == 0 {
        0
    } else {
        done * width / total
    };
    let left: usize = if n < width {
        width - n
    } else {
        0
    };
    "[".to_owned().concat(repeat('#', n).as_str()).concat(repeat('-', left).as_str()).concat("]")
}

/// The frames of a spinner.
pub open spec fn spinner(frame: int) -> char {
    let k = frame % 10;
    if k == 0 {
        '⠋'
    } else if k == 1 {
        '⠙'
    } else if k == 2 {
        '⠹'
    } else if k == 3 {
        '⠸'
    } else if k == 4 {
        '⠼'
    } else if k == 5 {
        '⠴'
    } else if k == 6 {
        '⠦'
    } else if k == 7 {
        '⠧'
    } else if k == 8 {
        '⠇'
    } else {
        '⠏'
    }
}

/// A frame of the spinner.
pub fn spinner_frame(frame: usize) -> (c: char)
    ensures
        c == spinner(frame as int),
{
    let k: usize = frame % 10;
    if k == 0 {
        '⠋'
    } else if k == 1 {
        '⠙'
    } else if k == 2 {
        '⠹'
    } else if k == 3 {
        '⠸'
    } else if k == 4 {
        '⠼'
    } else if k == 5 {
        '⠴'
    } else if k == 6 {
        '⠦'
    } else if k == 7 {
        '⠧'
    } else if k == 8 {
        '⠇'
    } else {
        '⠏'
    }
}

/// How a read goes.
#[derive(Clone, Copy, Debug, PartialEq, Eq, Structural)]
pub enum ReadState {
    Running,
    Done,
    Failed,
}

/// The colour and the mark of a read.
pub open spec fn read_mark(state: ReadState, frame: int) -> (Seq<char>, char) {
    match state {
        ReadState::Running => ("\x1b[1;36m"@, spinner(frame)),
        ReadState::Done => ("\x1b[1;32m"@, '✓'),
        ReadState::Failed => ("\x1b[1;31m"@, '✗'),
    }
}

/// The line of a read: its mark, its label and its time in seconds.
pub open spec fn read_text(state: ReadState, frame: int, label: Seq<char>, secs: Seq<char>) -> Seq<char> {
    let (color, mark) = read_mark(state, frame);
    "\r\x1b[2K  "@ + color + seq![mark] + "\x1b[0m \x1b[2m"@ + label + "\x1b[0m "@ + color + secs
        + "s\x1b[0m\n"@
}

/// The line of a read: a spinner while it runs, then a mark; its label, and its time in
/// seconds.
pub fn read_line(state: ReadState, frame: usize, label: &str, secs: &str) -> (r: String)
    ensures
        r@ == read_text(state, frame as int, label@, secs@),
{
    let (color, mark): (&'static str, char) = match state {
        ReadState::Running => ("\x1b[1;36m", spinner_frame(frame)),
        ReadState::Done => ("\x1b[1;32m", '✓'),
        ReadState::Failed => ("\x1b[1;31m", '✗'),
    };
    let mut m = String::new();
    m.push(mark);
    proof {
        assert(m@ =~= seq![mark]);
    }
    "\r\x1b[2K  ".to_owned().concat(color).concat(m.as_str()).concat("\x1b[0m \x1b[2m").concat(
        label,
    ).concat("\x1b[0m ").concat(color).concat(secs).concat("s\x1b[0m\n")
}

// ---------------------------------------------------------------------------
// The comparison

/// How many names fit below the header.
pub open spec fn names_shown(n: int, height: int) -> int {
    let rows = if height > 3 {
        height - 2
    } else {
        1
    };
    if n < rows {
        n
    } else {
        rows
    }
}

/// What is shown of a comparison: how far it is, and the tensors that are being compared,
/// as many as fit on the screen.
pub open spec fn comparison_lines(
    frame: int,
    done: nat,
    total: nat,
    names: Seq<Seq<char>>,
    width: int,
    height: int,
) -> Seq<Seq<char>> {
    let n = names_shown(names.len() as int, height);
    let budget = if width > 4 {
        width - 4
    } else {
        0
    };
    seq![
        seq![spinner(frame)] + " comparing tensors ("@ + decimal(done) + "/"@ + decimal(total) + ", "@
            + decimal(names.len()) + " in flight):"@,
    ] + Seq::new(n as nat, |i: int| "    "@ + tail_of(names[i], budget)) + (if names.len() > n {
        seq!["    … and "@ + decimal((names.len() - n) as nat) + " more"@]
    } else {
        seq![]
    })
}

/// What is shown of a comparison that is going on.
pub fn compare_progress_block(
    frame: usize,
    done: usize,
    total: usize,
    names: &Vec<String>,
    width: usize,
    height: usize,
) -> (r: Vec<String>)
    ensures
        texts(r@) == comparison_lines(
            frame as int,
            done as nat,
            total as nat,
            texts(names@),
            width as int,
            height as int,
        ),
{
    let ghost all = texts(names@);
    let mut lines: Vec<String> = Vec::new();
    let mut spin = String::new();
    spin.push(spinner_frame(frame));
    proof {
        assert(spin@ =~= seq![spinner(frame as int)]);
    }
    let head = spin.concat(" comparing tensors (").concat(decimal_string(done as u128).as_str()).concat(
        "/",
    ).concat(decimal_string(total as u128).as_str()).concat(", ").concat(
        decimal_string(names.len() as u128).as_str(),
    ).concat(" in flight):");
    let ghost first = head@;
    add_line(&mut lines, head);
    let max_rows: usize = if height > 3 {
        height - 2
    } else {
        1
    };
    let shown: usize = if names.len() < max_rows {
        names.len()
    } else {
        max_rows
    };
    let budget: usize = if width > 4 {
        width - 4
    } else {
        0
    };
    let ghost body = Seq::new(shown as nat, |i: int| "    "@ + tail_of(all[i], budget as int));
    let mut i: usize = 0;
    while i < shown
        invariant
            i <= shown <= names.len(),
            all == texts(names@),
            body == Seq::new(shown as nat, |i: int| "    "@ + tail_of(all[i], budget as int)),
            texts(lines@) =~= seq![first] + body.take(i as int),
        decreases shown - i,
    {
        proof {
            assert(all[i as int] == names@[i as int]@);
        }
        add_line(
            &mut lines,
            "    ".to_owned().concat(truncate_tail(names[i].as_str(), budget).as_str()),
        );
        i = i + 1;
    }
    if names.len() > shown {
        add_line(
            &mut lines,
            "    … and ".to_owned().concat(
                decimal_string((names.len() - shown) as u128).as_str(),
            ).concat(" more"),
        );
    }
    proof {
        assert(texts(lines@) =~= comparison_lines(
            frame as int,
            done as nat,
            total as nat,
            all,
            width as int,
            height as int,
        ));
    }
    lines
}

/// The text that draws some lines in place of so many lines above the cursor.
pub open spec fn redrawn(lines: Seq<Seq<char>>, above: nat) -> Seq<char> {
    (if above > 0 {
        "\x1b["@ + decimal(above) + "A"@
    } else {
        ""@
    }) + "\r\x1b[0J"@ + join(lines, "\n"@) + "\n"@
}

/// The text that draws some lines in place of the `above` lines above the cursor. The
/// cursor ends below them.
pub fn draw_block(lines: &Vec<String>, above: usize) -> (r: String)
    ensures
        r@ == redrawn(texts(lines@), above as nat),
{
    let up = if above > 0 {
        "\x1b[".to_owned().concat(decimal_string(above as u128).as_str()).concat("A")
    } else {
        "".to_owned()
    };
    up.concat("\r\x1b[0J").concat(joined(lines, "\n").as_str()).concat("\n")
}

/// The text that erases the `above` lines above the cursor.
pub fn erase_block(above: usize) -> (r: String)
    ensures
        r@ == if above > 0 {
            "\x1b["@ + decimal(above as nat) + "A\r\x1b[0J"@
        } else {
            ""@
        },
{
    if above > 0 {
        "\x1b[".to_owned().concat(decimal_string(above as u128).as_str()).concat("A\r\x1b[0J")
    } else {
        "".to_owned()
    }
}

// ---------------------------------------------------------------------------
// What is shown of the progress

/// A bar is as wide as asked, in brackets: nothing is filled at first, all of it at the end,
/// and no less after more was done; what is not filled is dashes.
pub proof fn law_bars_fill_up(done: int, more: int, total: int, width: int)
    requires
        0 <= done <= more <= total,
        0 < total,
        0 <= width,
    ensures
        0 <= filled(done, total, width) <= filled(more, total, width) <= width,
        filled(0, total, width) == 0,
        filled(total, total, width) == width,
        filled(done, total, width) * total <= done * width,
        done * width < (filled(done, total, width) + 1) * total,
        bar_text(done, total, width).len() == width + 2,
        forall|i: int|
            1 <= i <= filled(done, total, width) ==> #[trigger] bar_text(done, total, width)[i] == '#',
        forall|i: int|
            filled(done, total, width) < i <= width ==> #[trigger] bar_text(done, total, width)[i]
                == '-',
{
    reveal_strlit("[");
    reveal_strlit("]");
    let (a, b, c) = (done * width, more * width, total * width);
    assert(0 <= a <= b <= c) by (nonlinear_arith)
        requires
            0 <= done <= more <= total,
            0 <= width,
            a == done * width,
            b == more * width,
            c == total * width,
    ;
    vstd::arithmetic::div_mod::lemma_fundamental_div_mod(a, total);
    vstd::arithmetic::div_mod::lemma_fundamental_div_mod(b, total);
    let (x, y) = (a / total, b / total);
    assert(x * total <= a < (x + 1) * total) by (nonlinear_arith)
        requires
            a == total * x + a % total,
            0 <= a % total < total,
    ;
    assert(y * total <= b < (y + 1) * total) by (nonlinear_arith)
        requires
            b == total * y + b % total,
            0 <= b % total < total,
    ;
    assert(x <= y) by (nonlinear_arith)
        requires
            x * total <= a <= b < (y + 1) * total,
            total > 0,
    ;
    assert(y <= width) by (nonlinear_arith)
        requires
            y * total <= b <= total * width,
            total > 0,
    ;
    assert(x >= 0) by (nonlinear_arith)
        requires
            0 <= a < (x + 1) * total,
            total > 0,
    ;
    vstd::arithmetic::div_mod::lemma_div_multiples_vanish(width, total);
    assert(0 * width == 0) by (nonlinear_arith);
    assert(0int / total == 0) by (nonlinear_arith)
        requires
            total > 0,
    ;
}

/// A minute and more is written as minutes and the seconds left, of which there are fewer than
/// 60; less than a second in milliseconds.
pub proof fn law_times_are_split(secs: u64, millis: u128, tenths: Seq<char>)
    ensures
        secs >= 60 ==> exists|m: nat, s: nat| #[trigger]
            minutes_text(m, s) == elapsed_text(secs, millis, tenths) && 60 * m + s == secs && s < 60,
        1 <= secs < 60 ==> elapsed_text(secs, millis, tenths) == tenths + "s"@,
        secs == 0 ==> elapsed_text(secs, millis, tenths) == decimal(millis as nat) + "ms"@,
{
    if secs >= 60 {
        let (m, s) = ((secs / 60) as nat, (secs % 60) as nat);
        assert(minutes_text(m, s) == elapsed_text(secs, millis, tenths));
    }
}

pub open spec fn minutes_text(m: nat, s: nat) -> Seq<char> {
    decimal(m) + "m"@ + decimal(s) + "s"@
}

/// Of the tensors that are being compared as many are named as have room, from the first on;
/// one line more says how many are not.
pub proof fn law_names_in_flight(
    frame: int,
    done: nat,
    total: nat,
    names: Seq<Seq<char>>,
    width: int,
    height: int,
)
    requires
        height > 3,
    ensures
        ({
            let lines = comparison_lines(frame, done, total, names, width, height);
            &&& lines.len() <= height
            &&& names.len() <= height - 2 ==> lines.len() == names.len() + 1
            &&& names.len() > height - 2 ==> lines.len() == height && lines.last() == "    … and "@
                + decimal((names.len() - (height - 2)) as nat) + " more"@
            &&& forall|i: int|
                0 <= i < names.len() && i < height - 2 ==> #[trigger] lines[i + 1] == "    "@
                    + tail_of(
                    names[i],
                    if width > 4 {
                        width - 4
                    } else {
                        0
                    },
                )
        }),
{
}

/// What is running spins; what is done is ticked in green, what failed is crossed in red.
pub proof fn law_marks_tell_the_state(frame: int)
    requires
        frame >= 0,
    ensures
        read_mark(ReadState::Done, frame) == ("\x1b[1;32m"@, '✓'),
        read_mark(ReadState::Failed, frame) == ("\x1b[1;31m"@, '✗'),
        read_mark(ReadState::Running, frame).1 == spinner(frame),
        spinner(frame + 10) == spinner(frame),
        spinner(frame + 1) != spinner(frame),
{
}

/// A block is drawn over itself: up by as many lines as it had, the rest of the screen
/// cleared, then its lines. What is read shows its label between its mark and its time.
pub proof fn law_blocks_are_drawn_over(lines: Seq<Seq<char>>, above: nat, label: Seq<char>, secs: Seq<char>)
    ensures
        above > 0 ==> redrawn(lines, above) == "\x1b["@ + decimal(above) + "A"@ + redrawn(lines, 0),
        redrawn(lines, 0) == "\r\x1b[0J"@ + join(lines, "\n"@) + "\n"@,
        read_text(ReadState::Done, 0, label, secs) == "\r\x1b[2K  \x1b[1;32m✓\x1b[0m \x1b[2m"@
            + label + "\x1b[0m \x1b[1;32m"@ + secs + "s\x1b[0m\n"@,
        read_text(ReadState::Failed, 0, label, secs) == "\r\x1b[2K  \x1b[1;31m✗\x1b[0m \x1b[2m"@
            + label + "\x1b[0m \x1b[1;31m"@ + secs + "s\x1b[0m\n"@,
{
    reveal_strlit("");
    reveal_strlit("\r\x1b[2K  ");
    reveal_strlit("\x1b[1;32m");
    reveal_strlit("\x1b[1;31m");
    reveal_strlit("\x1b[0m \x1b[2m");
    reveal_strlit("\x1b[0m ");
    reveal_strlit("\r\x1b[2K  \x1b[1;32m✓\x1b[0m \x1b[2m");
    reveal_strlit("\r\x1b[2K  \x1b[1;31m✗\x1b[0m \x1b[2m");
    reveal_strlit("\x1b[0m \x1b[1;32m");
    reveal_strlit("\x1b[0m \x1b[1;31m");
    let rest = "\r\x1b[0J"@ + join(lines, "\n"@) + "\n"@;
    assert(redrawn(lines, 0) =~= rest);
    if above > 0 {
        assert(redrawn(lines, above) =~= "\x1b["@ + decimal(above) + "A"@ + rest);
    }
    assert(read_text(ReadState::Done, 0, label, secs)
        =~= "\r\x1b[2K  \x1b[1;32m✓\x1b[0m \x1b[2m"@ + label + "\x1b[0m \x1b[1;32m"@ + secs
        + "s\x1b[0m\n"@);
    assert(read_text(ReadState::Failed, 0, label, secs)
        =~= "\r\x1b[2K  \x1b[1;31m✗\x1b[0m \x1b[2m"@ + label + "\x1b[0m \x1b[1;31m"@ + secs
        + "s\x1b[0m\n"@);
}

} // verus!
