//! What each key does on a tensor's detail screen and in its data views.
use vstd::prelude::*;

use crate::inputs::slice_step;
use crate::keys::{foreign_letter, is_ctrl_c, wrong_layout_char, KeyCode, KeyEvent};
use crate::diff::same_numbers;
use crate::open::{count_slices, slice_count};
use crate::sample::{edge_count, edge_total, SampleMode, ViewDtype};
use crate::screens::{DataLayout, Representation};
use crate::session::{Session, SessionModel};
use crate::text::same;

verus! {

// ---------------------------------------------------------------------------
// The detail screen

/// What is to be done after a key on the detail screen.
#[derive(Clone, Copy, Debug, PartialEq, Eq, Structural)]
pub enum DetailAction {
    /// Leave the application at once.
    QuitNow,
    /// Hint at a wrong keyboard layout.
    Hint(char),
    /// Close the pop-up.
    Dismiss,
    /// Open a data view.
    OpenData(Representation),
    /// Compute and show the histogram.
    Histogram,
    /// Ask for the number of bins, then show the histogram.
    AskBins,
    /// Compute the statistics.
    Statistics,
    /// Ask for a dtype.
    AskDtype,
    /// Ask for a shape.
    AskShape,
    CopyScreen,
    ShowCommand,
    ShowLegend,
    Back,
    Forward,
    /// Go to the tree.
    ToTree,
    /// Draw anew.
    Stay,
}

/// What a key does on the detail screen. `popup` tells whether a pop-up is up, and
/// `overridable` whether the tensor's bytes can be decoded otherwise.
pub open spec fn detail_after(key: KeyEvent, popup: bool, overridable: bool) -> DetailAction {
    if popup {
        if key.ctrl_c() {
            DetailAction::QuitNow
        } else {
            DetailAction::Dismiss
        }
    } else {
        match foreign_letter(key) {
            Some(c) => DetailAction::Hint(c),
            None => if key.ctrl_c() {
                DetailAction::QuitNow
            } else {
                match key.code {
                    KeyCode::Char(c) => if c == 'm' {
                        DetailAction::OpenData(Representation::Heatmap)
                    } else if c == 'v' {
                        DetailAction::OpenData(Representation::Values)
                    } else if c == 'h' {
                        DetailAction::Histogram
                    } else if c == 'b' || c == 'B' {
                        DetailAction::AskBins
                    } else if c == 's' || c == 'S' {
                        DetailAction::Statistics
                    } else if (c == 'd' || c == 'D') && overridable {
                        DetailAction::AskDtype
                    } else if (c == 'r' || c == 'R') && overridable {
                        DetailAction::AskShape
                    } else if c == 'c' {
                        DetailAction::CopyScreen
                    } else if c == 'y' {
                        DetailAction::ShowCommand
                    } else if c == 'l' {
                        DetailAction::ShowLegend
                    } else if c == '\\' {
                        DetailAction::Forward
                    } else {
                        DetailAction::ToTree
                    },
                    KeyCode::Backspace => DetailAction::Back,
                    _ => DetailAction::ToTree,
                }
            },
        }
    }
}

/// A key on the detail screen.
pub fn detail_key(key: &KeyEvent, popup: bool, overridable: bool) -> (r: DetailAction)
    ensures
        r == detail_after(*key, popup, overridable),
{
    if popup {
        return if is_ctrl_c(key) {
            DetailAction::QuitNow
        } else {
            DetailAction::Dismiss
        };
    }
    if let Some(c) = wrong_layout_char(key) {
        return DetailAction::Hint(c);
    }
    if is_ctrl_c(key) {
        return DetailAction::QuitNow;
    }
    match key.code {
        KeyCode::Char(c) => {
            if c == 'm' {
                DetailAction::OpenData(Representation::Heatmap)
            } else if c == 'v' {
                DetailAction::OpenData(Representation::Values)
            } else if c == 'h' {
                DetailAction::Histogram
            } else if c == 'b' || c == 'B' {
                DetailAction::AskBins
            } else if c == 's' || c == 'S' {
                DetailAction::Statistics
            } else if (c == 'd' || c == 'D') && overridable {
                DetailAction::AskDtype
            } else if (c == 'r' || c == 'R') && overridable {
                DetailAction::AskShape
            } else if c == 'c' {
                DetailAction::CopyScreen
            } else if c == 'y' {
                DetailAction::ShowCommand
            } else if c == 'l' {
                DetailAction::ShowLegend
            } else if c == '\\' {
                DetailAction::Forward
            } else {
                DetailAction::ToTree
            }
        },
        KeyCode::Backspace => DetailAction::Back,
        _ => DetailAction::ToTree,
    }
}

// ---------------------------------------------------------------------------
// The background scan

/// Whether the statistics are computed in the background while the detail screen is up.
pub fn warms_up(preload: bool, scanned_at_once: bool, interactive: bool, overridable: bool) -> (b: bool)
    ensures
        b == (preload && !scanned_at_once && interactive && overridable),
{
    preload && !scanned_at_once && interactive && overridable
}

/// What the background scan of the statistics needs.
#[derive(Clone, Copy, Debug, PartialEq, Eq, Structural)]
pub enum ScanStep {
    /// The statistics are there: drop the scan.
    Ready,
    /// Start a scan of the active view, in place of any other.
    Start,
    /// Wait for the scan to end and keep its result.
    Harvest,
    /// Show its progress.
    Spin,
    /// Show that the statistics are not there yet.
    Pending,
}

/// How long a scan runs before its progress is shown, in milliseconds.
pub const SPINNER_DELAY_MS: u64 = 120;

/// What the background scan needs. `running` is the view whose scan is running.
pub open spec fn scan_after(
    cached: bool,
    wanted: bool,
    running: Option<ViewDtype>,
    view: ViewDtype,
    done: bool,
    elapsed_ms: u64,
) -> ScanStep {
    if cached {
        ScanStep::Ready
    } else if !wanted {
        ScanStep::Pending
    } else if running is None || !running->0.same_view(view) {
        ScanStep::Start
    } else if done {
        ScanStep::Harvest
    } else if elapsed_ms >= SPINNER_DELAY_MS {
        ScanStep::Spin
    } else {
        ScanStep::Pending
    }
}

/// Decide what the background scan needs: `cached` tells whether the statistics of the
/// active view are there, `wanted` whether they are to be computed, `done` whether the
/// running scan has ended or nothing else is to be waited for.
pub fn scan_step(
    cached: bool,
    wanted: bool,
    running: Option<ViewDtype>,
    view: ViewDtype,
    done: bool,
    elapsed_ms: u64,
) -> (r: ScanStep)
    ensures
        r == scan_after(cached, wanted, running, view, done, elapsed_ms),
{
    if cached {
        return ScanStep::Ready;
    }
    if !wanted {
        return ScanStep::Pending;
    }
    let current = match running {
        Some(v) => v.is_same(view),
        None => false,
    };
    if !current {
        ScanStep::Start
    } else if done {
        ScanStep::Harvest
    } else if elapsed_ms >= SPINNER_DELAY_MS {
        ScanStep::Spin
    } else {
        ScanStep::Pending
    }
}

/// Whether the statistics must be computed before the histogram: its bins need the
/// range of the values and the range is not known.
pub fn histogram_needs_stats(bins_known: bool, stats_cached: bool) -> (b: bool)
    ensures
        b == (!bins_known && !stats_cached),
{
    !bins_known && !stats_cached
}

/// Whether the histogram is scanned: it is not there yet, and its bins are known.
pub fn histogram_scans(cached: bool, bins_known: bool) -> (b: bool)
    ensures
        b == (!cached && bins_known),
{
    !cached && bins_known
}

// ---------------------------------------------------------------------------
// The data views

/// Which representation and slice a data view shows.
#[derive(Clone, Copy, Debug, PartialEq, Eq, Structural)]
pub struct DataState {
    pub repr: Representation,
    pub slice: usize,
}

/// What is to be done after a key in a data view.
#[derive(Clone, Copy, Debug, PartialEq, Eq, Structural)]
pub enum DataAction {
    /// Draw anew.
    Stay,
    QuitNow,
    Hint(char),
    Dismiss,
    /// Move the divider between the first and the last rows or columns: toward the
    /// tail or away from it, by one index or all the way.
    MoveDivider { rows: bool, toward_tail: bool, all_the_way: bool },
    AskDtype,
    AskShape,
    AskSlice,
    CopyScreen,
    ShowCommand,
    ShowLegend(Representation),
    Back,
    Forward,
    /// Go to the detail screen.
    ToDetail,
}

/// A position moved along one axis of the window: all the way to an edge with Control,
/// by a page with Shift, else by one.
pub open spec fn panned(at: usize, forward: bool, page: usize, shift: bool, control: bool) -> usize {
    if control {
        if forward {
            usize::MAX
        } else {
            0
        }
    } else {
        let step = if shift && page > 1 {
            page as int
        } else {
            1
        };
        if forward {
            if at + step <= usize::MAX {
                (at + step) as usize
            } else {
                usize::MAX
            }
        } else if at >= step {
            (at - step) as usize
        } else {
            0
        }
    }
}

fn pan(at: usize, forward: bool, page: usize, shift: bool, control: bool) -> (r: usize)
    ensures
        r == panned(at, forward, page, shift, control),
{
    if control {
        if forward {
            usize::MAX
        } else {
            0
        }
    } else {
        let step: usize = if shift && page > 1 {
            page
        } else {
            1
        };
        if forward {
            if at <= usize::MAX - step {
                at + step
            } else {
                usize::MAX
            }
        } else if at >= step {
            at - step
        } else {
            0
        }
    }
}

/// The slice `step` further on, around the end.
pub open spec fn slice_on(slice: int, slices: int, step: int) -> int {
    (slice + step) % slices
}

/// The slice `step` further back, around the beginning.
pub open spec fn slice_back(slice: int, slices: int, step: int) -> int {
    (slice + slices - step) % slices
}

fn forward_slice(slice: usize, slices: usize, step: usize) -> (r: usize)
    requires
        slice < slices,
        step <= slices,
    ensures
        r == slice_on(slice as int, slices as int, step as int),
        r < slices,
{
    let left: usize = slices - slice;
    proof {
        let s = slice as int;
        let n = slices as int;
        let k = step as int;
        if k < n - s {
            assert((s + k) % n == s + k) by (nonlinear_arith)
                requires
                    0 <= s + k < n,
            ;
        } else {
            assert((s + k) % n == s + k - n) by (nonlinear_arith)
                requires
                    n <= s + k < 2 * n,
            ;
        }
    }
    if step < left {
        slice + step
    } else {
        step - left
    }
}

fn backward_slice(slice: usize, slices: usize, step: usize) -> (r: usize)
    requires
        slice < slices,
        step <= slices,
    ensures
        r == slice_back(slice as int, slices as int, step as int),
        r < slices,
{
    proof {
        let s = slice as int;
        let n = slices as int;
        let k = step as int;
        if k <= s {
            assert((s + n - k) % n == s - k) by (nonlinear_arith)
                requires
                    0 <= s - k < n,
            ;
        } else {
            assert((s + n - k) % n == s + n - k) by (nonlinear_arith)
                requires
                    0 <= s + n - k < n,
            ;
        }
    }
    if step <= slice {
        slice - step
    } else {
        slices - (step - slice)
    }
}

/// A step on and a step back come back to the same slice.
pub proof fn law_slice_steps_undo(slice: int, slices: int, step: int)
    requires
        0 <= slice < slices,
        0 <= step <= slices,
    ensures
        0 <= slice_on(slice, slices, step) < slices,
        0 <= slice_back(slice, slices, step) < slices,
        slice_back(slice_on(slice, slices, step), slices, step) == slice,
        slice_on(slice_back(slice, slices, step), slices, step) == slice,
{
    let n = slices;
    let k = step;
    let a = slice_on(slice, n, k);
    let b = slice_back(slice, n, k);
    assert(a == if slice + k < n {
        slice + k
    } else {
        slice + k - n
    }) by (nonlinear_arith)
        requires
            0 <= slice < n,
            0 <= k <= n,
            a == (slice + k) % n,
    ;
    assert(b == if k <= slice {
        slice - k
    } else {
        slice + n - k
    }) by (nonlinear_arith)
        requires
            0 <= slice < n,
            0 <= k <= n,
            b == (slice + n - k) % n,
    ;
    assert((a + n - k) % n == slice) by (nonlinear_arith)
        requires
            0 <= slice < n,
            a + n - k == slice || a + n - k == slice + n,
    ;
    assert((b + k) % n == slice) by (nonlinear_arith)
        requires
            0 <= slice < n,
            b + k == slice || b + k == slice + n,
    ;
}

/// What a data view knows of its tensor.
#[derive(Clone, Copy, Debug, PartialEq, Eq, Structural)]
pub struct DataFacts {
    /// The number of slices.
    pub slices: usize,
    /// Whether the bytes can be decoded otherwise.
    pub overridable: bool,
    /// The layout that is on the screen.
    pub layout: DataLayout,
}

/// How many slices a long step moves.
pub open spec fn long_step(slices: usize) -> int {
    if slices / 20 > 1 {
        (slices / 20) as int
    } else {
        1
    }
}

/// What an arrow, Home, End, PageUp or PageDown does to the window.
pub open spec fn window_after(s: SessionModel, key: KeyEvent) -> Option<SessionModel> {
    let shift = key.modifiers.shift;
    let control = key.modifiers.control;
    match key.code {
        KeyCode::Up => Some(
            SessionModel {
                window_row: panned(s.window_row, false, s.page_rows, shift, control),
                ..s
            },
        ),
        KeyCode::Down => Some(
            SessionModel {
                window_row: panned(s.window_row, true, s.page_rows, shift, control),
                ..s
            },
        ),
        KeyCode::Left => Some(
            SessionModel {
                window_col: panned(s.window_col, false, s.page_cols, shift, control),
                ..s
            },
        ),
        KeyCode::Right => Some(
            SessionModel {
                window_col: panned(s.window_col, true, s.page_cols, shift, control),
                ..s
            },
        ),
        KeyCode::Home => Some(SessionModel { window_col: 0, ..s }),
        KeyCode::End => Some(SessionModel { window_col: usize::MAX, ..s }),
        KeyCode::PageUp => Some(SessionModel { window_row: 0, ..s }),
        KeyCode::PageDown => Some(SessionModel { window_row: usize::MAX, ..s }),
        _ => None,
    }
}

/// What an arrow does to the divider of the edges layout.
pub open spec fn divider_after(key: KeyEvent) -> Option<DataAction> {
    let all_the_way = key.modifiers.shift;
    match key.code {
        KeyCode::Up => Some(
            DataAction::MoveDivider { rows: true, toward_tail: true, all_the_way },
        ),
        KeyCode::Down => Some(
            DataAction::MoveDivider { rows: true, toward_tail: false, all_the_way },
        ),
        KeyCode::Left => Some(
            DataAction::MoveDivider { rows: false, toward_tail: true, all_the_way },
        ),
        KeyCode::Right => Some(
            DataAction::MoveDivider { rows: false, toward_tail: false, all_the_way },
        ),
        _ => None,
    }
}

/// What a key does to the slice that is shown, where there is more than one.
pub open spec fn slice_after_key(d: DataState, key: KeyEvent, slices: usize) -> Option<DataState> {
    let n = slices as int;
    let at = d.slice as int;
    let on = match key.code {
        KeyCode::Right => Some(
            if key.modifiers.shift {
                slice_on(at, n, long_step(slices))
            } else {
                slice_on(at, n, 1)
            },
        ),
        KeyCode::Left => Some(
            if key.modifiers.shift {
                slice_back(at, n, long_step(slices))
            } else {
                slice_back(at, n, 1)
            },
        ),
        KeyCode::Char(c) => if c == ']' {
            Some(slice_on(at, n, 1))
        } else if c == '[' {
            Some(slice_back(at, n, 1))
        } else {
            None
        },
        _ => None,
    };
    match on {
        Some(i) => if slices > 1 {
            Some(DataState { slice: i as usize, ..d })
        } else {
            None
        },
        None => None,
    }
}

/// What a letter does in a data view.
pub open spec fn letter_after(d: DataState, s: SessionModel, c: char, facts: DataFacts) -> (
    DataState,
    SessionModel,
    DataAction,
) {
    if c == 'm' {
        (DataState { repr: Representation::Heatmap, ..d }, s, DataAction::Stay)
    } else if c == 'v' {
        (DataState { repr: Representation::Values, ..d }, s, DataAction::Stay)
    } else if c == 'e' || c == 'E' {
        (d, SessionModel { layout: s.layout.successor(), ..s }, DataAction::Stay)
    } else if c == 'z' || c == 'Z' {
        (d, SessionModel { stripe: s.stripe.successor(), ..s }, DataAction::Stay)
    } else if c == 'b' || c == 'B' {
        (d, SessionModel { base: s.base.successor(), ..s }, DataAction::Stay)
    } else if (c == 'd' || c == 'D') && facts.overridable {
        (d, s, DataAction::AskDtype)
    } else if (c == 'r' || c == 'R') && facts.overridable {
        (d, s, DataAction::AskShape)
    } else if c == '/' && facts.slices > 1 {
        (d, s, DataAction::AskSlice)
    } else if c == 'c' {
        (d, s, DataAction::CopyScreen)
    } else if c == 'y' {
        (d, s, DataAction::ShowCommand)
    } else if c == 'l' {
        (d, s, DataAction::ShowLegend(d.repr))
    } else if c == '\\' {
        (d, s, DataAction::Forward)
    } else {
        (d, s, DataAction::ToDetail)
    }
}

/// What a key does in a data view: the state, the session, and what is to be done
/// elsewhere.
pub open spec fn data_after(
    d: DataState,
    s: SessionModel,
    key: KeyEvent,
    popup: bool,
    facts: DataFacts,
) -> (DataState, SessionModel, DataAction) {
    if key.ctrl_c() {
        (d, s, DataAction::QuitNow)
    } else if popup {
        (d, s, DataAction::Dismiss)
    } else if foreign_letter(key) is Some {
        (d, s, DataAction::Hint(foreign_letter(key)->0))
    } else if facts.layout is Edges && divider_after(key) is Some {
        (d, s, divider_after(key)->0)
    } else if facts.layout is Window && window_after(s, key) is Some {
        (d, window_after(s, key)->0, DataAction::Stay)
    } else if slice_after_key(d, key, facts.slices) is Some {
        (slice_after_key(d, key, facts.slices)->0, s, DataAction::Stay)
    } else {
        match key.code {
            KeyCode::Char(c) => letter_after(d, s, c, facts),
            KeyCode::Backspace => (d, s, DataAction::Back),
            _ => (d, s, DataAction::ToDetail),
        }
    }
}

fn divider_key(key: &KeyEvent) -> (r: Option<DataAction>)
    ensures
        r == divider_after(*key),
{
    let all_the_way = key.modifiers.shift;
    match key.code {
        KeyCode::Up => Some(
            DataAction::MoveDivider { rows: true, toward_tail: true, all_the_way },
        ),
        KeyCode::Down => Some(
            DataAction::MoveDivider { rows: true, toward_tail: false, all_the_way },
        ),
        KeyCode::Left => Some(
            DataAction::MoveDivider { rows: false, toward_tail: true, all_the_way },
        ),
        KeyCode::Right => Some(
            DataAction::MoveDivider { rows: false, toward_tail: false, all_the_way },
        ),
        _ => None,
    }
}

fn window_key(s: &mut Session, key: &KeyEvent) -> (r: bool)
    requires
        old(s).wf(),
    ensures
        final(s).wf(),
        r == window_after(old(s).deep_view(), *key) is Some,
        r ==> final(s).deep_view() == window_after(old(s).deep_view(), *key)->0,
        !r ==> final(s).deep_view() == old(s).deep_view(),
{
    let shift = key.modifiers.shift;
    let control = key.modifiers.control;
    match key.code {
        KeyCode::Up => {
            s.window_row = pan(s.window_row, false, s.page_rows, shift, control);
            true
        },
        KeyCode::Down => {
            s.window_row = pan(s.window_row, true, s.page_rows, shift, control);
            true
        },
        KeyCode::Left => {
            s.window_col = pan(s.window_col, false, s.page_cols, shift, control);
            true
        },
        KeyCode::Right => {
            s.window_col = pan(s.window_col, true, s.page_cols, shift, control);
            true
        },
        KeyCode::Home => {
            s.window_col = 0;
            true
        },
        KeyCode::End => {
            s.window_col = usize::MAX;
            true
        },
        KeyCode::PageUp => {
            s.window_row = 0;
            true
        },
        KeyCode::PageDown => {
            s.window_row = usize::MAX;
            true
        },
        _ => false,
    }
}

fn slice_step_key(d: &DataState, key: &KeyEvent, slices: usize) -> (r: Option<usize>)
    requires
        d.slice < slices,
    ensures
        match r {
            Some(i) => i < slices && slice_after_key(*d, *key, slices) == Some(
                DataState { slice: i, ..*d },
            ),
            None => slice_after_key(*d, *key, slices) is None,
        },
{
    if slices <= 1 {
        return None;
    }
    let long = slice_step(slices);
    match key.code {
        KeyCode::Right => Some(
            forward_slice(
                d.slice,
                slices,
                if key.modifiers.shift {
                    long
                } else {
                    1
                },
            ),
        ),
        KeyCode::Left => Some(
            backward_slice(
                d.slice,
                slices,
                if key.modifiers.shift {
                    long
                } else {
                    1
                },
            ),
        ),
        KeyCode::Char(c) => {
            if c == ']' {
                Some(forward_slice(d.slice, slices, 1))
            } else if c == '[' {
                Some(backward_slice(d.slice, slices, 1))
            } else {
                None
            }
        },
        _ => None,
    }
}

fn letter_key(d: &mut DataState, s: &mut Session, c: char, facts: DataFacts) -> (r: DataAction)
    requires
        old(s).wf(),
    ensures
        final(s).wf(),
        (*final(d), final(s).deep_view(), r) == letter_after(
            *old(d),
            old(s).deep_view(),
            c,
            facts,
        ),
{
    if c == 'm' {
        d.repr = Representation::Heatmap;
        DataAction::Stay
    } else if c == 'v' {
        d.repr = Representation::Values;
        DataAction::Stay
    } else if c == 'e' || c == 'E' {
        s.layout = s.layout.next();
        DataAction::Stay
    } else if c == 'z' || c == 'Z' {
        s.stripe = s.stripe.next();
        DataAction::Stay
    } else if c == 'b' || c == 'B' {
        s.base = s.base.next();
        DataAction::Stay
    } else if (c == 'd' || c == 'D') && facts.overridable {
        DataAction::AskDtype
    } else if (c == 'r' || c == 'R') && facts.overridable {
        DataAction::AskShape
    } else if c == '/' && facts.slices > 1 {
        DataAction::AskSlice
    } else if c == 'c' {
        DataAction::CopyScreen
    } else if c == 'y' {
        DataAction::ShowCommand
    } else if c == 'l' {
        DataAction::ShowLegend(d.repr)
    } else if c == '\\' {
        DataAction::Forward
    } else {
        DataAction::ToDetail
    }
}

/// A key in a data view. The arrows move the divider in the edges layout and the window
/// in the window layout, else they step through the slices.
pub fn data_key(d: &mut DataState, s: &mut Session, key: &KeyEvent, popup: bool, facts: DataFacts) -> (r:
    DataAction)
    requires
        old(s).wf(),
        old(d).slice < facts.slices,
    ensures
        final(s).wf(),
        final(d).slice < facts.slices,
        (*final(d), final(s).deep_view(), r) == data_after(
            *old(d),
            old(s).deep_view(),
            *key,
            popup,
            facts,
        ),
{
    if is_ctrl_c(key) {
        return DataAction::QuitNow;
    }
    if popup {
        return DataAction::Dismiss;
    }
    if let Some(c) = wrong_layout_char(key) {
        return DataAction::Hint(c);
    }
    if facts.layout == DataLayout::Edges {
        if let Some(a) = divider_key(key) {
            return a;
        }
    }
    if facts.layout == DataLayout::Window {
        if window_key(s, key) {
            return DataAction::Stay;
        }
    }
    if let Some(i) = slice_step_key(d, key, facts.slices) {
        d.slice = i;
        return DataAction::Stay;
    }
    match key.code {
        KeyCode::Char(c) => letter_key(d, s, c, facts),
        KeyCode::Backspace => DataAction::Back,
        _ => DataAction::ToDetail,
    }
}

// ---------------------------------------------------------------------------
// The size of the grid

/// The rows above the grid: name, file, dtype, statistics, blank, and the slice and the
/// column numbers where they are shown.
pub open spec fn header_rows(slices: usize, heatmap: bool) -> int {
    5 + (if slices > 1 {
        1int
    } else {
        0
    }) + (if heatmap {
        0int
    } else {
        1
    })
}

/// How many rows and columns of a tensor fit on a screen.
pub open spec fn grid_fit(
    cols: u16,
    rows: u16,
    slices: usize,
    heatmap: bool,
    footer: usize,
    cell: usize,
) -> (int, int) {
    let taken = header_rows(slices, heatmap) + footer;
    let text_rows = if rows > taken + 1 {
        rows - taken
    } else {
        1
    };
    if heatmap {
        (
            text_rows * 2,
            if cols > 2 {
                cols - 1
            } else {
                1
            },
        )
    } else {
        let fit = (if cols >= 7 {
            cols - 7
        } else {
            0int
        }) / cell as int;
        (
            text_rows,
            if fit > 1 {
                fit
            } else {
                1
            },
        )
    }
}

/// How many rows and columns of a tensor fit on a screen of `cols` by `rows` characters,
/// with the header above and `footer` rows below. The heatmap shows two rows in one
/// line; a value takes `cell` characters, behind the row's number.
pub fn grid_size(
    cols: u16,
    rows: u16,
    slices: usize,
    heatmap: bool,
    footer: usize,
    cell: usize,
) -> (r: (usize, usize))
    requires
        cell > 0,
    ensures
        (r.0 as int, r.1 as int) == grid_fit(cols, rows, slices, heatmap, footer, cell),
        r.0 > 0,
        r.1 > 0,
{
    let header: usize = 5 + (if slices > 1 {
        1usize
    } else {
        0
    }) + (if heatmap {
        0usize
    } else {
        1
    });
    let height: usize = rows as usize;
    let text_rows: usize = if height > header && height - header > footer && height - header - footer
        > 1 {
        height - header - footer
    } else {
        1
    };
    if heatmap {
        (
            text_rows * 2,
            if cols > 2 {
                (cols - 1) as usize
            } else {
                1
            },
        )
    } else {
        let wide: usize = if cols >= 7 {
            (cols - 7) as usize
        } else {
            0
        };
        let fit: usize = wide / cell;
        (
            text_rows,
            if fit > 1 {
                fit
            } else {
                1
            },
        )
    }
}

/// What a data view's sample depends on.
#[derive(Debug)]
pub struct SampleKey {
    pub tensor: String,
    pub repr: Representation,
    pub slice: usize,
    pub view: ViewDtype,
    pub mode: SampleMode,
    pub max_rows: usize,
    pub max_cols: usize,
    pub shape: Vec<usize>,
}

impl SampleKey {
    pub open spec fn equals(self, other: SampleKey) -> bool {
        &&& self.tensor@ == other.tensor@
        &&& self.repr == other.repr
        &&& self.slice == other.slice
        &&& self.view.same_view(other.view)
        &&& self.mode == other.mode
        &&& self.max_rows == other.max_rows
        &&& self.max_cols == other.max_cols
        &&& self.shape@ == other.shape@
    }

    /// Whether a sample made for the other key can be shown again.
    pub fn is_same(&self, other: &SampleKey) -> (b: bool)
        ensures
            b == self.equals(*other),
    {
        same(self.tensor.as_str(), other.tensor.as_str()) && self.repr == other.repr && self.slice
            == other.slice && self.view.is_same(other.view) && self.mode == other.mode
            && self.max_rows == other.max_rows && self.max_cols == other.max_cols && same_numbers(
            &self.shape,
            &other.shape,
        )
    }
}

impl Session {
    /// In the window layout, read the window's corner and size back from what was shown,
    /// so that panning stays inside and a long step moves by exactly one screenful. The
    /// other layouts leave the window where it is.
    pub fn window_shown(&mut self, rows: &Vec<usize>, cols: &Vec<usize>)
        requires
            old(self).wf(),
        ensures
            final(self).wf(),
            final(self).deep_view() == if old(self).deep_view().layout != DataLayout::Window {
                old(self).deep_view()
            } else {
                SessionModel {
                    window_row: if rows.len() > 0 {
                        rows@[0]
                    } else {
                        0
                    },
                    window_col: if cols.len() > 0 {
                        cols@[0]
                    } else {
                        0
                    },
                    page_rows: if rows.len() > 0 {
                        rows.len()
                    } else {
                        1
                    },
                    page_cols: if cols.len() > 0 {
                        cols.len()
                    } else {
                        1
                    },
                    ..old(self).deep_view()
                }
            },
    {
        if self.layout != DataLayout::Window {
            return;
        }
        self.window_row = if rows.len() > 0 {
            rows[0]
        } else {
            0
        };
        self.window_col = if cols.len() > 0 {
            cols[0]
        } else {
            0
        };
        self.page_rows = if rows.len() > 0 {
            rows.len()
        } else {
            1
        };
        self.page_cols = if cols.len() > 0 {
            cols.len()
        } else {
            1
        };
    }
}

// ---------------------------------------------------------------------------
// The sample of a data view

/// How many slices a data view pages through: each stored one unpacks to `unpacked`.
pub open spec fn view_slices(shape: Seq<usize>, unpacked: Option<usize>) -> int {
    match unpacked {
        Some(n) => slice_count(shape) * n,
        None => slice_count(shape) as int,
    }
}

/// How a data view is cut to the screen.
#[derive(Clone, Copy, Debug, PartialEq, Eq, Structural)]
pub struct ViewPlan {
    pub slices: usize,
    pub max_rows: usize,
    pub max_cols: usize,
    /// How many rows the edges layout shows at most.
    pub row_budget: usize,
    /// How many columns the edges layout shows at most.
    pub col_budget: usize,
}

/// Cut a data view of a tensor to a screen of `cols` by `rows` characters. `unpacked` is
/// the number of slices that one stored slice unpacks to, where the tensor is unpacked.
pub fn plan_view(
    shape: &Vec<usize>,
    unpacked: Option<usize>,
    repr: Representation,
    cols: u16,
    rows: u16,
    footer: usize,
    cell: usize,
) -> (r: ViewPlan)
    requires
        cell > 0,
        view_slices(shape@, unpacked) <= usize::MAX,
    ensures
        r.slices == view_slices(shape@, unpacked),
        (r.max_rows as int, r.max_cols as int) == grid_fit(
            cols,
            rows,
            r.slices,
            repr is Heatmap,
            footer,
            cell,
        ),
        r.row_budget == edge_count(r.max_rows as int),
        r.col_budget == edge_count(r.max_cols as int),
{
    let stored: usize = count_slices(shape);
    let slices: usize = match unpacked {
        Some(n) => stored * n,
        None => stored,
    };
    let fit = grid_size(cols, rows, slices, repr == Representation::Heatmap, footer, cell);
    ViewPlan {
        slices,
        max_rows: fit.0,
        max_cols: fit.1,
        row_budget: edge_total(fit.0),
        col_budget: edge_total(fit.1),
    }
}

// ---------------------------------------------------------------------------
// Events

/// A pop-up over a screen.
#[derive(Clone, Copy, Debug, PartialEq, Eq, Structural)]
pub enum Popup {
    Closed,
    Legend,
    Command,
}

/// What happens to a screen.
#[derive(Clone, Copy, Debug, PartialEq, Eq, Structural)]
pub enum UiEvent {
    Key(KeyEvent),
    /// A mouse button is pressed, on something that stands for a key or elsewhere.
    Press(Option<KeyEvent>),
    WheelUp,
    WheelDown,
    /// The mouse is moved or a button released.
    Motion,
    /// The screen is resized, or the like.
    Resize,
}

/// What is laid over a screen.
#[derive(Clone, Copy, Debug, PartialEq, Eq, Structural)]
pub struct Overlays {
    pub popup: Popup,
    /// A key of a wrong keyboard layout, to be hinted at.
    pub hint: Option<char>,
    /// Whether it is confirmed that the screen was copied.
    pub copied: bool,
}

/// What waits for input do.
#[derive(Clone, Copy, Debug, PartialEq, Eq, Structural)]
pub enum Wait {
    /// Wait until there is input.
    Input,
    /// Wait a moment; a running scan goes on while there is no input. Whether input makes
    /// it pause.
    WhileScanning { pause: bool },
    /// Wait until there is input, at most so many milliseconds.
    AtMost(u64),
    /// Do not wait: take the confirmation away.
    EndCopied,
}

/// How to wait for input. `copied_left` is how long a confirmation is still to be shown,
/// in milliseconds, where one is.
pub fn choose_wait(popup: Popup, scanning: bool, copied_left: Option<u64>) -> (r: Wait)
    ensures
        r == if scanning {
            Wait::WhileScanning { pause: popup == Popup::Closed }
        } else if popup != Popup::Closed {
            Wait::Input
        } else {
            match copied_left {
                Some(ms) => if ms == 0 {
                    Wait::EndCopied
                } else {
                    Wait::AtMost(ms)
                },
                None => Wait::Input,
            }
        },
{
    if scanning {
        Wait::WhileScanning { pause: popup == Popup::Closed }
    } else if popup != Popup::Closed {
        Wait::Input
    } else {
        match copied_left {
            Some(ms) => if ms == 0 {
                Wait::EndCopied
            } else {
                Wait::AtMost(ms)
            },
            None => Wait::Input,
        }
    }
}

/// Whether an event takes the confirmation of a copy away on the detail screen.
pub open spec fn is_fresh(ev: UiEvent) -> bool {
    ev is Key || ev is Press || ev is WheelUp || ev is WheelDown
}

/// The key that an event stands for, where no pop-up is up.
pub open spec fn key_of(ev: UiEvent) -> Option<KeyEvent> {
    match ev {
        UiEvent::Key(k) => Some(k),
        UiEvent::Press(k) => k,
        _ => None,
    }
}

/// What a pop-up makes of an event: a key or a press closes it, and nothing else happens.
pub open spec fn popup_after(o: Overlays, ev: UiEvent) -> (Overlays, bool) {
    match ev {
        UiEvent::Key(k) => if k.ctrl_c() {
            (o, true)
        } else {
            (Overlays { popup: Popup::Closed, ..o }, false)
        },
        UiEvent::Press(_) => (Overlays { popup: Popup::Closed, ..o }, false),
        _ => (o, false),
    }
}

/// What lies over the screen after an action on the detail screen.
pub open spec fn overlaid(o: Overlays, a: DetailAction) -> Overlays {
    match a {
        DetailAction::Hint(c) => Overlays { hint: Some(c), ..o },
        DetailAction::CopyScreen => Overlays { copied: true, ..o },
        DetailAction::ShowCommand => Overlays { popup: Popup::Command, ..o },
        DetailAction::ShowLegend => Overlays { popup: Popup::Legend, ..o },
        _ => o,
    }
}

/// What an event does on the detail screen.
pub open spec fn detail_event_after(o: Overlays, ev: UiEvent, overridable: bool) -> (
    Overlays,
    DetailAction,
) {
    let seen = if is_fresh(ev) {
        Overlays { copied: false, ..o }
    } else {
        o
    };
    if o.popup != Popup::Closed {
        let (next, quit) = popup_after(seen, ev);
        (
            next,
            if quit {
                DetailAction::QuitNow
            } else if next.popup == o.popup {
                DetailAction::Stay
            } else {
                DetailAction::Dismiss
            },
        )
    } else {
        match ev {
            UiEvent::Resize => (Overlays { hint: None, ..seen }, DetailAction::Stay),
            _ => match key_of(ev) {
                Some(k) => {
                    let a = detail_after(k, false, overridable);
                    (overlaid(Overlays { hint: None, ..seen }, a), a)
                },
                None => (seen, DetailAction::Stay),
            },
        }
    }
}

fn close_popup(o: &mut Overlays, ev: &UiEvent) -> (quit: bool)
    ensures
        (*final(o), quit) == popup_after(*old(o), *ev),
{
    match ev {
        UiEvent::Key(k) => if is_ctrl_c(k) {
            true
        } else {
            o.popup = Popup::Closed;
            false
        },
        UiEvent::Press(_) => {
            o.popup = Popup::Closed;
            false
        },
        _ => false,
    }
}

fn event_key(ev: &UiEvent) -> (k: Option<KeyEvent>)
    ensures
        k == key_of(*ev),
{
    match ev {
        UiEvent::Key(k) => Some(*k),
        UiEvent::Press(k) => *k,
        _ => None,
    }
}

/// An event on the detail screen: what lies over it changes, and the action that is to be
/// done elsewhere is returned.
pub fn detail_event(o: &mut Overlays, ev: &UiEvent, overridable: bool) -> (r: DetailAction)
    ensures
        (*final(o), r) == detail_event_after(*old(o), *ev, overridable),
{
    let fresh = match ev {
        UiEvent::Key(_) | UiEvent::Press(_) | UiEvent::WheelUp | UiEvent::WheelDown => true,
        _ => false,
    };
    if fresh {
        o.copied = false;
    }
    if o.popup != Popup::Closed {
        let before = o.popup;
        let quit = close_popup(o, ev);
        return if quit {
            DetailAction::QuitNow
        } else if o.popup == before {
            DetailAction::Stay
        } else {
            DetailAction::Dismiss
        };
    }
    if let UiEvent::Resize = ev {
        o.hint = None;
        return DetailAction::Stay;
    }
    let key = match event_key(ev) {
        Some(k) => k,
        None => {
            return DetailAction::Stay;
        },
    };
    o.hint = None;
    let a = detail_key(&key, false, overridable);
    match a {
        DetailAction::Hint(c) => {
            o.hint = Some(c);
        },
        DetailAction::CopyScreen => {
            o.copied = true;
        },
        DetailAction::ShowCommand => {
            o.popup = Popup::Command;
        },
        DetailAction::ShowLegend => {
            o.popup = Popup::Legend;
        },
        _ => {},
    }
    a
}

/// What lies over a data view after an action.
pub open spec fn data_overlaid(o: Overlays, a: DataAction) -> Overlays {
    match a {
        DataAction::Hint(c) => Overlays { hint: Some(c), ..o },
        DataAction::QuitNow => o,
        DataAction::CopyScreen => Overlays { copied: true, ..o },
        DataAction::ShowCommand => Overlays { popup: Popup::Command, copied: false, ..o },
        DataAction::ShowLegend(_) => Overlays { popup: Popup::Legend, copied: false, ..o },
        _ => Overlays { copied: false, ..o },
    }
}

/// What an event does in a data view: what lies over it, what it shows, the session, and
/// what is to be done elsewhere.
pub open spec fn data_event_after(
    o: Overlays,
    d: DataState,
    s: SessionModel,
    ev: UiEvent,
    facts: DataFacts,
) -> (Overlays, DataState, SessionModel, DataAction) {
    if o.popup != Popup::Closed {
        let (next, quit) = popup_after(o, ev);
        (
            next,
            d,
            s,
            if quit {
                DataAction::QuitNow
            } else if next.popup == o.popup {
                DataAction::Stay
            } else {
                DataAction::Dismiss
            },
        )
    } else {
        let clear = Overlays { hint: None, ..o };
        match key_of(ev) {
            Some(k) => {
                let (d1, s1, a) = data_after(d, s, k, false, facts);
                (data_overlaid(clear, a), d1, s1, a)
            },
            None => match ev {
                UiEvent::WheelDown => (
                    clear,
                    DataState {
                        slice: slice_on(d.slice as int, facts.slices as int, 1) as usize,
                        ..d
                    },
                    s,
                    DataAction::Stay,
                ),
                UiEvent::WheelUp => (
                    clear,
                    DataState {
                        slice: slice_back(d.slice as int, facts.slices as int, 1) as usize,
                        ..d
                    },
                    s,
                    DataAction::Stay,
                ),
                _ => (clear, d, s, DataAction::Stay),
            },
        }
    }
}

/// An event in a data view. The wheel steps through the slices.
pub fn data_event(o: &mut Overlays, d: &mut DataState, s: &mut Session, ev: &UiEvent, facts: DataFacts) -> (r:
    DataAction)
    requires
        old(s).wf(),
        old(d).slice < facts.slices,
    ensures
        final(s).wf(),
        final(d).slice < facts.slices,
        (*final(o), *final(d), final(s).deep_view(), r) == data_event_after(
            *old(o),
            *old(d),
            old(s).deep_view(),
            *ev,
            facts,
        ),
{
    if o.popup != Popup::Closed {
        let before = o.popup;
        let quit = close_popup(o, ev);
        return if quit {
            DataAction::QuitNow
        } else if o.popup == before {
            DataAction::Stay
        } else {
            DataAction::Dismiss
        };
    }
    o.hint = None;
    let key = match event_key(ev) {
        Some(k) => k,
        None => {
            match ev {
                UiEvent::WheelDown => {
                    d.slice = forward_slice(d.slice, facts.slices, 1);
                },
                UiEvent::WheelUp => {
                    d.slice = backward_slice(d.slice, facts.slices, 1);
                },
                _ => {},
            }
            return DataAction::Stay;
        },
    };
    let a = data_key(d, s, &key, false, facts);
    match a {
        DataAction::Hint(c) => {
            o.hint = Some(c);
        },
        DataAction::QuitNow => {},
        DataAction::CopyScreen => {
            o.copied = true;
        },
        DataAction::ShowCommand => {
            o.popup = Popup::Command;
            o.copied = false;
        },
        DataAction::ShowLegend(_) => {
            o.popup = Popup::Legend;
            o.copied = false;
        },
        _ => {
            o.copied = false;
        },
    }
    a
}

/// While a pop-up is up, an event does nothing to the screen below it: a data view keeps
/// its slice, its representation and the session, and nothing is done but closing the
/// pop-up or leaving the program.
pub proof fn law_popups_guard_the_screen(
    o: Overlays,
    d: DataState,
    s: SessionModel,
    ev: UiEvent,
    facts: DataFacts,
    overridable: bool,
)
    requires
        o.popup != Popup::Closed,
    ensures
        ({
            let (o1, d1, s1, a) = data_event_after(o, d, s, ev, facts);
            &&& d1 == d
            &&& s1 == s
            &&& a is Stay || a is Dismiss || a is QuitNow
            &&& a is Dismiss <==> o1.popup == Popup::Closed
        }),
        ({
            let (o1, a) = detail_event_after(o, ev, overridable);
            &&& a is Stay || a is Dismiss || a is QuitNow
            &&& a is Dismiss <==> o1.popup == Popup::Closed
        }),
{
}

// ---------------------------------------------------------------------------
// The scan of a histogram

/// How far the scan of a histogram is.
#[derive(Clone, Copy, Debug, PartialEq, Eq, Structural)]
pub enum ScanPhase {
    /// The bars are filling.
    Filling,
    /// The scan has ended; a pop-up is still up.
    Lingering,
    /// The histogram is there.
    Kept,
    /// The scan was given up.
    Dropped,
    /// The scan failed.
    Failed,
}

/// The scan of a histogram while it is watched.
#[derive(Clone, Copy, Debug, PartialEq, Eq, Structural)]
pub struct HistogramScan {
    pub popup: Popup,
    pub phase: ScanPhase,
}

impl HistogramScan {
    /// A scan that begins.
    pub fn new() -> (s: HistogramScan)
        ensures
            s == (HistogramScan { popup: Popup::Closed, phase: ScanPhase::Filling }),
    {
        HistogramScan { popup: Popup::Closed, phase: ScanPhase::Filling }
    }

    /// The scan after a key: the legend and the command come up over the bars and any key
    /// closes them; any other key gives the scan up.
    pub open spec fn after_key(self, key: KeyEvent) -> HistogramScan {
        if key.ctrl_c() {
            self
        } else {
            match self.phase {
                ScanPhase::Filling => if self.popup != Popup::Closed {
                    HistogramScan { popup: Popup::Closed, ..self }
                } else if key.code == KeyCode::Char('l') {
                    HistogramScan { popup: Popup::Legend, ..self }
                } else if key.code == KeyCode::Char('y') {
                    HistogramScan { popup: Popup::Command, ..self }
                } else {
                    HistogramScan { phase: ScanPhase::Dropped, ..self }
                },
                ScanPhase::Lingering => HistogramScan {
                    popup: Popup::Closed,
                    phase: ScanPhase::Kept,
                },
                _ => self,
            }
        }
    }

    /// The scan after it ended.
    pub open spec fn after_end(self, success: bool) -> HistogramScan {
        if self.phase != ScanPhase::Filling {
            self
        } else if !success {
            HistogramScan { phase: ScanPhase::Failed, ..self }
        } else if self.popup != Popup::Closed {
            HistogramScan { phase: ScanPhase::Lingering, ..self }
        } else {
            HistogramScan { phase: ScanPhase::Kept, ..self }
        }
    }

    /// A key while the scan is watched. Returns whether to leave the program.
    pub fn key(&mut self, key: &KeyEvent) -> (quit: bool)
        ensures
            *final(self) == old(self).after_key(*key),
            quit == key.ctrl_c(),
    {
        if is_ctrl_c(key) {
            return true;
        }
        match self.phase {
            ScanPhase::Filling => {
                if self.popup != Popup::Closed {
                    self.popup = Popup::Closed;
                } else if key.code == KeyCode::Char('l') {
                    self.popup = Popup::Legend;
                } else if key.code == KeyCode::Char('y') {
                    self.popup = Popup::Command;
                } else {
                    self.phase = ScanPhase::Dropped;
                }
            },
            ScanPhase::Lingering => {
                self.popup = Popup::Closed;
                self.phase = ScanPhase::Kept;
            },
            _ => {},
        }
        false
    }

    /// The scan has ended.
    pub fn end(&mut self, success: bool)
        ensures
            *final(self) == old(self).after_end(success),
    {
        if self.phase == ScanPhase::Filling {
            self.phase = if !success {
                ScanPhase::Failed
            } else if self.popup != Popup::Closed {
                ScanPhase::Lingering
            } else {
                ScanPhase::Kept
            };
        }
    }
}

/// A pop-up never gives the scan up: the key that opens it and the key that closes it
/// leave the bars filling. A scan that was given up is not kept afterwards.
pub proof fn law_popups_spare_the_scan(s: HistogramScan, key: KeyEvent, success: bool)
    ensures
        s.phase == ScanPhase::Filling && s.popup != Popup::Closed ==> s.after_key(key).phase
            == ScanPhase::Filling,
        s.phase == ScanPhase::Filling && (key.code == KeyCode::Char('l') || key.code
            == KeyCode::Char('y')) ==> s.after_key(key).phase == ScanPhase::Filling,
        s.phase == ScanPhase::Dropped ==> s.after_key(key).phase == ScanPhase::Dropped
            && s.after_end(success).phase == ScanPhase::Dropped,
{
}

/// What is to be done about the statistics that were asked for.
#[derive(Clone, Copy, Debug, PartialEq, Eq, Structural)]
pub enum StatsStep {
    /// They are there, or the scan has ended.
    Completed,
    /// Leave the program.
    QuitNow,
    /// The scan is given up.
    Cancelled,
    /// Show the progress.
    Show,
    /// Wait.
    Wait,
}

/// What is to be done about the statistics that were asked for, whose scan is watched:
/// any key gives it up.
pub fn stats_step(cached: bool, ended: bool, elapsed_ms: u64, key: Option<KeyEvent>) -> (r: StatsStep)
    ensures
        r == if cached || ended {
            StatsStep::Completed
        } else {
            match key {
                Some(k) => if k.ctrl_c() {
                    StatsStep::QuitNow
                } else {
                    StatsStep::Cancelled
                },
                None => if elapsed_ms >= SPINNER_DELAY_MS {
                    StatsStep::Show
                } else {
                    StatsStep::Wait
                },
            }
        },
{
    if cached || ended {
        return StatsStep::Completed;
    }
    match key {
        Some(k) => if is_ctrl_c(&k) {
            StatsStep::QuitNow
        } else {
            StatsStep::Cancelled
        },
        None => if elapsed_ms >= SPINNER_DELAY_MS {
            StatsStep::Show
        } else {
            StatsStep::Wait
        },
    }
}

// ---------------------------------------------------------------------------
// Where the keys lead

/// Panning goes one row or column at a time, with Shift a page, with Control to the end; the
/// way back undoes it where neither end was reached.
pub proof fn law_panning_is_undone(at: usize, page: usize, shift: bool)
    requires
        at + page < usize::MAX,
    ensures
        panned(at, true, page, false, false) == at + 1,
        page > 1 ==> panned(at, true, page, true, false) == at + page,
        panned(at, true, page, shift, true) == usize::MAX,
        panned(at, false, page, shift, true) == 0,
        panned(panned(at, true, page, shift, false), false, page, shift, false) == at,
        at > 0 ==> panned(at, false, page, false, false) == at - 1,
        panned(0, false, page, shift, false) == 0,
{
}

/// In a window, Down and Up move its rows, Right and Left its columns, the one undoing the
/// other; nothing else changes.
pub proof fn law_windows_pan_both_ways(s: SessionModel, key: KeyEvent, back: KeyEvent)
    requires
        !key.modifiers.control,
        back.modifiers == key.modifiers,
        s.window_row + s.page_rows < usize::MAX,
        s.window_col + s.page_cols < usize::MAX,
    ensures
        key.code == KeyCode::Down && back.code == KeyCode::Up ==> ({
            let there = window_after(s, key);
            &&& there is Some
            &&& there->0.window_row > s.window_row
            &&& there->0 == SessionModel { window_row: there->0.window_row, ..s }
            &&& window_after(there->0, back) == Some(s)
        }),
        key.code == KeyCode::Right && back.code == KeyCode::Left ==> ({
            let there = window_after(s, key);
            &&& there is Some
            &&& there->0.window_col > s.window_col
            &&& there->0 == SessionModel { window_col: there->0.window_col, ..s }
            &&& window_after(there->0, back) == Some(s)
        }),
        key.code == KeyCode::Home ==> window_after(s, key) == Some(SessionModel { window_col: 0, ..s }),
        key.code == KeyCode::PageUp ==> window_after(s, key) == Some(
            SessionModel { window_row: 0, ..s },
        ),
{
    law_panning_is_undone(s.window_row, s.page_rows, key.modifiers.shift);
    law_panning_is_undone(s.window_col, s.page_cols, key.modifiers.shift);
}

/// Up and Left give more room to the tail, Down and Right to the head; Up and Down of the
/// rows, Left and Right of the columns.
pub proof fn law_dividers_move_both_ways(key: KeyEvent)
    ensures
        key.code == KeyCode::Up || key.code == KeyCode::Down || key.code == KeyCode::Left || key.code
            == KeyCode::Right <==> divider_after(key) is Some,
        divider_after(key) matches Some(a) ==> a is MoveDivider && a->rows == (key.code
            == KeyCode::Up || key.code == KeyCode::Down) && a->toward_tail == (key.code
            == KeyCode::Up || key.code == KeyCode::Left) && a->all_the_way == key.modifiers.shift,
{
}

/// The brackets, and the arrows to the sides, go to the next slice and back, around the ends;
/// where there is one slice they do nothing.
pub proof fn law_slices_go_around(d: DataState, key: KeyEvent, slices: usize)
    requires
        slices > 1,
        d.slice < slices,
        !key.modifiers.shift,
    ensures
        key.code == KeyCode::Char(']') || key.code == KeyCode::Right ==> slice_after_key(
            d,
            key,
            slices,
        ) == Some(
            DataState {
                slice: if d.slice + 1 < slices {
                    (d.slice + 1) as usize
                } else {
                    0
                },
                ..d
            },
        ),
        key.code == KeyCode::Char('[') || key.code == KeyCode::Left ==> slice_after_key(
            d,
            key,
            slices,
        ) == Some(
            DataState {
                slice: if d.slice > 0 {
                    (d.slice - 1) as usize
                } else {
                    (slices - 1) as usize
                },
                ..d
            },
        ),
        slice_after_key(d, key, 1) is None,
{
    let (n, at) = (slices as int, d.slice as int);
    if at + 1 < n {
        vstd::arithmetic::div_mod::lemma_small_mod((at + 1) as nat, n as nat);
    } else {
        vstd::arithmetic::div_mod::lemma_mod_self_0(n);
    }
    if at > 0 {
        vstd::arithmetic::div_mod::lemma_small_mod((at - 1) as nat, n as nat);
        vstd::arithmetic::div_mod::lemma_mod_add_multiples_vanish(at - 1, n);
        assert((at + n - 1) % n == at - 1);
    } else {
        vstd::arithmetic::div_mod::lemma_small_mod((n - 1) as nat, n as nat);
    }
}

/// `m` shows the heatmap and `v` the values; `e` goes through the three layouts, `z` through
/// the three ways of striping and `b` through the four bases, and none of them touches what
/// the others turn.
pub proof fn law_letters_turn_one_thing(d: DataState, s: SessionModel, facts: DataFacts)
    ensures
        letter_after(d, s, 'm', facts) == (
            DataState { repr: Representation::Heatmap, ..d },
            s,
            DataAction::Stay,
        ),
        letter_after(d, s, 'v', facts) == (
            DataState { repr: Representation::Values, ..d },
            s,
            DataAction::Stay,
        ),
        ({
            let once = letter_after(d, s, 'e', facts).1;
            let twice = letter_after(d, once, 'e', facts).1;
            &&& once == SessionModel { layout: once.layout, ..s }
            &&& once.layout != s.layout
            &&& twice.layout != s.layout
            &&& twice.layout != once.layout
            &&& letter_after(d, twice, 'e', facts).1 == s
        }),
        ({
            let once = letter_after(d, s, 'z', facts).1;
            let twice = letter_after(d, once, 'z', facts).1;
            &&& once == SessionModel { stripe: once.stripe, ..s }
            &&& once.stripe != s.stripe
            &&& twice.stripe != s.stripe
            &&& twice.stripe != once.stripe
            &&& letter_after(d, twice, 'z', facts).1 == s
        }),
        ({
            let once = letter_after(d, s, 'b', facts).1;
            let twice = letter_after(d, once, 'b', facts).1;
            let thrice = letter_after(d, twice, 'b', facts).1;
            &&& once == SessionModel { base: once.base, ..s }
            &&& once.base != s.base
            &&& twice.base != s.base
            &&& thrice.base != s.base
            &&& letter_after(d, thrice, 'b', facts).1 == s
        }),
        facts.overridable ==> letter_after(d, s, 'd', facts).2 == DataAction::AskDtype
            && letter_after(d, s, 'r', facts).2 == DataAction::AskShape,
        facts.slices > 1 ==> letter_after(d, s, '/', facts).2 == DataAction::AskSlice,
        letter_after(d, s, 'c', facts).2 == DataAction::CopyScreen,
        letter_after(d, s, 'y', facts).2 == DataAction::ShowCommand,
{
}

/// The grid takes the rows that its header and the footer leave; a heatmap shows two of its
/// rows in each of them; neither is wider than the screen.
pub proof fn law_grids_fit_the_screen(
    cols: u16,
    rows: u16,
    slices: usize,
    footer: usize,
    cell: usize,
)
    requires
        rows > 8 + footer,
        cols > 7 + cell,
        cell > 0,
    ensures
        ({
            let (r, c) = grid_fit(cols, rows, slices, false, footer, cell);
            &&& r + header_rows(slices, false) + footer == rows
            &&& c >= 1
            &&& 7 + c * cell <= cols
            &&& cols < 7 + (c + 1) * cell
        }),
        ({
            let (r, c) = grid_fit(cols, rows, slices, true, footer, cell);
            &&& r == 2 * (rows - header_rows(slices, true) - footer)
            &&& c == cols - 1
        }),
        header_rows(slices, false) == header_rows(slices, true) + 1,
        slices > 1 ==> header_rows(slices, true) == header_rows(1, true) + 1,
{
    let (w, k) = (cols - 7, cell as int);
    let q = w / k;
    vstd::arithmetic::div_mod::lemma_fundamental_div_mod(w, k);
    assert(q * k <= w < (q + 1) * k) by (nonlinear_arith)
        requires
            w == k * q + w % k,
            0 <= w % k < k,
    ;
    assert(q >= 1) by (nonlinear_arith)
        requires
            k <= w < (q + 1) * k,
            k > 0,
    ;
}

/// A scan that is cached is not run again; one that is not asked for waits; one of another
/// view is begun anew; one that is done is taken.
pub proof fn law_scans_run_once(view: ViewDtype, other: ViewDtype, done: bool, ms: u64)
    requires
        !other.same_view(view),
        view.same_view(view),
    ensures
        scan_after(true, true, Some(view), view, done, ms) == ScanStep::Ready,
        scan_after(false, false, Some(view), view, done, ms) == ScanStep::Pending,
        scan_after(false, true, None, view, done, ms) == ScanStep::Start,
        scan_after(false, true, Some(other), view, done, ms) == ScanStep::Start,
        scan_after(false, true, Some(view), view, true, ms) == ScanStep::Harvest,
{
}

/// A sample is kept for the same tensor, shown the same way: any difference asks for another.
pub proof fn law_samples_are_kept_for_the_same_view(a: SampleKey, b: SampleKey)
    ensures
        a.equals(b) ==> b.equals(a),
        a.equals(b) ==> a.tensor@ == b.tensor@ && a.repr == b.repr && a.slice == b.slice && a.mode
            == b.mode && a.max_rows == b.max_rows && a.max_cols == b.max_cols && a.shape@ == b.shape@
            && a.view.same_view(b.view),
        a.tensor@ != b.tensor@ || a.slice != b.slice || a.shape@ != b.shape@ ==> !a.equals(b),
        view_slices(a.shape@, None) == slice_count(a.shape@),
        view_slices(a.shape@, Some(3)) == 3 * slice_count(a.shape@),
{
}

} // verus!
