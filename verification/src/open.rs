//! Opening what was asked for on the command line.
use vstd::prelude::*;

use crate::explorer::{Browsing, Explorer};
use crate::inputs::{parse_shape_input, parse_slice_input, shape_read, slice_read, Percent};
use crate::namemap::has_row;
use crate::sample::ViewDtype;
use crate::screens::{DataLayout, Representation, Screen, ScreenModel};
use crate::session::{
    dtype_overridable, readable_bytes, NumBase, Override, Session, SessionModel, StripeMode, TreeState,
};
use crate::text::same;
use crate::tree::{all_set, groups_are, law_all_set, MetadataInfo, MetadataModel, TensorInfo};
use crate::tree::TensorModel;

verus! {

/// Which screen is asked for.
#[derive(Clone, Copy, Debug, PartialEq, Eq, Structural)]
pub enum OpenView {
    Detail,
    Values,
    Heatmap,
    /// The tree, with the tensor revealed in it.
    Tree,
}

/// How what was asked for is shown.
#[derive(Clone, Copy, Debug, PartialEq, Eq, Structural)]
pub enum OpenMode {
    /// The first screen of the browser.
    Interactive,
    /// Drawn once.
    OneShot,
    /// Written as text.
    Headless,
}

/// A tensor and a view to open at the start.
#[derive(Debug)]
pub struct OpenRequest {
    /// The tensor's name; `None` for the only tensor of the checkpoint.
    pub tensor: Option<String>,
    /// A metadata entry to reveal in the tree.
    pub metadata: Option<String>,
    pub view: OpenView,
    /// Whether the histogram is shown on the detail screen.
    pub histogram: bool,
    /// The number of bins; shows the histogram too.
    pub bins: Option<usize>,
    pub dtype: Option<Override>,
    pub layout: Option<DataLayout>,
    /// The corner of the window: row and column.
    pub window_at: Option<(usize, usize)>,
    /// The shares of the last rows and columns among the edges, as `ROWS,COLUMNS`.
    pub edge_split: Option<String>,
    pub zebra: Option<StripeMode>,
    pub base: Option<NumBase>,
    /// An index or a percentage.
    pub slice: Option<String>,
    /// The dimensions of a reshape.
    pub shape: Option<String>,
    /// Whether the statistics are computed at once.
    pub compute_stats: bool,
    pub tree_state: Option<TreeState>,
    /// A query to open the search with.
    pub search: Option<String>,
    /// Whether the screen's legend is laid over it.
    pub legend: bool,
    /// Whether the view is drawn once, without the browser.
    pub exit_after: bool,
}

/// Why a request cannot be met: what is shown in the browser, and the error otherwise.
#[derive(Debug)]
pub struct Rejected {
    pub title: String,
    pub detail: String,
    pub error: String,
}

/// The mathematical content of a [`Rejected`].
pub struct RejectedModel {
    pub title: Seq<char>,
    pub detail: Seq<char>,
    pub error: Seq<char>,
}

impl DeepView for Rejected {
    type V = RejectedModel;

    open spec fn deep_view(&self) -> RejectedModel {
        RejectedModel { title: self.title@, detail: self.detail@, error: self.error@ }
    }
}

// ---------------------------------------------------------------------------
// The target

/// The browser with the state of the tree and the search that were asked for.
pub open spec fn set_up(b: Browsing, req: OpenRequest) -> Browsing {
    let expanded = match req.tree_state {
        Some(TreeState::Expanded) => b.with_tree(all_set(b.tree, true)).at_top(),
        Some(TreeState::Collapsed) => b.with_tree(all_set(b.tree, false)).at_top(),
        None => b,
    };
    match req.search {
        Some(q) => expanded.searched(q@),
        None => expanded,
    }
}

/// The first tensor with a name, from the `i`-th on.
pub open spec fn tensor_named(ts: Seq<TensorModel>, name: Seq<char>, i: int) -> Option<usize>
    decreases ts.len() - i,
{
    if i < 0 || i >= ts.len() {
        None
    } else if ts[i].name == name {
        Some(i as usize)
    } else {
        tensor_named(ts, name, i + 1)
    }
}

/// Whether there is a metadata entry with a name.
pub open spec fn has_metadata(ms: Seq<MetadataModel>, name: Seq<char>) -> bool {
    exists|i: int| 0 <= i < ms.len() && (#[trigger] ms[i]).name == name
}

/// What a request that names no such entry is answered.
pub open spec fn metadata_missing(name: Seq<char>) -> RejectedModel {
    RejectedModel {
        title: "Metadata not found"@,
        detail: "No metadata entry named '"@ + name
            + "' in this checkpoint — opening the browser instead."@,
        error: "no metadata entry named '"@ + name + "' in this checkpoint"@,
    }
}

/// What a request that names no such tensor is answered.
pub open spec fn tensor_missing(name: Seq<char>) -> RejectedModel {
    RejectedModel {
        title: "Tensor not found"@,
        detail: "No tensor named '"@ + name
            + "' in this checkpoint — opening the browser instead."@,
        error: "no tensor named '"@ + name + "' in this checkpoint"@,
    }
}

/// What a request is answered that names no tensor where there are several.
pub open spec fn tensor_ambiguous() -> RejectedModel {
    RejectedModel {
        title: "Which tensor?"@,
        detail: "This checkpoint has multiple tensors — name one with --tensor, or pick it in the browser."@,
        error: "this checkpoint has multiple tensors; name one with --tensor"@,
    }
}

/// The tensor that a request is about, if it is about one.
pub open spec fn target_of(b: Browsing, req: OpenRequest) -> Result<Option<usize>, RejectedModel> {
    match req.metadata {
        Some(name) => if has_metadata(b.metadata, name@) {
            Ok(None)
        } else {
            Err(metadata_missing(name@))
        },
        None => match req.tensor {
            Some(name) => match tensor_named(b.tensors, name@, 0) {
                Some(i) => Ok(Some(i)),
                None => Err(tensor_missing(name@)),
            },
            None => if req.view is Tree || b.tensors.len() == 0 {
                Ok(None)
            } else if b.tensors.len() == 1 {
                Ok(Some(0))
            } else {
                Err(tensor_ambiguous())
            },
        },
    }
}

/// The browser after the target was looked up: a metadata entry is revealed in it.
pub open spec fn looked_up(b: Browsing, req: OpenRequest) -> Browsing {
    let ready = set_up(b, req);
    match req.metadata {
        Some(name) => if has_metadata(b.metadata, name@) {
            ready.revealed(name@)
        } else {
            ready
        },
        None => ready,
    }
}

pub fn find_tensor(ts: &Vec<TensorInfo>, name: &str) -> (r: Option<usize>)
    ensures
        r == tensor_named(ts.deep_view(), name@, 0),
        r is Some ==> r->0 < ts.len(),
{
    let ghost all = ts.deep_view();
    let mut i: usize = 0;
    while i < ts.len()
        invariant
            i <= ts.len(),
            all == ts.deep_view(),
            tensor_named(all, name@, i as int) == tensor_named(all, name@, 0),
        decreases ts.len() - i,
    {
        proof {
            assert(all[i as int] == ts@[i as int].deep_view());
        }
        if same(ts[i].name.as_str(), name) {
            return Some(i);
        }
        i = i + 1;
    }
    None
}

fn metadata_named(ms: &Vec<MetadataInfo>, name: &str) -> (b: bool)
    ensures
        b == has_metadata(ms.deep_view(), name@),
{
    let ghost all = ms.deep_view();
    let mut i: usize = 0;
    while i < ms.len()
        invariant
            i <= ms.len(),
            all == ms.deep_view(),
            forall|k: int| 0 <= k < i ==> (#[trigger] all[k]).name != name@,
        decreases ms.len() - i,
    {
        proof {
            assert(all[i as int] == ms@[i as int].deep_view());
        }
        if same(ms[i].name.as_str(), name) {
            return true;
        }
        i = i + 1;
    }
    false
}

impl Explorer {
    /// Bring the tree into the state that was asked for and find the tensor that the
    /// request is about. `None` shows the tree, with a metadata entry revealed in it
    /// where one was asked for.
    pub fn open_target(&mut self, req: &OpenRequest) -> (r: Result<Option<usize>, Rejected>)
        ensures
            final(self).deep_view() == looked_up(old(self).deep_view(), *req),
            match r {
                Ok(t) => target_of(old(self).deep_view(), *req) == Ok::<
                    Option<usize>,
                    RejectedModel,
                >(t),
                Err(e) => target_of(old(self).deep_view(), *req) == Err::<
                    Option<usize>,
                    RejectedModel,
                >(e.deep_view()),
            },
            r matches Ok(Some(i)) ==> i < final(self).tensors.len(),
    {
        match req.tree_state {
            Some(TreeState::Expanded) => self.set_all_expanded(true),
            Some(TreeState::Collapsed) => self.set_all_expanded(false),
            None => {},
        }
        if let Some(q) = &req.search {
            self.open_search(q.as_str());
        }
        if let Some(name) = &req.metadata {
            if metadata_named(&self.metadata, name.as_str()) {
                self.reveal_tensor(name.as_str());
                return Ok(None);
            }
            return Err(
                Rejected {
                    title: "Metadata not found".to_owned(),
                    detail: "No metadata entry named '".to_owned().concat(name.as_str()).concat(
                        "' in this checkpoint — opening the browser instead.",
                    ),
                    error: "no metadata entry named '".to_owned().concat(name.as_str()).concat(
                        "' in this checkpoint",
                    ),
                },
            );
        }
        match &req.tensor {
            Some(name) => match find_tensor(&self.tensors, name.as_str()) {
                Some(i) => Ok(Some(i)),
                None => Err(
                    Rejected {
                        title: "Tensor not found".to_owned(),
                        detail: "No tensor named '".to_owned().concat(name.as_str()).concat(
                            "' in this checkpoint — opening the browser instead.",
                        ),
                        error: "no tensor named '".to_owned().concat(name.as_str()).concat(
                            "' in this checkpoint",
                        ),
                    },
                ),
            },
            None => {
                if req.view == OpenView::Tree || self.tensors.len() == 0 {
                    Ok(None)
                } else if self.tensors.len() == 1 {
                    Ok(Some(0))
                } else {
                    Err(
                        Rejected {
                            title: "Which tensor?".to_owned(),
                            detail: "This checkpoint has multiple tensors — name one with --tensor, or pick it in the browser.".to_owned(),
                            error: "this checkpoint has multiple tensors; name one with --tensor".to_owned(),
                        },
                    )
                }
            },
        }
    }
}

// ---------------------------------------------------------------------------
// The overrides

/// The dimensions other than one.
pub open spec fn wide(shape: Seq<usize>) -> Seq<usize> {
    shape.filter(|d: usize| d != 1)
}

/// How many slices a shape has: three dimensions other than one make a stack of slices,
/// which may be empty; any other shape is a single one.
pub open spec fn slice_count(shape: Seq<usize>) -> usize {
    if wide(shape).len() == 3 {
        wide(shape)[0]
    } else {
        1
    }
}

/// How many slices a shape has. Dimensions of one do not count, so that a tensor of
/// shape (N, M, 1, K) has N.
pub fn count_slices(shape: &Vec<usize>) -> (r: usize)
    ensures
        r == slice_count(shape@),
{
    let ghost all = shape@;
    let ghost keep = |d: usize| d != 1;
    let mut n: usize = 0;
    let mut first: usize = 0;
    let mut i: usize = 0;
    proof {
        reveal(Seq::filter);
    }
    while i < shape.len()
        invariant
            i <= shape.len(),
            n <= i,
            all == shape@,
            keep == (|d: usize| d != 1),
            n == all.take(i as int).filter(keep).len(),
            n > 0 ==> first == all.take(i as int).filter(keep)[0],
        decreases shape.len() - i,
    {
        proof {
            reveal(Seq::filter);
            assert(all.take(i + 1).drop_last() =~= all.take(i as int));
            assert(all.take(i + 1).last() == all[i as int]);
        }
        if shape[i] != 1 {
            if n == 0 {
                first = shape[i];
            }
            n = n + 1;
        }
        i = i + 1;
    }
    proof {
        assert(all.take(all.len() as int) =~= all);
    }
    if n == 3 {
        first
    } else {
        1
    }
}

/// The view that is applied: unpacking only where there is something to unpack.
pub open spec fn view_for(s: SessionModel, name: Seq<char>, o: (ViewDtype, Option<Seq<char>>)) -> (
    ViewDtype,
    Option<Seq<char>>,
) {
    if o.0.same_view(ViewDtype::Unpacked) && !s.is_packed(name) {
        (s.default_view(name), o.1)
    } else {
        o
    }
}

/// The session with the dtype that was asked for.
pub open spec fn with_requested_view(s: SessionModel, t: TensorModel, req: OpenRequest) -> SessionModel {
    match req.dtype {
        Some(o) => if readable_bytes(t.source_path) {
            let v = view_for(s, t.name, o.deep_view());
            s.with_view(t.name, v.0, v.1)
        } else {
            s
        },
        None => s,
    }
}

/// The shape that was asked for, read.
pub open spec fn requested_shape(t: TensorModel, req: OpenRequest) -> Option<
    Result<Seq<usize>, Seq<char>>,
> {
    match req.shape {
        Some(text) => if readable_bytes(t.source_path) {
            Some(shape_read(text@, t.num_elements))
        } else {
            None
        },
        None => None,
    }
}

/// The split of the edges as a session keeps it: the even one is not written.
pub open spec fn split_kept(text: Seq<char>) -> Option<Seq<char>> {
    if text == "0.5,0.5"@ {
        None
    } else {
        Some(text)
    }
}

/// The session with the layout, stripes and base that were asked for.
pub open spec fn with_requested_layout(s: SessionModel, req: OpenRequest) -> SessionModel {
    SessionModel {
        layout: match req.layout {
            Some(l) => l,
            None => s.layout,
        },
        window_row: match req.window_at {
            Some(at) => at.0,
            None => s.window_row,
        },
        window_col: match req.window_at {
            Some(at) => at.1,
            None => s.window_col,
        },
        edge_split: match req.edge_split {
            Some(text) => split_kept(text@),
            None => s.edge_split,
        },
        stripe: match req.zebra {
            Some(z) => z,
            None => s.stripe,
        },
        base: match req.base {
            Some(b) => b,
            None => s.base,
        },
        ..s
    }
}

/// What is answered to a shape or a slice that cannot be read.
pub open spec fn flag_refused(title: Seq<char>, flag: Seq<char>, message: Seq<char>) -> RejectedModel {
    RejectedModel { title, detail: message, error: flag + ": "@ + message }
}

/// The session after what was asked for was applied to a tensor. A shape that cannot be
/// read leaves the dtype applied and nothing else.
pub open spec fn with_request(s: SessionModel, t: TensorModel, req: OpenRequest) -> SessionModel {
    let viewed = with_requested_view(s, t, req);
    match requested_shape(t, req) {
        Some(Err(_)) => viewed,
        Some(Ok(shape)) => with_requested_layout(viewed.with_shape(t.name, Some(shape)), req),
        None => with_requested_layout(viewed, req),
    }
}

impl SessionModel {
    /// Whether a tensor carries a packing schema.
    pub open spec fn is_packed(self, name: Seq<char>) -> bool {
        has_row(self.packed, name)
    }
}

fn refused(title: &str, flag: &str, message: String) -> (r: Rejected)
    ensures
        r.deep_view() == flag_refused(title@, flag@, message@),
{
    let error = flag.to_owned().concat(": ").concat(message.as_str());
    Rejected { title: title.to_owned(), detail: message, error }
}

impl Session {
    /// Apply what was asked for to a tensor, and count its slices. The dtype and the
    /// shape are applied only where the tensor's bytes can be decoded otherwise.
    pub fn apply_request(&mut self, tensor: &TensorInfo, req: &OpenRequest) -> (r: Result<
        usize,
        Rejected,
    >)
        requires
            old(self).wf(),
        ensures
            final(self).wf(),
            final(self).deep_view() == with_request(
                old(self).deep_view(),
                tensor.deep_view(),
                *req,
            ),
            match r {
                Ok(n) => !(requested_shape(tensor.deep_view(), *req) matches Some(Err(_))) && n
                    == slice_count(final(self).deep_view().shape_of(tensor.deep_view())),
                Err(e) => requested_shape(tensor.deep_view(), *req) matches Some(Err(m))
                    && e.deep_view() == flag_refused("Can't apply --shape"@, "--shape"@, m),
            },
    {
        let overridable = dtype_overridable(tensor);
        let name = tensor.name.as_str();
        if let Some(o) = &req.dtype {
            if overridable {
                let cli = match &o.cli {
                    Some(c) => Some(c.clone()),
                    None => None,
                };
                if o.view.is_same(ViewDtype::Unpacked) && !self.packed.contains_key(name) {
                    let def = self.default_view(name);
                    self.set_view(name, def, cli);
                } else {
                    self.set_view(name, o.view, cli);
                }
            }
        }
        if let Some(text) = &req.shape {
            if overridable {
                match parse_shape_input(text.as_str(), tensor.num_elements) {
                    Ok(shape) => self.set_shape(name, shape),
                    Err(m) => {
                        return Err(refused("Can't apply --shape", "--shape", m));
                    },
                }
            }
        }
        if let Some(l) = req.layout {
            self.layout = l;
        }
        if let Some(at) = req.window_at {
            self.window_row = at.0;
            self.window_col = at.1;
        }
        if let Some(text) = &req.edge_split {
            self.edge_split = if same(text.as_str(), "0.5,0.5") {
                None
            } else {
                Some(text.clone())
            };
        }
        if let Some(z) = req.zebra {
            self.stripe = z;
        }
        if let Some(b) = req.base {
            self.base = b;
        }
        let shape = self.effective_shape(tensor);
        Ok(count_slices(&shape))
    }
}

// ---------------------------------------------------------------------------
// The screen

/// The slice that a request starts at.
pub open spec fn requested_slice(req: OpenRequest, slices: usize, percent: Percent) -> Result<
    usize,
    Seq<char>,
> {
    match req.slice {
        Some(text) => match slice_read(text@, slices, percent) {
            Ok(Some(n)) => Ok(n),
            Ok(None) => Ok(0),
            Err(e) => Err(e),
        },
        None => Ok(0),
    }
}

/// The screen that a request for a tensor opens.
pub open spec fn requested_screen(view: OpenView, name: Seq<char>, slice: usize) -> Option<ScreenModel> {
    match view {
        OpenView::Detail => Some(ScreenModel::Detail { tensor: name, slice }),
        OpenView::Values => Some(
            ScreenModel::Data { tensor: name, repr: Representation::Values, slice },
        ),
        OpenView::Heatmap => Some(
            ScreenModel::Data { tensor: name, repr: Representation::Heatmap, slice },
        ),
        OpenView::Tree => None,
    }
}

/// Open the screen that was asked for of a tensor with `slices` slices; `percent` is
/// what the slice comes to where it is a percentage. `None` shows the tree, with the
/// tensor revealed in it.
pub fn open_screen(
    ex: &mut Explorer,
    s: &mut Session,
    name: &str,
    req: &OpenRequest,
    slices: usize,
    percent: &Percent,
) -> (r: Result<Option<Screen>, Rejected>)
    requires
        old(s).wf(),
    ensures
        final(s).wf(),
        match requested_slice(*req, slices, *percent) {
            Ok(slice) => match requested_screen(req.view, name@, slice) {
                Some(screen) => {
                    &&& r matches Ok(Some(got)) && got.deep_view() == screen
                    &&& final(ex).deep_view() == old(ex).deep_view()
                    &&& final(s).deep_view() == (SessionModel {
                        bins: match req.bins {
                            Some(n) => Some(n),
                            None => old(s).deep_view().bins,
                        },
                        ..old(s).deep_view()
                    })
                },
                None => {
                    &&& r matches Ok(None)
                    &&& final(ex).deep_view() == old(ex).deep_view().revealed(name@)
                    &&& final(s).deep_view() == old(s).deep_view()
                },
            },
            Err(e) => {
                &&& r matches Err(x) && x.deep_view() == flag_refused(
                    "Can't apply --slice"@,
                    "--slice"@,
                    e,
                )
                &&& final(ex).deep_view() == old(ex).deep_view()
                &&& final(s).deep_view() == old(s).deep_view()
            },
        },
{
    let slice: usize = match &req.slice {
        Some(text) => match parse_slice_input(text.as_str(), slices, percent) {
            Ok(Some(n)) => n,
            Ok(None) => 0,
            Err(m) => {
                return Err(refused("Can't apply --slice", "--slice", m));
            },
        },
        None => 0,
    };
    let screen = match req.view {
        OpenView::Detail => Screen::Detail { tensor: name.to_owned(), slice },
        OpenView::Values => Screen::Data {
            tensor: name.to_owned(),
            repr: Representation::Values,
            slice,
        },
        OpenView::Heatmap => Screen::Data {
            tensor: name.to_owned(),
            repr: Representation::Heatmap,
            slice,
        },
        OpenView::Tree => {
            ex.reveal_tensor(name);
            return Ok(None);
        },
    };
    if let Some(n) = req.bins {
        s.histogram_bins = Some(n);
    }
    Ok(Some(screen))
}

/// Whether the histogram is computed before the first screen is shown.
pub fn warms_histogram(req: &OpenRequest, screen: &Screen) -> (b: bool)
    ensures
        b == ((req.histogram || req.bins is Some) && screen.deep_view() is Detail),
{
    let detail = match screen {
        Screen::Detail { .. } => true,
        _ => false,
    };
    (req.histogram || req.bins.is_some()) && detail
}

/// Whether the statistics are computed before the first screen is shown.
pub fn warms_stats(req: &OpenRequest, mode: OpenMode, screen: &Screen) -> (b: bool)
    ensures
        b == (req.compute_stats && mode is Interactive && screen.deep_view() is Detail),
{
    let detail = match screen {
        Screen::Detail { .. } => true,
        _ => false,
    };
    req.compute_stats && mode == OpenMode::Interactive && detail
}

// ---------------------------------------------------------------------------
// What a request leads to

/// A tensor is found by its name: the first of that name, and none where there is none.
pub proof fn law_tensors_are_found_by_name(ts: Seq<TensorModel>, name: Seq<char>)
    requires
        ts.len() <= usize::MAX,
    ensures
        match tensor_named(ts, name, 0) {
            Some(i) => i < ts.len() && ts[i as int].name == name && forall|j: int|
                0 <= j < i ==> (#[trigger] ts[j]).name != name,
            None => forall|j: int| 0 <= j < ts.len() ==> (#[trigger] ts[j]).name != name,
        },
{
    lemma_tensor_named(ts, name, 0);
}

proof fn lemma_tensor_named(ts: Seq<TensorModel>, name: Seq<char>, from: int)
    requires
        0 <= from,
        ts.len() <= usize::MAX,
    ensures
        match tensor_named(ts, name, from) {
            Some(i) => from <= i < ts.len() && ts[i as int].name == name && forall|j: int|
                from <= j < i ==> (#[trigger] ts[j]).name != name,
            None => forall|j: int| from <= j < ts.len() ==> (#[trigger] ts[j]).name != name,
        },
    decreases ts.len() - from,
{
    if from < ts.len() && ts[from].name != name {
        lemma_tensor_named(ts, name, from + 1);
    }
}

/// A request that names a tensor of the checkpoint leads to it, and is refused where there is
/// none of that name; without a name the only tensor is meant, and several are refused,
/// unless the tree is asked for.
pub proof fn law_requests_lead_to_their_target(b: Browsing, req: OpenRequest)
    requires
        b.tensors.len() <= usize::MAX,
        req.metadata is None,
    ensures
        req.tensor is Some ==> match target_of(b, req) {
            Ok(Some(i)) => i < b.tensors.len() && b.tensors[i as int].name == req.tensor->0@,
            Ok(None) => false,
            Err(_) => forall|j: int|
                0 <= j < b.tensors.len() ==> (#[trigger] b.tensors[j]).name != req.tensor->0@,
        },
        req.tensor is None && req.view is Tree ==> target_of(b, req) == Ok::<
            Option<usize>,
            RejectedModel,
        >(None),
        req.tensor is None && !(req.view is Tree) && b.tensors.len() == 1 ==> target_of(b, req)
            == Ok::<Option<usize>, RejectedModel>(Some(0)),
        req.tensor is None && !(req.view is Tree) && b.tensors.len() > 1 ==> target_of(b, req) is Err,
{
    if req.tensor is Some {
        law_tensors_are_found_by_name(b.tensors, req.tensor->0@);
    }
}

/// What a request gives is taken over; what it does not give stays as it was.
pub proof fn law_requests_change_what_they_give(s: SessionModel, req: OpenRequest)
    ensures
        ({
            let after = with_requested_layout(s, req);
            &&& req.layout is Some ==> after.layout == req.layout->0
            &&& req.layout is None ==> after.layout == s.layout
            &&& req.window_at matches Some((row, col)) ==> after.window_row == row
                && after.window_col == col
            &&& req.window_at is None ==> after.window_row == s.window_row && after.window_col
                == s.window_col
            &&& req.edge_split is None ==> after.edge_split == s.edge_split
            &&& req.edge_split is Some && req.edge_split->0@ != "0.5,0.5"@ ==> after.edge_split
                == Some(req.edge_split->0@)
            &&& req.zebra is Some ==> after.stripe == req.zebra->0
            &&& req.zebra is None ==> after.stripe == s.stripe
            &&& req.base is Some ==> after.base == req.base->0
            &&& req.base is None ==> after.base == s.base
            &&& after.dtypes == s.dtypes
            &&& after.shapes == s.shapes
            &&& after.packed == s.packed
            &&& after.bins == s.bins
        }),
{
}

/// A tensor has slices where three of its dimensions are not 1: as many as the first of
/// those says.
pub proof fn law_slices_of_three_dimensions(a: usize, b: usize, c: usize, shape: Seq<usize>)
    requires
        a != 1,
        b != 1,
        c != 1,
    ensures
        slice_count(seq![a, b, c]) == a,
        slice_count(seq![1, a, b, c]) == a,
        slice_count(seq![a, 1, b, 1, c]) == a,
        slice_count(seq![a, b]) == 1,
        slice_count(shape.push(1)) == slice_count(shape),
{
    let keep = |d: usize| d != 1;
    reveal_with_fuel(Seq::filter, 6);
    assert(seq![a, b, c].drop_last() =~= seq![a, b]);
    assert(seq![a, b].drop_last() =~= seq![a]);
    assert(seq![a].drop_last() =~= Seq::empty());
    assert(seq![a].filter(keep) =~= seq![a]);
    assert(seq![a, b].filter(keep) =~= seq![a, b]);
    assert(seq![a, b, c].filter(keep) =~= seq![a, b, c]);
    assert(seq![1, a, b, c].drop_last() =~= seq![1, a, b]);
    assert(seq![1, a, b].drop_last() =~= seq![1, a]);
    assert(seq![1, a].drop_last() =~= seq![1]);
    assert(seq![1usize].drop_last() =~= Seq::empty());
    assert(seq![1usize].filter(keep) =~= Seq::empty());
    assert(seq![1, a].filter(keep) =~= seq![a]);
    assert(seq![1, a, b].filter(keep) =~= seq![a, b]);
    assert(seq![1, a, b, c].filter(keep) =~= seq![a, b, c]);
    assert(seq![a, 1, b, 1, c].drop_last() =~= seq![a, 1, b, 1]);
    assert(seq![a, 1, b, 1].drop_last() =~= seq![a, 1, b]);
    assert(seq![a, 1, b].drop_last() =~= seq![a, 1]);
    assert(seq![a, 1].drop_last() =~= seq![a]);
    assert(seq![a, 1].filter(keep) =~= seq![a]);
    assert(seq![a, 1, b].filter(keep) =~= seq![a, b]);
    assert(seq![a, 1, b, 1].filter(keep) =~= seq![a, b]);
    assert(seq![a, 1, b, 1, c].filter(keep) =~= seq![a, b, c]);
    shape.lemma_filter_push(1, keep);
}

/// A request expands or collapses the whole tree, or leaves it; a search it gives is begun.
pub proof fn law_requests_set_up_the_browser(b: Browsing, req: OpenRequest)
    ensures
        req.tree_state == Some(TreeState::Expanded) ==> groups_are(set_up(b, req).tree, true),
        req.tree_state == Some(TreeState::Collapsed) ==> groups_are(set_up(b, req).tree, false),
        req.tree_state is None ==> set_up(b, req).tree == b.tree,
        req.search is Some ==> set_up(b, req).searching && set_up(b, req).query == req.search->0@,
        req.search is None && req.tree_state is None ==> set_up(b, req) == b,
        req.metadata is None ==> looked_up(b, req) == set_up(b, req),
{
    law_all_set(b.tree, true);
    law_all_set(b.tree, false);
}

/// A view opens its own screen on the tensor; the tree opens none. Without a slice the first
/// is shown.
pub proof fn law_views_open_their_screen(name: Seq<char>, slice: usize, req: OpenRequest, percent: Percent)
    ensures
        requested_screen(OpenView::Tree, name, slice) is None,
        requested_screen(OpenView::Detail, name, slice) == Some(
            ScreenModel::Detail { tensor: name, slice },
        ),
        requested_screen(OpenView::Values, name, slice) == Some(
            ScreenModel::Data { tensor: name, repr: Representation::Values, slice },
        ),
        requested_screen(OpenView::Heatmap, name, slice) == Some(
            ScreenModel::Data { tensor: name, repr: Representation::Heatmap, slice },
        ),
        req.slice is None ==> requested_slice(req, slice, percent) == Ok::<usize, Seq<char>>(0),
        req.slice is Some && requested_slice(req, slice, percent) is Ok && slice > 0
            ==> requested_slice(req, slice, percent)->Ok_0 < slice,
{
}

} // verus!
