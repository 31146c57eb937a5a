//! What is remembered while tensors are viewed: reinterpretations, layout, position.
use vstd::prelude::*;

use crate::diff::NoKey;
use crate::namemap::{has_row, lemma_with_row, lemma_with_row_ascends, lemma_without_row, names_ascend};
use crate::namemap::{row_value, with_row, without_row, NameMap};
use crate::paths::{extension, path_extension};
use crate::prompts::{optional, ReshapeChoice};
use crate::sample::{edges_of, picked, window_of, SampleMode, ViewDtype};
use crate::screens::DataLayout;
use crate::text::{lower_ascii, lower_string, same};
use crate::tree::{dup_numbers, TensorInfo, TensorModel};

verus! {

/// The numeric grid's striping.
#[derive(Clone, Copy, Debug, PartialEq, Eq, Structural)]
pub enum StripeMode {
    Rows,
    Cols,
    Off,
}

impl Default for StripeMode {
    fn default() -> (r: StripeMode)
        ensures
            r == StripeMode::Rows,
    {
        StripeMode::Rows
    }
}

impl StripeMode {
    pub open spec fn successor(self) -> StripeMode {
        match self {
            StripeMode::Rows => StripeMode::Cols,
            StripeMode::Cols => StripeMode::Off,
            StripeMode::Off => StripeMode::Rows,
        }
    }

    /// The next striping in the cycle: rows, columns, off.
    pub fn next(self) -> (r: StripeMode)
        ensures
            r == self.successor(),
    {
        match self {
            StripeMode::Rows => StripeMode::Cols,
            StripeMode::Cols => StripeMode::Off,
            StripeMode::Off => StripeMode::Rows,
        }
    }
}

/// The numeric grid's numeral base.
#[derive(Clone, Copy, Debug, PartialEq, Eq, Structural)]
pub enum NumBase {
    Decimal,
    Hex,
    Octal,
    Binary,
}

impl Default for NumBase {
    fn default() -> (r: NumBase)
        ensures
            r == NumBase::Decimal,
    {
        NumBase::Decimal
    }
}

impl NumBase {
    pub open spec fn successor(self) -> NumBase {
        match self {
            NumBase::Decimal => NumBase::Hex,
            NumBase::Hex => NumBase::Octal,
            NumBase::Octal => NumBase::Binary,
            NumBase::Binary => NumBase::Decimal,
        }
    }

    /// The next base in the cycle: decimal, hexadecimal, octal, binary.
    pub fn next(self) -> (r: NumBase)
        ensures
            r == self.successor(),
    {
        match self {
            NumBase::Decimal => NumBase::Hex,
            NumBase::Hex => NumBase::Octal,
            NumBase::Octal => NumBase::Binary,
            NumBase::Binary => NumBase::Decimal,
        }
    }

    pub open spec fn label_text(self) -> Seq<char> {
        match self {
            NumBase::Decimal => "dec"@,
            NumBase::Hex => "hex"@,
            NumBase::Octal => "oct"@,
            NumBase::Binary => "bin"@,
        }
    }

    /// The name of the base on the command line.
    pub fn label(self) -> (r: &'static str)
        ensures
            r@ == self.label_text(),
    {
        match self {
            NumBase::Decimal => "dec",
            NumBase::Hex => "hex",
            NumBase::Octal => "oct",
            NumBase::Binary => "bin",
        }
    }
}

/// A bulk expansion state of the tree.
#[derive(Clone, Copy, Debug, PartialEq, Eq, Structural)]
pub enum TreeState {
    Expanded,
    Collapsed,
}

impl TreeState {
    pub open spec fn label_text(self) -> Seq<char> {
        match self {
            TreeState::Expanded => "expanded"@,
            TreeState::Collapsed => "collapsed"@,
        }
    }

    /// The name of the state on the command line.
    pub fn label(self) -> (r: &'static str)
        ensures
            r@ == self.label_text(),
    {
        match self {
            TreeState::Expanded => "expanded",
            TreeState::Collapsed => "collapsed",
        }
    }
}

/// The tree state that a name stands for, in letters of any case.
pub open spec fn tree_state_of(s: Seq<char>) -> Option<TreeState> {
    if lower_ascii(s) == "expanded"@ {
        Some(TreeState::Expanded)
    } else if lower_ascii(s) == "collapsed"@ {
        Some(TreeState::Collapsed)
    } else {
        None
    }
}

/// Read a tree state from the command line.
pub fn parse_tree_state(s: &str) -> (r: Result<TreeState, String>)
    ensures
        match tree_state_of(s@) {
            Some(t) => r == Ok::<TreeState, String>(t),
            None => r is Err && r->Err_0@ == "invalid tree state '"@ + lower_ascii(s@)
                + "' (expected: expanded, collapsed)"@,
        },
{
    let l = lower_string(s);
    if same(l.as_str(), "expanded") {
        Ok(TreeState::Expanded)
    } else if same(l.as_str(), "collapsed") {
        Ok(TreeState::Collapsed)
    } else {
        Err(
            "invalid tree state '".to_owned().concat(l.as_str()).concat(
                "' (expected: expanded, collapsed)",
            ),
        )
    }
}

/// The name of each tree state reads back as that state.
pub proof fn law_tree_state_reads_back(t: TreeState)
    ensures
        tree_state_of(t.label_text()) == Some(t),
{
    reveal_strlit("expanded");
    reveal_strlit("collapsed");
    assert(lower_ascii("expanded"@) =~= "expanded"@);
    assert(lower_ascii("collapsed"@) =~= "collapsed"@);
    assert("expanded"@.len() != "collapsed"@.len());
}

/// A file whose stored bytes the library reads itself, so that they can be decoded by
/// another dtype.
pub open spec fn readable_bytes(path: Seq<char>) -> bool {
    let ext = path_extension(path);
    ext == Some("safetensors"@) || ext == Some("h5"@) || ext == Some("hdf5"@) || ext == Some("npy"@)
        || ext == Some("npz"@)
}

/// Whether a tensor's dtype can be reinterpreted.
pub fn dtype_overridable(tensor: &TensorInfo) -> (b: bool)
    ensures
        b == readable_bytes(tensor.source_path@),
{
    match extension(tensor.source_path.as_str()) {
        Some(e) => same(e.as_str(), "safetensors") || same(e.as_str(), "h5") || same(
            e.as_str(),
            "hdf5",
        ) || same(e.as_str(), "npy") || same(e.as_str(), "npz"),
        None => false,
    }
}

/// A reinterpretation, and its name on the command line.
#[derive(Debug)]
pub struct Override {
    pub view: ViewDtype,
    pub cli: Option<String>,
}

impl DeepView for Override {
    type V = (ViewDtype, Option<Seq<char>>);

    open spec fn deep_view(&self) -> (ViewDtype, Option<Seq<char>>) {
        (self.view, optional(self.cli))
    }
}

/// The dimensions of a shape.
#[derive(Debug)]
pub struct Shape {
    pub dims: Vec<usize>,
}

impl DeepView for Shape {
    type V = Seq<usize>;

    open spec fn deep_view(&self) -> Seq<usize> {
        self.dims@
    }
}

/// What is remembered between views.
#[derive(Debug)]
pub struct Session {
    /// By tensor name.
    pub dtype_overrides: NameMap<Override>,
    /// By tensor name.
    pub shape_overrides: NameMap<Shape>,
    /// The tensors that carry a packing schema.
    pub packed: NameMap<NoKey>,
    pub histogram_bins: Option<usize>,
    pub layout: DataLayout,
    /// The edges split, as it is written on the command line; `None` for the even one.
    pub edge_split: Option<String>,
    pub window_row: usize,
    pub window_col: usize,
    pub page_rows: usize,
    pub page_cols: usize,
    pub stripe: StripeMode,
    pub base: NumBase,
}

/// The mathematical content of a [`Session`].
pub struct SessionModel {
    pub dtypes: Seq<(Seq<char>, (ViewDtype, Option<Seq<char>>))>,
    pub shapes: Seq<(Seq<char>, Seq<usize>)>,
    pub packed: Seq<(Seq<char>, ())>,
    pub bins: Option<usize>,
    pub layout: DataLayout,
    pub edge_split: Option<Seq<char>>,
    pub window_row: usize,
    pub window_col: usize,
    pub page_rows: usize,
    pub page_cols: usize,
    pub stripe: StripeMode,
    pub base: NumBase,
}

impl DeepView for Session {
    type V = SessionModel;

    open spec fn deep_view(&self) -> SessionModel {
        SessionModel {
            dtypes: self.dtype_overrides.rows(),
            shapes: self.shape_overrides.rows(),
            packed: self.packed.rows(),
            bins: self.histogram_bins,
            layout: self.layout,
            edge_split: optional(self.edge_split),
            window_row: self.window_row,
            window_col: self.window_col,
            page_rows: self.page_rows,
            page_cols: self.page_cols,
            stripe: self.stripe,
            base: self.base,
        }
    }
}

impl SessionModel {
    pub open spec fn wf(self) -> bool {
        names_ascend(self.dtypes) && names_ascend(self.shapes) && names_ascend(self.packed)
    }

    /// The view of a tensor without an override.
    pub open spec fn default_view(self, name: Seq<char>) -> ViewDtype {
        if has_row(self.packed, name) {
            ViewDtype::Unpacked
        } else {
            ViewDtype::Stored
        }
    }

    /// The view of a tensor.
    pub open spec fn active_view(self, name: Seq<char>) -> ViewDtype {
        if has_row(self.dtypes, name) {
            row_value(self.dtypes, name).0
        } else {
            self.default_view(name)
        }
    }

    /// The shape of a tensor.
    pub open spec fn shape_of(self, t: TensorModel) -> Seq<usize> {
        if has_row(self.shapes, t.name) {
            row_value(self.shapes, t.name)
        } else {
            t.shape
        }
    }

    /// A view chosen for a tensor: only what differs from its default is recorded.
    pub open spec fn with_view(self, name: Seq<char>, view: ViewDtype, cli: Option<Seq<char>>) -> SessionModel {
        SessionModel {
            dtypes: if view.same_view(self.default_view(name)) {
                without_row(self.dtypes, name)
            } else {
                with_row(self.dtypes, name, (view, cli))
            },
            ..self
        }
    }

    /// A shape chosen for a tensor, or its own again.
    pub open spec fn with_shape(self, name: Seq<char>, shape: Option<Seq<usize>>) -> SessionModel {
        SessionModel {
            shapes: match shape {
                Some(s) => with_row(self.shapes, name, s),
                None => without_row(self.shapes, name),
            },
            ..self
        }
    }

    /// The rows and columns that the layout shows; the tails of the edges are given.
    pub open spec fn mode(self, row_tail: usize, col_tail: usize) -> SampleMode {
        match self.layout {
            DataLayout::Overview => SampleMode::Grid,
            DataLayout::Edges => SampleMode::Edges { row_tail, col_tail },
            DataLayout::Window => SampleMode::Window {
                row: self.window_row,
                col: self.window_col,
            },
        }
    }
}

impl Session {
    pub open spec fn wf(self) -> bool {
        self.dtype_overrides.wf() && self.shape_overrides.wf() && self.packed.wf()
    }

    /// Nothing is remembered yet. `packed` are the tensors that carry a packing schema.
    pub fn new(packed: NameMap<NoKey>) -> (s: Session)
        requires
            packed.wf(),
        ensures
            s.wf(),
            s.deep_view() == (SessionModel {
                dtypes: Seq::empty(),
                shapes: Seq::empty(),
                packed: packed.rows(),
                bins: None,
                layout: DataLayout::Edges,
                edge_split: None,
                window_row: 0,
                window_col: 0,
                page_rows: 1,
                page_cols: 1,
                stripe: StripeMode::Rows,
                base: NumBase::Decimal,
            }),
    {
        Session {
            dtype_overrides: NameMap::new(),
            shape_overrides: NameMap::new(),
            packed,
            histogram_bins: None,
            layout: DataLayout::Edges,
            edge_split: None,
            window_row: 0,
            window_col: 0,
            page_rows: 1,
            page_cols: 1,
            stripe: StripeMode::Rows,
            base: NumBase::Decimal,
        }
    }

    /// The view that a tensor opens in without an override.
    pub fn default_view(&self, name: &str) -> (v: ViewDtype)
        requires
            self.wf(),
        ensures
            v == self.deep_view().default_view(name@),
    {
        if self.packed.contains_key(name) {
            ViewDtype::Unpacked
        } else {
            ViewDtype::Stored
        }
    }

    /// The active view of a tensor: its override, else its default.
    pub fn active_view(&self, name: &str) -> (v: ViewDtype)
        requires
            self.wf(),
        ensures
            v == self.deep_view().active_view(name@),
    {
        match self.dtype_overrides.get(name) {
            Some(o) => o.view,
            None => self.default_view(name),
        }
    }

    /// The shape of a tensor: its override, else its own.
    pub fn effective_shape(&self, tensor: &TensorInfo) -> (r: Vec<usize>)
        requires
            self.wf(),
        ensures
            r@ == self.deep_view().shape_of(tensor.deep_view()),
    {
        match self.shape_overrides.get(tensor.name.as_str()) {
            Some(s) => dup_numbers(&s.dims),
            None => dup_numbers(&tensor.shape),
        }
    }

    /// Choose a view for a tensor. Its default is not recorded, so that the tensor falls
    /// back to it.
    pub fn set_view(&mut self, name: &str, view: ViewDtype, cli: Option<String>)
        requires
            old(self).wf(),
        ensures
            final(self).wf(),
            final(self).deep_view() == old(self).deep_view().with_view(name@, view, optional(cli)),
    {
        let def = self.default_view(name);
        if view.is_same(def) {
            self.dtype_overrides.remove(name);
        } else {
            self.dtype_overrides.insert(name.to_owned(), Override { view, cli });
        }
    }

    /// Choose a shape for a tensor.
    pub fn set_shape(&mut self, name: &str, dims: Vec<usize>)
        requires
            old(self).wf(),
        ensures
            final(self).wf(),
            final(self).deep_view() == old(self).deep_view().with_shape(name@, Some(dims@)),
    {
        self.shape_overrides.insert(name.to_owned(), Shape { dims });
    }

    /// Give a tensor its own shape again.
    pub fn clear_shape(&mut self, name: &str)
        requires
            old(self).wf(),
        ensures
            final(self).wf(),
            final(self).deep_view() == old(self).deep_view().with_shape(name@, None),
    {
        self.shape_overrides.remove(name);
    }

    /// Apply what was chosen in the reshape prompt.
    pub fn apply_reshape(&mut self, name: &str, choice: ReshapeChoice)
        requires
            old(self).wf(),
        ensures
            final(self).wf(),
            final(self).deep_view() == old(self).deep_view().with_shape(
                name@,
                match choice {
                    ReshapeChoice::Apply(s) => Some(s@),
                    ReshapeChoice::Clear => None,
                },
            ),
    {
        match choice {
            ReshapeChoice::Apply(s) => self.set_shape(name, s),
            ReshapeChoice::Clear => self.clear_shape(name),
        }
    }

    /// The rows and columns that the layout shows; the tails of the edges are given.
    pub fn sample_mode(&self, row_tail: usize, col_tail: usize) -> (m: SampleMode)
        ensures
            m == self.deep_view().mode(row_tail, col_tail),
    {
        match self.layout {
            DataLayout::Overview => SampleMode::Grid,
            DataLayout::Edges => SampleMode::Edges { row_tail, col_tail },
            DataLayout::Window => SampleMode::Window {
                row: self.window_row,
                col: self.window_col,
            },
        }
    }
}

/// A view that was chosen for a tensor is its active view, and no other tensor's view
/// changes.
pub proof fn law_chosen_view_is_active(
    s: SessionModel,
    name: Seq<char>,
    view: ViewDtype,
    cli: Option<Seq<char>>,
    other: Seq<char>,
)
    requires
        s.wf(),
    ensures
        s.with_view(name, view, cli).wf(),
        s.with_view(name, view, cli).active_view(name).same_view(view),
        other != name ==> s.with_view(name, view, cli).active_view(other) == s.active_view(other),
{
    lemma_without_row(s.dtypes, name, other);
    lemma_with_row(s.dtypes, name, (view, cli), other);
    lemma_with_row_ascends(s.dtypes, name, (view, cli));
}

/// A shape that was chosen for a tensor is its shape, clearing it gives the tensor its
/// own shape back, and no other tensor's shape changes.
pub proof fn law_chosen_shape_is_active(
    s: SessionModel,
    t: TensorModel,
    shape: Seq<usize>,
    other: TensorModel,
)
    requires
        s.wf(),
    ensures
        s.with_shape(t.name, Some(shape)).wf(),
        s.with_shape(t.name, Some(shape)).shape_of(t) == shape,
        s.with_shape(t.name, None).wf(),
        s.with_shape(t.name, None).shape_of(t) == t.shape,
        other.name != t.name ==> s.with_shape(t.name, Some(shape)).shape_of(other) == s.shape_of(
            other,
        ) && s.with_shape(t.name, None).shape_of(other) == s.shape_of(other),
{
    lemma_without_row(s.shapes, t.name, other.name);
    lemma_with_row(s.shapes, t.name, shape, other.name);
    lemma_with_row_ascends(s.shapes, t.name, shape);
}

/// An overview is sampled evenly, edges from both ends, a window from where it was moved to:
/// its row on the rows and its column on the columns.
pub proof fn law_layouts_pick_the_sample(s: SessionModel, row_tail: usize, col_tail: usize, n: int, max: int)
    ensures
        s.layout is Overview ==> s.mode(row_tail, col_tail) == SampleMode::Grid,
        s.layout is Window ==> picked(s.mode(row_tail, col_tail), true, n, max) == window_of(
            n,
            max,
            s.window_row as int,
        ) && picked(s.mode(row_tail, col_tail), false, n, max) == window_of(
            n,
            max,
            s.window_col as int,
        ),
        s.layout is Edges ==> picked(s.mode(row_tail, col_tail), true, n, max) == edges_of(
            n,
            max,
            row_tail as int,
        ) && picked(s.mode(row_tail, col_tail), false, n, max) == edges_of(n, max, col_tail as int),
{
}

/// Going on through stripes and bases leads through all of them and back; no two bases or
/// tree states are called alike.
pub proof fn law_choices_cycle(z: StripeMode, b: NumBase, c: NumBase)
    ensures
        z.successor().successor().successor() == z,
        z.successor() != z,
        b.successor().successor().successor().successor() == b,
        b.successor() != b,
        b.successor().successor() != b,
        b != c ==> b.label_text() != c.label_text(),
{
    reveal_strlit("dec");
    reveal_strlit("hex");
    reveal_strlit("oct");
    reveal_strlit("bin");
    assert("dec"@[0] == 'd' && "hex"@[0] == 'h' && "oct"@[0] == 'o' && "bin"@[0] == 'b');
}

} // verus!
