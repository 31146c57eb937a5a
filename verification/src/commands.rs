//! The command lines that reopen what is on the screen.
use vstd::prelude::*;

use crate::explorer::{Browsing, Explorer};
use crate::inputs::{
    dims_of, filled_in, first_of, infers, is_wildcard, number_of, offsets_read, product, quoted,
    shape_read, shell_quote, slice_read, tokens, trimmed, volume, Percent,
};
use crate::namemap::{has_row, lemma_with_row, lemma_with_row_ascends, names_ascend, row_value};
use crate::open::{find_tensor, tensor_named, with_request, with_requested_view, OpenRequest};
use crate::paths::{common_dir, extension, path_extension, shared_dir};
use crate::prompts::optional;
use crate::sample::ViewDtype;
use crate::screens::{DataLayout, Representation, Screen, ScreenModel};
use crate::session::{readable_bytes, NumBase, Session, SessionModel, StripeMode, TreeState};
use crate::text::{
    add_line, add_lines, all_digits, decimal, decimal_string, is_digit, join, joined, lemma_decimal_value,
    same, texts,
};
use crate::tree::{groups_are, NodeModel, TensorInfo, TensorModel, TreeBuilder, TreeNode};
use crate::units::{number_strings, number_texts};

verus! {

/// The name of the program.
pub const PROGRAM: &'static str = "checkpoint-explorer";

// ---------------------------------------------------------------------------
// The checkpoint

/// Each text quoted for a shell.
pub open spec fn all_quoted(paths: Seq<Seq<char>>) -> Seq<Seq<char>> {
    paths.map_values(|p: Seq<char>| quoted(p))
}

/// The arguments that name a checkpoint: its file, the directory that all of its files
/// are in, or else the files.
pub open spec fn checkpoint_words(files: Seq<Seq<char>>) -> Seq<Seq<char>> {
    if files.len() > 1 && shared_dir(files) is Some {
        seq![quoted(shared_dir(files)->0)]
    } else {
        all_quoted(files)
    }
}

/// The arguments that bring the tree into its state, where all groups are in one state.
pub open spec fn tree_state_words(tree: Seq<NodeModel>) -> Seq<Seq<char>> {
    if groups_are(tree, true) {
        seq!["--tree-state"@, TreeState::Expanded.label_text()]
    } else if groups_are(tree, false) {
        seq!["--tree-state"@, TreeState::Collapsed.label_text()]
    } else {
        seq![]
    }
}

/// The command that reopens the tree.
pub open spec fn tree_words(b: Browsing) -> Seq<Seq<char>> {
    seq![PROGRAM@] + checkpoint_words(b.files) + tree_state_words(b.tree)
}

/// The arguments that pick a tensor, with its dtype and its shape where they are not its
/// own.
pub open spec fn tensor_words(s: SessionModel, name: Seq<char>) -> Seq<Seq<char>> {
    seq!["--tensor"@, quoted(name)] + (if has_row(s.dtypes, name) && row_value(
        s.dtypes,
        name,
    ).1 is Some {
        seq!["--dtype"@, row_value(s.dtypes, name).1->0]
    } else {
        seq![]
    }) + (if has_row(s.shapes, name) {
        seq!["--shape"@, join(number_texts(row_value(s.shapes, name)), ","@)]
    } else {
        seq![]
    })
}

/// The command that all commands for a tensor begin with.
pub open spec fn base_words(b: Browsing, s: SessionModel, name: Seq<char>) -> Seq<Seq<char>> {
    seq![PROGRAM@] + checkpoint_words(b.files) + tensor_words(s, name)
}

/// The command that reopens the tree with the selected row revealed.
pub open spec fn selection_words(b: Browsing, s: SessionModel) -> Seq<Seq<char>> {
    if b.selected < b.rows.len() {
        match b.rows[b.selected as int].0 {
            NodeModel::Tensor { info, .. } => base_words(b, s, info.name) + seq!["--tree"@]
                + tree_state_words(b.tree),
            NodeModel::Metadata { info } => seq![PROGRAM@] + checkpoint_words(b.files)
                + seq!["--metadata"@, quoted(info.name), "--tree"@] + tree_state_words(b.tree),
            _ => tree_words(b),
        }
    } else {
        tree_words(b)
    }
}

fn quote_all(paths: &Vec<String>) -> (r: Vec<String>)
    ensures
        texts(r@) == all_quoted(texts(paths@)),
{
    let mut r: Vec<String> = Vec::new();
    let mut i: usize = 0;
    while i < paths.len()
        invariant
            i <= paths.len(),
            texts(r@) =~= all_quoted(texts(paths@)).take(i as int),
        decreases paths.len() - i,
    {
        add_line(&mut r, shell_quote(paths[i].as_str()));
        i = i + 1;
    }
    proof {
        assert(texts(r@) =~= all_quoted(texts(paths@)));
    }
    r
}

impl Explorer {
    /// The arguments that name the checkpoint: its file, or the directory that all of its
    /// files are in, so that the command names the checkpoint and not one of its shards,
    /// or else the files.
    pub fn checkpoint_path_parts(&self) -> (r: Vec<String>)
        ensures
            texts(r@) == checkpoint_words(self.deep_view().files),
    {
        if self.files.len() > 1 {
            if let Some(dir) = common_dir(&self.files) {
                let mut r: Vec<String> = Vec::new();
                add_line(&mut r, shell_quote(dir.as_str()));
                proof {
                    assert(texts(r@) =~= checkpoint_words(self.deep_view().files));
                }
                return r;
            }
        }
        quote_all(&self.files)
    }

    /// The arguments that bring the tree into its state, where all groups are in one
    /// state.
    pub fn tree_state_args(&self) -> (r: Vec<String>)
        ensures
            texts(r@) == tree_state_words(self.deep_view().tree),
    {
        let mut r: Vec<String> = Vec::new();
        if TreeBuilder::all_groups(&self.tree, true) {
            add_line(&mut r, "--tree-state".to_owned());
            add_line(&mut r, TreeState::Expanded.label().to_owned());
        } else if TreeBuilder::all_groups(&self.tree, false) {
            add_line(&mut r, "--tree-state".to_owned());
            add_line(&mut r, TreeState::Collapsed.label().to_owned());
        }
        proof {
            assert(texts(r@) =~= tree_state_words(self.deep_view().tree));
        }
        r
    }

    fn tree_parts(&self) -> (r: Vec<String>)
        ensures
            texts(r@) == tree_words(self.deep_view()),
    {
        let mut r: Vec<String> = Vec::new();
        add_line(&mut r, PROGRAM.to_owned());
        add_lines(&mut r, self.checkpoint_path_parts());
        add_lines(&mut r, self.tree_state_args());
        proof {
            assert(texts(r@) =~= tree_words(self.deep_view()));
        }
        r
    }

    /// The command that reopens the tree.
    pub fn command_for_tree(&self) -> (r: String)
        ensures
            r@ == join(tree_words(self.deep_view()), " "@),
    {
        joined(&self.tree_parts(), " ")
    }

    /// The command that all commands for a tensor begin with. It names the checkpoint,
    /// not the file that the tensor lies in.
    pub fn command_base(&self, s: &Session, name: &str) -> (r: Vec<String>)
        requires
            s.wf(),
        ensures
            texts(r@) == base_words(self.deep_view(), s.deep_view(), name@),
    {
        let mut r: Vec<String> = Vec::new();
        add_line(&mut r, PROGRAM.to_owned());
        add_lines(&mut r, self.checkpoint_path_parts());
        add_line(&mut r, "--tensor".to_owned());
        add_line(&mut r, shell_quote(name));
        if let Some(o) = s.dtype_overrides.get(name) {
            if let Some(value) = &o.cli {
                add_line(&mut r, "--dtype".to_owned());
                add_line(&mut r, value.clone());
            }
        }
        if let Some(shape) = s.shape_overrides.get(name) {
            add_line(&mut r, "--shape".to_owned());
            add_line(&mut r, joined(&number_strings(shape.dims.as_slice()), ","));
        }
        proof {
            assert(texts(r@) =~= base_words(self.deep_view(), s.deep_view(), name@));
        }
        r
    }

    /// The command that reopens the tree with the selected row revealed: a tensor with
    /// its dtype and shape, or a metadata entry. Of a group, the tree.
    pub fn command_for_tree_selection(&self, s: &Session) -> (r: String)
        requires
            s.wf(),
        ensures
            r@ == join(selection_words(self.deep_view(), s.deep_view()), " "@),
    {
        let ghost b = self.deep_view();
        if self.selected_idx >= self.flattened_tree.len() {
            return self.command_for_tree();
        }
        proof {
            assert(b.rows[b.selected as int].0
                == self.flattened_tree@[self.selected_idx as int].0.model());
        }
        let mut r: Vec<String> = Vec::new();
        match &self.flattened_tree[self.selected_idx].0 {
            TreeNode::Tensor { info, .. } => {
                r = self.command_base(s, info.name.as_str());
                add_line(&mut r, "--tree".to_owned());
                add_lines(&mut r, self.tree_state_args());
            },
            TreeNode::Metadata { info } => {
                add_line(&mut r, PROGRAM.to_owned());
                add_lines(&mut r, self.checkpoint_path_parts());
                add_line(&mut r, "--metadata".to_owned());
                add_line(&mut r, shell_quote(info.name.as_str()));
                add_line(&mut r, "--tree".to_owned());
                add_lines(&mut r, self.tree_state_args());
            },
            _ => {
                r = self.tree_parts();
            },
        }
        proof {
            assert(texts(r@) =~= selection_words(b, s.deep_view()));
        }
        joined(&r, " ")
    }
}

/// Whether a file is an HDF5 file by its extension.
pub open spec fn is_hdf5(path: Seq<char>) -> bool {
    path_extension(path) == Some("h5"@) || path_extension(path) == Some("hdf5"@)
}

impl Explorer {
    /// The file to repack: the checkpoint's only file, where that is an HDF5 file.
    pub fn repack_input(&self) -> (r: Option<&String>)
        ensures
            r == if self.files.len() == 1 && is_hdf5(self.files@[0]@) {
                Some(&self.files@[0])
            } else {
                None
            },
    {
        if self.files.len() != 1 {
            return None;
        }
        match extension(self.files[0].as_str()) {
            Some(e) => if same(e.as_str(), "h5") || same(e.as_str(), "hdf5") {
                Some(&self.files[0])
            } else {
                None
            },
            None => None,
        }
    }
}

// ---------------------------------------------------------------------------
// The views of a tensor

/// The command that reopens the detail screen of a tensor.
pub open spec fn detail_words(
    b: Browsing,
    s: SessionModel,
    name: Seq<char>,
    histogram: bool,
    stats: bool,
) -> Seq<Seq<char>> {
    base_words(b, s, name) + (if histogram {
        seq!["--histogram"@] + (match s.bins {
            Some(n) => seq!["--bins"@, decimal(n as nat)],
            None => seq![],
        })
    } else {
        seq![]
    }) + (if stats {
        seq!["--compute-stats"@]
    } else {
        seq![]
    })
}

/// The argument that brings the layout back, with its position where that is not the
/// one at the start.
pub open spec fn layout_word(s: SessionModel) -> Seq<char> {
    match s.layout {
        DataLayout::Overview => "--overview"@,
        DataLayout::Edges => match s.edge_split {
            Some(split) => "--edge="@ + split,
            None => "--edge"@,
        },
        DataLayout::Window => if s.window_row == 0 && s.window_col == 0 {
            "--window"@
        } else {
            "--window="@ + decimal(s.window_row as nat) + ","@ + decimal(s.window_col as nat)
        },
    }
}

/// The arguments for the stripes and the base of the numeric grid, where they are not
/// those at the start.
pub open spec fn grid_words(s: SessionModel) -> Seq<Seq<char>> {
    (match s.stripe {
        StripeMode::Rows => seq![],
        StripeMode::Cols => seq!["--zebra"@, "cols"@],
        StripeMode::Off => seq!["--zebra"@, "off"@],
    }) + (if s.base is Decimal {
        seq![]
    } else {
        seq!["--base"@, s.base.label_text()]
    })
}

/// The command that reopens a data view of a tensor.
pub open spec fn data_words(
    b: Browsing,
    s: SessionModel,
    name: Seq<char>,
    repr: Representation,
    slice: usize,
) -> Seq<Seq<char>> {
    base_words(b, s, name) + seq![
        match repr {
            Representation::Heatmap => "--heatmap"@,
            Representation::Values => "--values"@,
        },
        layout_word(s),
    ] + (if repr is Values {
        grid_words(s)
    } else {
        seq![]
    }) + (if slice > 0 {
        seq!["--slice"@, decimal(slice as nat)]
    } else {
        seq![]
    })
}

impl Session {
    fn layout_arg(&self) -> (r: String)
        ensures
            r@ == layout_word(self.deep_view()),
    {
        match self.layout {
            DataLayout::Overview => "--overview".to_owned(),
            DataLayout::Edges => match &self.edge_split {
                Some(split) => "--edge=".to_owned().concat(split.as_str()),
                None => "--edge".to_owned(),
            },
            DataLayout::Window => {
                if self.window_row == 0 && self.window_col == 0 {
                    "--window".to_owned()
                } else {
                    "--window=".to_owned().concat(
                        decimal_string(self.window_row as u128).as_str(),
                    ).concat(",").concat(decimal_string(self.window_col as u128).as_str())
                }
            },
        }
    }

    fn grid_args(&self) -> (r: Vec<String>)
        ensures
            texts(r@) == grid_words(self.deep_view()),
    {
        let mut r: Vec<String> = Vec::new();
        match self.stripe {
            StripeMode::Rows => {},
            StripeMode::Cols => {
                add_line(&mut r, "--zebra".to_owned());
                add_line(&mut r, "cols".to_owned());
            },
            StripeMode::Off => {
                add_line(&mut r, "--zebra".to_owned());
                add_line(&mut r, "off".to_owned());
            },
        }
        if self.base != NumBase::Decimal {
            add_line(&mut r, "--base".to_owned());
            add_line(&mut r, self.base.label().to_owned());
        }
        proof {
            assert(texts(r@) =~= grid_words(self.deep_view()));
        }
        r
    }
}

impl Explorer {
    /// The command that reopens the detail screen of a tensor, with its histogram and
    /// its statistics where they are there for its active view.
    pub fn command_for_detail(&self, s: &Session, tensor: &TensorInfo, histogram: bool, stats: bool) -> (r:
        String)
        requires
            s.wf(),
        ensures
            r@ == join(
                detail_words(self.deep_view(), s.deep_view(), tensor.name@, histogram, stats),
                " "@,
            ),
    {
        let mut r = self.command_base(s, tensor.name.as_str());
        if histogram {
            add_line(&mut r, "--histogram".to_owned());
            if let Some(n) = s.histogram_bins {
                add_line(&mut r, "--bins".to_owned());
                add_line(&mut r, decimal_string(n as u128));
            }
        }
        if stats {
            add_line(&mut r, "--compute-stats".to_owned());
        }
        proof {
            assert(texts(r@) =~= detail_words(
                self.deep_view(),
                s.deep_view(),
                tensor.name@,
                histogram,
                stats,
            ));
        }
        joined(&r, " ")
    }

    /// The command that reopens a data view with its representation, layout, stripes,
    /// base and slice.
    pub fn command_for_data(&self, s: &Session, tensor: &TensorInfo, repr: Representation, slice: usize) -> (r:
        String)
        requires
            s.wf(),
        ensures
            r@ == join(
                data_words(self.deep_view(), s.deep_view(), tensor.name@, repr, slice),
                " "@,
            ),
    {
        let mut r = self.command_base(s, tensor.name.as_str());
        match repr {
            Representation::Heatmap => add_line(&mut r, "--heatmap".to_owned()),
            Representation::Values => add_line(&mut r, "--values".to_owned()),
        }
        add_line(&mut r, s.layout_arg());
        if repr == Representation::Values {
            add_lines(&mut r, s.grid_args());
        }
        if slice > 0 {
            add_line(&mut r, "--slice".to_owned());
            add_line(&mut r, decimal_string(slice as u128));
        }
        proof {
            assert(texts(r@) =~= data_words(
                self.deep_view(),
                s.deep_view(),
                tensor.name@,
                repr,
                slice,
            ));
        }
        joined(&r, " ")
    }
}

// ---------------------------------------------------------------------------
// What a command writes is read back

/// A number is read back as itself.
pub proof fn law_number_reads_back(n: usize)
    ensures
        trimmed(decimal(n as nat)) == decimal(n as nat),
        number_of(decimal(n as nat)) == Some(n),
{
    let s = decimal(n as nat);
    lemma_decimal_value(n as nat);
    assert(is_digit(s[0]));
    assert(is_digit(s[s.len() - 1]));
}

/// The corner of the window that a command writes is read back.
pub proof fn law_window_reads_back(row: usize, col: usize)
    ensures
        offsets_read(decimal(row as nat) + ","@ + decimal(col as nat)) == Ok::<
            (usize, usize),
            Seq<char>,
        >((row, col)),
{
    let a = decimal(row as nat);
    let b = decimal(col as nat);
    let s = a + ","@ + b;
    reveal_strlit(",");
    lemma_decimal_value(row as nat);
    law_number_reads_back(row);
    law_number_reads_back(col);
    lemma_first_of(a, b);
    assert(s =~= a + seq![','] + b);
    assert(s.take(a.len() as int) =~= a);
    assert(s.skip(a.len() as int + 1) =~= b);
}

proof fn lemma_first_of(a: Seq<char>, b: Seq<char>)
    requires
        all_digits(a),
    ensures
        first_of(a + seq![','] + b, ',') == a.len(),
    decreases a.len(),
{
    let s = a + seq![','] + b;
    if a.len() > 0 {
        assert(is_digit(a[0]));
        assert(s[0] == a[0]);
        assert(s.skip(1) =~= a.skip(1) + seq![','] + b);
        assert forall|i: int| 0 <= i < a.skip(1).len() implies is_digit(#[trigger] a.skip(1)[i]) by {
            assert(is_digit(a[i + 1]));
        }
        lemma_first_of(a.skip(1), b);
    } else {
        assert(s[0] == ',');
    }
}

/// The slice that a command writes is read back, where the tensor has that slice.
pub proof fn law_slice_reads_back(n: usize, slices: usize, percent: Percent)
    requires
        n < slices,
    ensures
        slice_read(decimal(n as nat), slices, percent) == Ok::<Option<usize>, Seq<char>>(Some(n)),
{
    let s = decimal(n as nat);
    lemma_decimal_value(n as nat);
    law_number_reads_back(n);
    assert(is_digit(s[s.len() - 1]));
}

/// The shape that a command writes is read back, where it has as many elements as the
/// tensor.
pub proof fn law_shape_reads_back(dims: Seq<usize>, elements: usize)
    requires
        dims.len() > 0,
        forall|i: int| 0 <= i < dims.len() ==> (#[trigger] dims[i]) > 0,
        product(dims) == elements,
    ensures
        shape_read(join(number_texts(dims), ","@), elements) == Ok::<Seq<usize>, Seq<char>>(dims),
{
    lemma_tokens_of_numbers(dims);
    lemma_dims_of_numbers(dims);
    let known = given(dims);
    assert(!infers(known));
    lemma_volume_of_given(dims);
    assert(filled_in(known, 0) =~= dims);
}

/// Dimensions that are all given.
spec fn given(dims: Seq<usize>) -> Seq<Option<usize>> {
    dims.map_values(|d: usize| Some(d))
}

proof fn lemma_volume_of_given(dims: Seq<usize>)
    ensures
        volume(given(dims)) == product(dims),
    decreases dims.len(),
{
    if dims.len() > 0 {
        assert(given(dims).drop_last() =~= given(dims.drop_last()));
        lemma_volume_of_given(dims.drop_last());
    }
}

proof fn lemma_dims_of_numbers(dims: Seq<usize>)
    requires
        forall|i: int| 0 <= i < dims.len() ==> (#[trigger] dims[i]) > 0,
    ensures
        dims_of(number_texts(dims)) == Ok::<Seq<Option<usize>>, Seq<char>>(given(dims)),
    decreases dims.len(),
{
    let ts = number_texts(dims);
    if dims.len() > 0 {
        let d = dims.drop_last();
        assert forall|i: int| 0 <= i < d.len() implies (#[trigger] d[i]) > 0 by {
            assert(dims[i] > 0);
        }
        lemma_dims_of_numbers(d);
        assert(ts.drop_last() =~= number_texts(d));
        let w = ts.last();
        assert(w == decimal(dims.last() as nat));
        lemma_decimal_value(dims.last() as nat);
        law_number_reads_back(dims.last());
        reveal_strlit("*");
        reveal_strlit("-1");
        reveal_strlit("_");
        assert(is_digit(w[0]));
        assert(!is_wildcard(w));
        assert(dims[dims.len() - 1] > 0);
        assert(given(d).push(Some(dims.last())) =~= given(dims));
    } else {
        assert(given(dims) =~= Seq::empty());
    }
}

proof fn lemma_tokens_of_numbers(dims: Seq<usize>)
    requires
        dims.len() > 0,
    ensures
        tokens(join(number_texts(dims), ","@)) == number_texts(dims),
    decreases dims.len(),
{
    let ts = number_texts(dims);
    let w = ts.last();
    lemma_decimal_value(dims.last() as nat);
    assert(w == decimal(dims.last() as nat));
    reveal_strlit(",");
    if dims.len() == 1 {
        lemma_single_token(w);
        assert(ts =~= seq![w]);
    } else {
        let d = dims.drop_last();
        lemma_tokens_of_numbers(d);
        assert(ts.drop_last() =~= number_texts(d));
        let front = join(number_texts(d), ","@);
        assert(","@ =~= seq![',']);
        lemma_token_behind(front, w);
        assert(ts =~= number_texts(d).push(w));
    }
}

proof fn lemma_single_token(w: Seq<char>)
    requires
        w.len() > 0,
        all_digits(w),
    ensures
        tokens(w) == seq![w],
    decreases w.len(),
{
    assert(is_digit(w[w.len() - 1]));
    if w.len() > 1 {
        assert(is_digit(w[w.len() - 2]));
        let v = w.drop_last();
        assert forall|i: int| 0 <= i < v.len() implies is_digit(#[trigger] v[i]) by {
            assert(is_digit(w[i]));
        }
        lemma_single_token(v);
        assert(tokens(w) =~= seq![w]) by {
            assert(v.push(w.last()) =~= w);
            assert(seq![v].drop_last() =~= Seq::<Seq<char>>::empty());
        }
    } else {
        assert(w.drop_last() =~= Seq::empty());
        assert(tokens(w.drop_last()) =~= Seq::<Seq<char>>::empty());
        assert(w =~= seq![w.last()]);
        assert(tokens(w) =~= seq![w]);
    }
}

proof fn lemma_token_behind(a: Seq<char>, w: Seq<char>)
    requires
        w.len() > 0,
        all_digits(w),
    ensures
        tokens(a + seq![','] + w) == tokens(a).push(w),
    decreases w.len(),
{
    let s = a + seq![','] + w;
    assert(is_digit(w[w.len() - 1]));
    assert(s.last() == w.last());
    let v = w.drop_last();
    if w.len() > 1 {
        assert(is_digit(w[w.len() - 2]));
        assert(s[s.len() - 2] == w[w.len() - 2]);
        assert(s.drop_last() =~= a + seq![','] + v);
        assert forall|i: int| 0 <= i < v.len() implies is_digit(#[trigger] v[i]) by {
            assert(is_digit(w[i]));
        }
        lemma_token_behind(a, v);
        let t = tokens(a).push(v);
        assert(t.drop_last() =~= tokens(a));
        assert(v.push(w.last()) =~= w);
    } else {
        assert(s[s.len() - 2] == ',');
        let front = a + seq![','];
        assert(s.drop_last() =~= front);
        assert(front.drop_last() =~= a);
        assert(tokens(front) == tokens(a));
        assert(w =~= seq![w.last()]);
    }
}

/// A request that asks for what the command of a data view writes of a tensor's view,
/// shape and layout.
pub open spec fn asks_for(req: OpenRequest, s: SessionModel, name: Seq<char>, repr: Representation) -> bool {
    &&& match req.dtype {
        Some(o) => has_row(s.dtypes, name) && o.cli is Some && o.deep_view() == row_value(
            s.dtypes,
            name,
        ),
        None => !has_row(s.dtypes, name) || row_value(s.dtypes, name).1 is None,
    }
    &&& optional(req.shape) == if has_row(s.shapes, name) {
        Some(join(number_texts(row_value(s.shapes, name)), ","@))
    } else {
        None
    }
    &&& req.layout == Some(s.layout)
    &&& optional(req.edge_split) == if s.layout is Edges {
        s.edge_split
    } else {
        None
    }
    &&& req.window_at == if s.layout is Window && !(s.window_row == 0 && s.window_col == 0) {
        Some((s.window_row, s.window_col))
    } else {
        None
    }
    &&& req.zebra == if repr is Values && !(s.stripe is Rows) {
        Some(s.stripe)
    } else {
        None
    }
    &&& req.base == if repr is Values && !(s.base is Decimal) {
        Some(s.base)
    } else {
        None
    }
}

/// What a session remembers of a tensor can be asked for again: its view has a name on
/// the command line and is not the one that it opens in, its shape has its elements, and
/// the even split is not written.
pub open spec fn can_be_asked(s: SessionModel, t: TensorModel) -> bool {
    &&& readable_bytes(t.source_path)
    &&& has_row(s.dtypes, t.name) ==> {
        let v = row_value(s.dtypes, t.name);
        &&& v.1 is Some
        &&& !v.0.same_view(s.default_view(t.name))
        &&& !v.0.same_view(ViewDtype::Unpacked)
    }
    &&& has_row(s.shapes, t.name) ==> {
        let dims = row_value(s.shapes, t.name);
        &&& dims.len() > 0
        &&& product(dims) == t.num_elements
        &&& forall|i: int| 0 <= i < dims.len() ==> (#[trigger] dims[i]) > 0
    }
    &&& s.edge_split != Some("0.5,0.5"@)
}

/// A session in which nothing is remembered.
pub open spec fn nothing_chosen(s: SessionModel) -> bool {
    &&& s.dtypes.len() == 0
    &&& s.shapes.len() == 0
    &&& s.layout is Edges
    &&& s.edge_split is None
    &&& s.window_row == 0
    &&& s.window_col == 0
    &&& s.stripe is Rows
    &&& s.base is Decimal
}

/// The command of a data view reopens it: a new session that is asked for what the
/// command writes shows the tensor by the same dtype, in the same shape and layout, and
/// the numeric grid with the same stripes and base.
pub proof fn law_command_reopens(
    s: SessionModel,
    fresh: SessionModel,
    t: TensorModel,
    repr: Representation,
    req: OpenRequest,
)
    requires
        s.wf(),
        can_be_asked(s, t),
        nothing_chosen(fresh),
        fresh.packed == s.packed,
        asks_for(req, s, t.name, repr),
    ensures
        ({
            let now = with_request(fresh, t, req);
            &&& now.active_view(t.name) == s.active_view(t.name)
            &&& now.shape_of(t) == s.shape_of(t)
            &&& now.layout == s.layout
            &&& s.layout is Window ==> now.window_row == s.window_row && now.window_col
                == s.window_col
            &&& s.layout is Edges ==> now.edge_split == s.edge_split
            &&& repr is Values ==> now.stripe == s.stripe && now.base == s.base
        }),
{
    let viewed = with_requested_view(fresh, t, req);
    assert(names_ascend(fresh.dtypes));
    assert(names_ascend(fresh.shapes));
    assert(!has_row(fresh.dtypes, t.name));
    assert(!has_row(fresh.shapes, t.name));
    if req.dtype is Some {
        let o = req.dtype->0.deep_view();
        lemma_with_row(fresh.dtypes, t.name, o, t.name);
        lemma_with_row_ascends(fresh.dtypes, t.name, o);
    }
    if has_row(s.shapes, t.name) {
        let dims = row_value(s.shapes, t.name);
        law_shape_reads_back(dims, t.num_elements);
        lemma_with_row(viewed.shapes, t.name, dims, t.name);
    }
}

/// The command that reopens a screen; nothing for a tensor that is not there.
pub open spec fn reopened(
    b: Browsing,
    s: SessionModel,
    screen: ScreenModel,
    histogram: bool,
    stats: bool,
) -> Seq<char> {
    match screen {
        ScreenModel::Tree => join(selection_words(b, s), " "@),
        ScreenModel::Detail { tensor, .. } => if tensor_named(b.tensors, tensor, 0) is Some {
            join(detail_words(b, s, tensor, histogram, stats), " "@)
        } else {
            ""@
        },
        ScreenModel::Data { tensor, repr, slice } => if tensor_named(b.tensors, tensor, 0) is Some {
            join(data_words(b, s, tensor, repr, slice), " "@)
        } else {
            ""@
        },
    }
}

proof fn lemma_named(ts: Seq<TensorModel>, name: Seq<char>, i: int)
    requires
        i >= 0,
        ts.len() <= usize::MAX,
    ensures
        tensor_named(ts, name, i) is Some ==> ({
            let k = tensor_named(ts, name, i)->0;
            i <= k < ts.len() && ts[k as int].name == name
        }),
    decreases ts.len() - i,
{
    if i < ts.len() && ts[i].name != name {
        lemma_named(ts, name, i + 1);
    }
}

impl Explorer {
    /// The command that reopens a screen. `histogram` and `stats` tell whether the
    /// histogram and the statistics of a detail screen are there.
    pub fn reopen_command(&self, s: &Session, screen: &Screen, histogram: bool, stats: bool) -> (r:
        String)
        requires
            s.wf(),
        ensures
            r@ == reopened(self.deep_view(), s.deep_view(), screen.deep_view(), histogram, stats),
    {
        let ghost ts = self.tensors.deep_view();
        match screen {
            Screen::Tree => self.command_for_tree_selection(s),
            Screen::Detail { tensor, .. } => match find_tensor(&self.tensors, tensor.as_str()) {
                Some(i) => {
                    proof {
                        lemma_named(ts, tensor@, 0);
                        assert(ts[i as int] == self.tensors@[i as int].deep_view());
                    }
                    self.command_for_detail(s, &self.tensors[i], histogram, stats)
                },
                None => "".to_owned(),
            },
            Screen::Data { tensor, repr, slice } => match find_tensor(
                &self.tensors,
                tensor.as_str(),
            ) {
                Some(i) => {
                    proof {
                        lemma_named(ts, tensor@, 0);
                        assert(ts[i as int] == self.tensors@[i as int].deep_view());
                    }
                    self.command_for_data(s, &self.tensors[i], *repr, *slice)
                },
                None => "".to_owned(),
            },
        }
    }
}

// ---------------------------------------------------------------------------
// What a command says

/// An option with its value stands among the words.
pub open spec fn says(words: Seq<Seq<char>>, option: Seq<char>, value: Seq<char>) -> bool {
    exists|i: int|
        0 <= i < words.len() - 1 && #[trigger] words[i] == option && words[i + 1] == value
}

proof fn lemma_says(a: Seq<Seq<char>>, option: Seq<char>, value: Seq<char>, b: Seq<Seq<char>>)
    ensures
        says(a + seq![option, value] + b, option, value),
{
    let all = a + seq![option, value] + b;
    assert(all[a.len() as int] == option);
    assert(all[a.len() + 1int] == value);
}

/// A command begins with the program and the checkpoint, and names the tensor, the dtype it
/// is read by and the shape it is shown in, where they were chosen.
pub proof fn law_commands_name_the_tensor(b: Browsing, s: SessionModel, name: Seq<char>)
    ensures
        ({
            let words = base_words(b, s, name);
            &&& words[0] == "checkpoint-explorer"@
            &&& says(words, "--tensor"@, quoted(name))
            &&& has_row(s.dtypes, name) && row_value(s.dtypes, name).1 is Some ==> says(
                words,
                "--dtype"@,
                row_value(s.dtypes, name).1->0,
            )
            &&& has_row(s.shapes, name) ==> says(
                words,
                "--shape"@,
                join(number_texts(row_value(s.shapes, name)), ","@),
            )
            &&& b.files.len() == 1 ==> words[1] == quoted(b.files[0])
        }),
{
    let words = base_words(b, s, name);
    let lead = seq![PROGRAM@] + checkpoint_words(b.files);
    let dtype = if has_row(s.dtypes, name) && row_value(s.dtypes, name).1 is Some {
        seq!["--dtype"@, row_value(s.dtypes, name).1->0]
    } else {
        seq![]
    };
    let shape = if has_row(s.shapes, name) {
        seq!["--shape"@, join(number_texts(row_value(s.shapes, name)), ","@)]
    } else {
        seq![]
    };
    let tensor = seq!["--tensor"@, quoted(name)];
    assert(words =~= lead + tensor + (dtype + shape));
    lemma_says(lead, "--tensor"@, quoted(name), dtype + shape);
    if dtype.len() > 0 {
        assert(words =~= (lead + tensor) + dtype + shape);
        lemma_says(lead + tensor, "--dtype"@, row_value(s.dtypes, name).1->0, shape);
    }
    if shape.len() > 0 {
        assert(words =~= (lead + tensor + dtype) + shape + Seq::empty());
        lemma_says(
            lead + tensor + dtype,
            "--shape"@,
            join(number_texts(row_value(s.shapes, name)), ","@),
            Seq::empty(),
        );
    }
    if b.files.len() == 1 {
        assert(words[1] == checkpoint_words(b.files)[0]);
    }
}

/// The command of a data view says whether values or a heatmap are shown, the layout with
/// its place, the slice, and for values the stripes and the base where they are not the usual
/// ones.
pub proof fn law_commands_tell_the_view(
    b: Browsing,
    s: SessionModel,
    name: Seq<char>,
    repr: Representation,
    slice: usize,
)
    ensures
        ({
            let words = data_words(b, s, name, repr, slice);
            let n = base_words(b, s, name).len() as int;
            &&& words[n] == if repr is Heatmap {
                "--heatmap"@
            } else {
                "--values"@
            }
            &&& s.layout is Overview ==> words[n + 1] == "--overview"@
            &&& s.layout is Edges && s.edge_split is None ==> words[n + 1] == "--edge"@
            &&& s.layout is Edges && s.edge_split is Some ==> words[n + 1] == "--edge="@
                + s.edge_split->0
            &&& s.layout is Window && (s.window_row > 0 || s.window_col > 0) ==> words[n + 1]
                == "--window="@ + decimal(s.window_row as nat) + ","@ + decimal(s.window_col as nat)
            &&& slice > 0 ==> says(words, "--slice"@, decimal(slice as nat))
            &&& repr is Values && s.stripe is Cols ==> says(words, "--zebra"@, "cols"@)
            &&& repr is Values && s.stripe is Off ==> says(words, "--zebra"@, "off"@)
            &&& repr is Values && s.base is Hex ==> says(words, "--base"@, "hex"@)
            &&& repr is Values && s.base is Octal ==> says(words, "--base"@, "oct"@)
            &&& repr is Values && s.base is Binary ==> says(words, "--base"@, "bin"@)
        }),
{
    let words = data_words(b, s, name, repr, slice);
    let n = base_words(b, s, name).len() as int;
    let lead = base_words(b, s, name) + seq![
        match repr {
            Representation::Heatmap => "--heatmap"@,
            Representation::Values => "--values"@,
        },
        layout_word(s),
    ];
    let zebra = match s.stripe {
        StripeMode::Rows => seq![],
        StripeMode::Cols => seq!["--zebra"@, "cols"@],
        StripeMode::Off => seq!["--zebra"@, "off"@],
    };
    let base = if s.base is Decimal {
        seq![]
    } else {
        seq!["--base"@, s.base.label_text()]
    };
    let grid = if repr is Values {
        zebra + base
    } else {
        seq![]
    };
    let last = if slice > 0 {
        seq!["--slice"@, decimal(slice as nat)]
    } else {
        seq![]
    };
    assert(words =~= lead + grid + last);
    assert(words[n] == lead[n] && words[n + 1] == lead[n + 1]);
    if slice > 0 {
        assert(words =~= (lead + grid) + last + Seq::empty());
        lemma_says(lead + grid, "--slice"@, decimal(slice as nat), Seq::empty());
    }
    if repr is Values {
        if s.stripe is Cols {
            assert(words =~= lead + zebra + (base + last));
            lemma_says(lead, "--zebra"@, "cols"@, base + last);
        }
        if s.stripe is Off {
            assert(words =~= lead + zebra + (base + last));
            lemma_says(lead, "--zebra"@, "off"@, base + last);
        }
        if !(s.base is Decimal) {
            assert(words =~= (lead + zebra) + base + last);
            lemma_says(lead + zebra, "--base"@, s.base.label_text(), last);
        }
    }
}

/// The command of a tensor's details says whether its histogram and its statistics are asked
/// for; that of the tree whether all its groups are expanded, or all collapsed.
pub proof fn law_commands_tell_details_and_tree(
    b: Browsing,
    s: SessionModel,
    name: Seq<char>,
    histogram: bool,
    stats: bool,
)
    ensures
        ({
            let words = detail_words(b, s, name, histogram, stats);
            let n = base_words(b, s, name).len() as int;
            &&& histogram ==> words[n] == "--histogram"@
            &&& histogram && s.bins is Some ==> says(words, "--bins"@, decimal(s.bins->0 as nat))
            &&& stats ==> words.last() == "--compute-stats"@
            &&& !histogram && !stats ==> words == base_words(b, s, name)
        }),
        groups_are(b.tree, true) ==> says(tree_words(b), "--tree-state"@, "expanded"@),
        !groups_are(b.tree, true) && groups_are(b.tree, false) ==> says(
            tree_words(b),
            "--tree-state"@,
            "collapsed"@,
        ),
{
    let words = detail_words(b, s, name, histogram, stats);
    let base = base_words(b, s, name);
    let tail = if stats {
        seq!["--compute-stats"@]
    } else {
        seq![]
    };
    if histogram && s.bins is Some {
        assert(words =~= (base + seq!["--histogram"@]) + seq!["--bins"@, decimal(s.bins->0 as nat)]
            + tail);
        lemma_says(base + seq!["--histogram"@], "--bins"@, decimal(s.bins->0 as nat), tail);
    }
    if !histogram && !stats {
        assert(words =~= base);
    }
    let lead = seq![PROGRAM@] + checkpoint_words(b.files);
    if groups_are(b.tree, true) {
        assert(tree_words(b) =~= lead + seq!["--tree-state"@, "expanded"@] + Seq::empty());
        lemma_says(lead, "--tree-state"@, "expanded"@, Seq::empty());
    } else if groups_are(b.tree, false) {
        assert(tree_words(b) =~= lead + seq!["--tree-state"@, "collapsed"@] + Seq::empty());
        lemma_says(lead, "--tree-state"@, "collapsed"@, Seq::empty());
    }
}

/// The command of the tree's selected row names the tensor, or the metadata entry, that it
/// shows, and asks for the tree; that of a screen whose tensor is not there is empty.
pub proof fn law_commands_reopen_the_screen(b: Browsing, s: SessionModel, screen: ScreenModel)
    ensures
        b.selected < b.rows.len() && b.rows[b.selected as int].0 is Tensor ==> ({
            let words = selection_words(b, s);
            &&& says(words, "--tensor"@, quoted(b.rows[b.selected as int].0->Tensor_info.name))
            &&& words.contains("--tree"@)
        }),
        b.selected < b.rows.len() && b.rows[b.selected as int].0 is Metadata ==> ({
            let words = selection_words(b, s);
            &&& says(words, "--metadata"@, quoted(b.rows[b.selected as int].0->Metadata_info.name))
            &&& words.contains("--tree"@)
        }),
        b.selected >= b.rows.len() ==> selection_words(b, s) == tree_words(b),
        screen is Tree ==> reopened(b, s, screen, true, true) == join(selection_words(b, s), " "@),
        screen is Detail && tensor_named(b.tensors, screen->Detail_tensor, 0) is None ==> reopened(
            b,
            s,
            screen,
            true,
            true,
        ) == ""@,
        screen is Data && tensor_named(b.tensors, screen->Data_tensor, 0) is None ==> reopened(
            b,
            s,
            screen,
            true,
            true,
        ) == ""@,
        screen is Data && tensor_named(b.tensors, screen->Data_tensor, 0) is Some ==> reopened(
            b,
            s,
            screen,
            true,
            true,
        ) == join(
            data_words(b, s, screen->Data_tensor, screen->repr, screen->Data_slice),
            " "@,
        ),
{
    if b.selected < b.rows.len() {
        let n = b.rows[b.selected as int].0;
        let words = selection_words(b, s);
        let state = tree_state_words(b.tree);
        if n is Tensor {
            let name = n->Tensor_info.name;
            let base = base_words(b, s, name);
            law_commands_name_the_tensor(b, s, name);
            let i = choose|i: int|
                0 <= i < base.len() - 1 && #[trigger] base[i] == "--tensor"@ && base[i + 1] == quoted(
                    name,
                );
            assert(words[i] == base[i] && words[i + 1] == base[i + 1]);
            assert(words[base.len() as int] == "--tree"@);
        } else if n is Metadata {
            let name = quoted(n->Metadata_info.name);
            let lead = seq![PROGRAM@] + checkpoint_words(b.files);
            assert(words =~= lead + seq!["--metadata"@, name] + (seq!["--tree"@] + state));
            lemma_says(lead, "--metadata"@, name, seq!["--tree"@] + state);
            assert(words[lead.len() + 2int] == "--tree"@);
        }
    }
}

} // verus!
