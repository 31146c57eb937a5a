//! The structural difference between two checkpoints: their tensors by name, dtype
//! and shape, and their metadata by name, value and type.
use vstd::prelude::*;

use crate::namemap::{has_row, lemma_unique, names_ascend, row_value, with_row, NameMap};
use crate::order::{lemma_order, text_order};
use crate::schema::{collapse, collapsed, display_name, entry_models};
use crate::schema::{group_models, shown_name, signed};
use crate::schema::{lemma_members_below, members_below};
use crate::schema::{signed_string, singles, singletons, ChangeKey, Group, GroupModel};
use crate::text::{add_line, add_lines, end_lines, terminated};
use crate::text::{chars_of, decimal, decimal_string, from_chars, join, joined, pad_left, padded_left};
use crate::text::{substring, texts};
use crate::tree::{dup_numbers, MetadataInfo, MetadataModel, TensorInfo, TensorModel};
use crate::units::{format_shape, shape_text};

verus! {

pub const RED: &'static str = "\x1b[31m";

pub const GREEN: &'static str = "\x1b[32m";

pub const DIM: &'static str = "\x1b[2m";

pub const RESET: &'static str = "\x1b[0m";

/// How a difference is rendered.
#[derive(Clone, Copy)]
pub struct DiffOpts {
    /// Colour with ANSI escapes.
    pub color: bool,
    /// Show the metadata section.
    pub metadata: bool,
    /// Collapse entries that share a name template and the same change.
    pub group: bool,
    /// Element values were compared.
    pub values: bool,
    /// Value distributions were compared.
    pub histogram: bool,
    /// Only a subset of the tensors was compared.
    pub filtered: bool,
}

/// The element comparison of two tensors. The magnitudes are held as they are shown.
#[derive(Debug)]
pub struct ValueDiff {
    pub elements: u64,
    pub differing: u64,
    pub max_abs: String,
    pub mean_abs: String,
    pub nonfinite_mismatch: u64,
}

/// A tensor's distribution shift.
#[derive(Debug, Clone, Copy)]
pub struct HistShift {
    /// Whether the distributions differ at all.
    pub shifted: bool,
    pub bins: usize,
}

/// What was found about a tensor that is in both checkpoints, beyond its signature.
#[derive(Debug)]
pub struct TensorExtras {
    pub values: Option<ValueDiff>,
    pub histogram: Option<HistShift>,
}

/// The mathematical content of a [`ValueDiff`].
pub struct ValueDiffModel {
    pub elements: u64,
    pub differing: u64,
    pub max_abs: Seq<char>,
    pub mean_abs: Seq<char>,
    pub nonfinite_mismatch: u64,
}

impl DeepView for ValueDiff {
    type V = ValueDiffModel;

    open spec fn deep_view(&self) -> ValueDiffModel {
        ValueDiffModel {
            elements: self.elements,
            differing: self.differing,
            max_abs: self.max_abs@,
            mean_abs: self.mean_abs@,
            nonfinite_mismatch: self.nonfinite_mismatch,
        }
    }
}

impl Clone for ValueDiff {
    fn clone(&self) -> (r: ValueDiff)
        ensures
            r.deep_view() == self.deep_view(),
    {
        ValueDiff {
            elements: self.elements,
            differing: self.differing,
            max_abs: self.max_abs.clone(),
            mean_abs: self.mean_abs.clone(),
            nonfinite_mismatch: self.nonfinite_mismatch,
        }
    }
}

/// The mathematical content of a [`TensorExtras`].
pub struct ExtrasModel {
    pub values: Option<ValueDiffModel>,
    pub histogram: Option<HistShift>,
}

/// An optional value's content.
pub open spec fn opt_view<T: DeepView>(o: Option<T>) -> Option<T::V> {
    match o {
        Some(v) => Some(v.deep_view()),
        None => None,
    }
}

impl DeepView for TensorExtras {
    type V = ExtrasModel;

    open spec fn deep_view(&self) -> ExtrasModel {
        ExtrasModel { values: opt_view(self.values), histogram: self.histogram }
    }
}

impl Default for TensorExtras {
    fn default() -> (r: TensorExtras)
        ensures
            r.values is None,
            r.histogram is None,
    {
        TensorExtras { values: None, histogram: None }
    }
}

impl ExtrasModel {
    pub open spec fn differ(self) -> bool {
        (self.values is Some && self.values->0.differing > 0) || (self.histogram is Some
            && self.histogram->0.shifted)
    }
}

impl TensorExtras {
    /// Whether they indicate a difference by themselves.
    pub fn differ(&self) -> (b: bool)
        ensures
            b == self.deep_view().differ(),
    {
        let v = match &self.values {
            Some(v) => v.differing > 0,
            None => false,
        };
        let h = match &self.histogram {
            Some(h) => h.shifted,
            None => false,
        };
        v || h
    }
}

/// `text`, wrapped in a colour where `on`.
pub open spec fn painted(text: Seq<char>, on: bool, code: Seq<char>) -> Seq<char> {
    if on {
        code + text + RESET@
    } else {
        text
    }
}

/// Wrap text in an ANSI colour.
pub fn paint(text: &str, on: bool, code: &str) -> (r: String)
    ensures
        r@ == painted(text@, on, code@),
{
    if on {
        code.to_owned().concat(text).concat(RESET)
    } else {
        text.to_owned()
    }
}

// ---------------------------------------------------------------------------
// Signatures

/// What is compared of a tensor: dtype and shape.
#[derive(Debug)]
pub struct TensorSig {
    pub dtype: String,
    pub shape: Vec<usize>,
}

/// The mathematical content of a [`TensorSig`].
pub struct SigModel {
    pub dtype: Seq<char>,
    pub shape: Seq<usize>,
}

impl DeepView for TensorSig {
    type V = SigModel;

    open spec fn deep_view(&self) -> SigModel {
        SigModel { dtype: self.dtype@, shape: self.shape@ }
    }
}

/// Whether two lists of numbers are the same.
pub fn same_numbers(a: &Vec<usize>, b: &Vec<usize>) -> (r: bool)
    ensures
        r == (a@ == b@),
{
    if a.len() != b.len() {
        return false;
    }
    let mut i: usize = 0;
    while i < a.len()
        invariant
            i <= a.len(),
            a.len() == b.len(),
            forall|j: int| 0 <= j < i ==> #[trigger] a@[j] == b@[j],
        decreases a.len() - i,
    {
        if a[i] != b[i] {
            return false;
        }
        i = i + 1;
    }
    proof {
        assert(a@ =~= b@);
    }
    true
}

impl ChangeKey for TensorSig {
    fn same_as(&self, other: &TensorSig) -> (b: bool) {
        self.dtype == other.dtype && same_numbers(&self.shape, &other.shape)
    }

    fn dup(&self) -> (r: TensorSig) {
        TensorSig { dtype: self.dtype.clone(), shape: dup_numbers(&self.shape) }
    }
}

impl Clone for TensorSig {
    fn clone(&self) -> (r: TensorSig)
        ensures
            r.deep_view() == self.deep_view(),
    {
        self.dup()
    }
}

/// The signature of a tensor.
pub open spec fn sig_of(t: TensorModel) -> SigModel {
    SigModel { dtype: t.dtype, shape: t.shape }
}

impl SigModel {
    pub open spec fn text(self) -> Seq<char> {
        self.dtype + " "@ + shape_text(self.shape)
    }
}

impl TensorSig {
    /// The signature of a loaded tensor.
    pub fn of(t: &TensorInfo) -> (r: TensorSig)
        ensures
            r.deep_view() == sig_of(t.deep_view()),
    {
        TensorSig { dtype: t.dtype.clone(), shape: dup_numbers(&t.shape) }
    }

    /// The signature for display.
    pub fn render(&self) -> (r: String)
        ensures
            r@ == self.deep_view().text(),
    {
        self.dtype.clone().concat(" ").concat(format_shape(self.shape.as_slice()).as_str())
    }
}

/// The dimensions of one side, coloured where they differ from the other's.
pub open spec fn coloured_dims(own: Seq<usize>, other: Seq<usize>, code: Seq<char>) -> Seq<Seq<char>> {
    Seq::new(
        own.len(),
        |i: int| painted(decimal(own[i] as nat), own[i] != other[i], code),
    )
}

/// One side of a changed signature: the dtype coloured if it changed, and of the shape
/// the dimensions that changed, or all of it where the ranks differ.
pub open spec fn changed_side(own: SigModel, other: SigModel, color: bool, code: Seq<char>) -> Seq<char> {
    painted(own.dtype, color && own.dtype != other.dtype, code) + " "@ + (if !color {
        shape_text(own.shape)
    } else if own.shape.len() != other.shape.len() {
        painted(shape_text(own.shape), true, code)
    } else {
        "("@ + join(coloured_dims(own.shape, other.shape, code), ", "@) + ")"@
    })
}

fn render_side(own: &TensorSig, other: &TensorSig, color: bool, code: &str) -> (r: String)
    ensures
        r@ == changed_side(own.deep_view(), other.deep_view(), color, code@),
{
    let dtype = paint(own.dtype.as_str(), color && own.dtype != other.dtype, code);
    let shape = if !color {
        format_shape(own.shape.as_slice())
    } else if own.shape.len() != other.shape.len() {
        paint(format_shape(own.shape.as_slice()).as_str(), true, code)
    } else {
        let mut dims: Vec<String> = Vec::new();
        let mut i: usize = 0;
        while i < own.shape.len()
            invariant
                i <= own.shape.len(),
                own.shape.len() == other.shape.len(),
                dims.len() == i,
                forall|j: int|
                    0 <= j < i ==> (#[trigger] dims@[j])@ == coloured_dims(
                        own.shape@,
                        other.shape@,
                        code@,
                    )[j],
            decreases own.shape.len() - i,
        {
            let d = decimal_string(own.shape[i] as u128);
            dims.push(paint(d.as_str(), own.shape[i] != other.shape[i], code));
            i = i + 1;
        }
        proof {
            assert(texts(dims@) =~= coloured_dims(own.shape@, other.shape@, code@));
        }
        "(".to_owned().concat(joined(&dims, ", ").as_str()).concat(")")
    };
    dtype.concat(" ").concat(shape.as_str())
}

/// Both sides of a changed tensor, colouring only what differs: the old side red, the
/// new one green.
pub fn render_change(old_sig: &TensorSig, new_sig: &TensorSig, color: bool) -> (r: (String, String))
    ensures
        r.0@ == changed_side(old_sig.deep_view(), new_sig.deep_view(), color, RED@),
        r.1@ == changed_side(new_sig.deep_view(), old_sig.deep_view(), color, GREEN@),
{
    (render_side(old_sig, new_sig, color, RED), render_side(new_sig, old_sig, color, GREEN))
}

/// What is compared of a metadata entry.
#[derive(Debug)]
pub struct MetaVal {
    pub value: String,
    pub value_type: String,
}

/// The mathematical content of a [`MetaVal`].
pub struct MetaModel {
    pub value: Seq<char>,
    pub value_type: Seq<char>,
}

impl DeepView for MetaVal {
    type V = MetaModel;

    open spec fn deep_view(&self) -> MetaModel {
        MetaModel { value: self.value@, value_type: self.value_type@ }
    }
}

impl ChangeKey for MetaVal {
    fn same_as(&self, other: &MetaVal) -> (b: bool) {
        self.value == other.value && self.value_type == other.value_type
    }

    fn dup(&self) -> (r: MetaVal) {
        MetaVal { value: self.value.clone(), value_type: self.value_type.clone() }
    }
}

impl Clone for MetaVal {
    fn clone(&self) -> (r: MetaVal)
        ensures
            r.deep_view() == self.deep_view(),
    {
        self.dup()
    }
}

/// A value before and after.
#[derive(Debug)]
pub struct Pair<T> {
    pub old: T,
    pub new: T,
}

impl<T: DeepView> DeepView for Pair<T> {
    type V = (T::V, T::V);

    open spec fn deep_view(&self) -> (T::V, T::V) {
        (self.old.deep_view(), self.new.deep_view())
    }
}

impl<T: ChangeKey> ChangeKey for Pair<T> {
    fn same_as(&self, other: &Pair<T>) -> (b: bool) {
        self.old.same_as(&other.old) && self.new.same_as(&other.new)
    }

    fn dup(&self) -> (r: Pair<T>) {
        Pair { old: self.old.dup(), new: self.new.dup() }
    }
}

/// Nothing but the name.
#[derive(Debug)]
pub struct NoKey;

impl DeepView for NoKey {
    type V = ();

    open spec fn deep_view(&self) -> () {
        ()
    }
}

impl ChangeKey for NoKey {
    fn same_as(&self, other: &NoKey) -> (b: bool) {
        true
    }

    fn dup(&self) -> (r: NoKey) {
        NoKey
    }
}

/// Names alone as entries.
pub open spec fn bare(names: Seq<Seq<char>>) -> Seq<(Seq<char>, ())> {
    names.map_values(|n: Seq<char>| (n, ()))
}

/// The views of a list of string slices.
pub open spec fn strs(v: Seq<&str>) -> Seq<Seq<char>> {
    v.map_values(|s: &str| s@)
}

/// Names collapsed into their templates, each with the number of names that it
/// stands for.
pub open spec fn schema_of(names: Seq<Seq<char>>) -> Seq<(Seq<char>, nat)> {
    collapsed(bare(names), false).map_values(
        |g: GroupModel<()>| (shown_name(g.template, g.indices), g.members.len()),
    )
}

/// Collapse tensor names into their index templates, such as
/// `model.layers.{0-47}.mlp.weight`, with the number of names under each.
pub fn name_schema(names: &[&str]) -> (r: Vec<(String, usize)>)
    ensures
        r.len() == schema_of(strs(names@)).len(),
        forall|i: int|
            0 <= i < r.len() ==> (#[trigger] r@[i]).0@ == schema_of(strs(names@))[i].0 && r@[i].1
                == schema_of(strs(names@))[i].1,
{
    let mut items: Vec<(String, NoKey)> = Vec::new();
    let mut i: usize = 0;
    while i < names.len()
        invariant
            i <= names.len(),
            items.len() == i,
            forall|j: int| 0 <= j < i ==> (#[trigger] items@[j]).0@ == names@[j]@,
        decreases names.len() - i,
    {
        items.push((names[i].to_owned(), NoKey));
        i = i + 1;
    }
    proof {
        assert(entry_models(items@) =~= bare(strs(names@)));
    }
    let groups = collapse(&items, false);
    let ghost gm = group_models(groups@);
    let mut r: Vec<(String, usize)> = Vec::new();
    let mut i: usize = 0;
    while i < groups.len()
        invariant
            i <= groups.len(),
            gm == group_models(groups@),
            gm == collapsed(bare(strs(names@)), false),
            r.len() == i,
            forall|j: int|
                0 <= j < r.len() ==> (#[trigger] r@[j]).0@ == schema_of(strs(names@))[j].0 && r@[j].1
                    == schema_of(strs(names@))[j].1,
        decreases groups.len() - i,
    {
        proof {
            assert(gm[i as int] == groups@[i as int].model());
        }
        let name = display_name(groups[i].template.as_str(), &groups[i].indices);
        r.push((name, groups[i].members.len()));
        i = i + 1;
    }
    r
}

// ---------------------------------------------------------------------------
// Summaries

/// A checkpoint reduced to what is compared, in the order of the names.
#[derive(Debug)]
pub struct CheckpointSummary {
    pub tensors: NameMap<TensorSig>,
    pub metadata: NameMap<MetaVal>,
}

impl CheckpointSummary {
    pub open spec fn wf(self) -> bool {
        self.tensors.wf() && self.metadata.wf()
    }
}

/// The rows of a list of tensors, the last of a name winning.
pub open spec fn tensor_rows(ts: Seq<TensorModel>) -> Seq<(Seq<char>, SigModel)>
    decreases ts.len(),
{
    if ts.len() == 0 {
        Seq::empty()
    } else {
        with_row(tensor_rows(ts.drop_last()), ts.last().name, sig_of(ts.last()))
    }
}

/// The rows of a list of metadata entries, the last of a name winning.
pub open spec fn metadata_rows(ms: Seq<MetadataModel>) -> Seq<(Seq<char>, MetaModel)>
    decreases ms.len(),
{
    if ms.len() == 0 {
        Seq::empty()
    } else {
        let m = ms.last();
        with_row(
            metadata_rows(ms.drop_last()),
            m.name,
            MetaModel { value: m.value, value_type: m.value_type },
        )
    }
}

impl CheckpointSummary {
    /// Reduce a loaded checkpoint to what is compared. Where a name occurs more than
    /// once, the last one wins.
    pub fn from_loaded(tensors: &[TensorInfo], metadata: &[MetadataInfo]) -> (r: CheckpointSummary)
        ensures
            r.wf(),
            r.tensors.rows() == tensor_rows(tensors.deep_view()),
            r.metadata.rows() == metadata_rows(metadata.deep_view()),
    {
        let ghost ts = tensors.deep_view();
        let ghost ms = metadata.deep_view();
        let mut t: NameMap<TensorSig> = NameMap::new();
        let mut i: usize = 0;
        proof {
            assert(ts.take(0) =~= Seq::empty());
            assert(ms.take(0) =~= Seq::empty());
        }
        while i < tensors.len()
            invariant
                i <= tensors.len(),
                ts == tensors.deep_view(),
                t.wf(),
                t.rows() == tensor_rows(ts.take(i as int)),
            decreases tensors.len() - i,
        {
            proof {
                assert(ts.take(i + 1).drop_last() =~= ts.take(i as int));
                assert(ts.take(i + 1).last() == tensors@[i as int].deep_view());
            }
            t.insert(tensors[i].name.clone(), TensorSig::of(&tensors[i]));
            i = i + 1;
        }
        let mut m: NameMap<MetaVal> = NameMap::new();
        let mut i: usize = 0;
        while i < metadata.len()
            invariant
                i <= metadata.len(),
                ms == metadata.deep_view(),
                m.wf(),
                m.rows() == metadata_rows(ms.take(i as int)),
            decreases metadata.len() - i,
        {
            proof {
                assert(ms.take(i + 1).drop_last() =~= ms.take(i as int));
                assert(ms.take(i + 1).last() == metadata@[i as int].deep_view());
            }
            let v = MetaVal {
                value: metadata[i].value.clone(),
                value_type: metadata[i].value_type.clone(),
            };
            m.insert(metadata[i].name.clone(), v);
            i = i + 1;
        }
        proof {
            assert(ts.take(ts.len() as int) =~= ts);
            assert(ms.take(ms.len() as int) =~= ms);
        }
        CheckpointSummary { tensors: t, metadata: m }
    }
}


// ---------------------------------------------------------------------------
// Comparing

/// A tensor in both checkpoints that differs.
#[derive(Debug)]
pub struct TensorChange {
    pub name: String,
    pub old: TensorSig,
    pub new: TensorSig,
    pub values: Option<ValueDiff>,
    pub histogram: Option<HistShift>,
}

/// A metadata entry in both checkpoints that differs.
#[derive(Debug)]
pub struct MetaChange {
    pub name: String,
    pub old: MetaVal,
    pub new: MetaVal,
}

/// The mathematical content of a [`TensorChange`].
pub struct ChangeModel {
    pub name: Seq<char>,
    pub old_sig: SigModel,
    pub new_sig: SigModel,
    pub values: Option<ValueDiffModel>,
    pub histogram: Option<HistShift>,
}

impl DeepView for TensorChange {
    type V = ChangeModel;

    open spec fn deep_view(&self) -> ChangeModel {
        ChangeModel {
            name: self.name@,
            old_sig: self.old.deep_view(),
            new_sig: self.new.deep_view(),
            values: opt_view(self.values),
            histogram: self.histogram,
        }
    }
}

impl DeepView for MetaChange {
    type V = (Seq<char>, (MetaModel, MetaModel));

    open spec fn deep_view(&self) -> (Seq<char>, (MetaModel, MetaModel)) {
        (self.name@, (self.old.deep_view(), self.new.deep_view()))
    }
}

/// The difference between two checkpoints, from the old to the new.
#[derive(Debug)]
pub struct DiffReport {
    pub tensors_removed: Vec<(String, TensorSig)>,
    pub tensors_added: Vec<(String, TensorSig)>,
    pub tensors_changed: Vec<TensorChange>,
    pub tensors_unchanged: usize,
    pub meta_removed: Vec<(String, MetaVal)>,
    pub meta_added: Vec<(String, MetaVal)>,
    pub meta_changed: Vec<MetaChange>,
    pub meta_unchanged: usize,
}

/// The mathematical content of a [`DiffReport`].
pub struct ReportModel {
    pub tensors_removed: Seq<(Seq<char>, SigModel)>,
    pub tensors_added: Seq<(Seq<char>, SigModel)>,
    pub tensors_changed: Seq<ChangeModel>,
    pub tensors_unchanged: nat,
    pub meta_removed: Seq<(Seq<char>, MetaModel)>,
    pub meta_added: Seq<(Seq<char>, MetaModel)>,
    pub meta_changed: Seq<(Seq<char>, (MetaModel, MetaModel))>,
    pub meta_unchanged: nat,
}

impl DeepView for DiffReport {
    type V = ReportModel;

    open spec fn deep_view(&self) -> ReportModel {
        ReportModel {
            tensors_removed: entry_models(self.tensors_removed@),
            tensors_added: entry_models(self.tensors_added@),
            tensors_changed: self.tensors_changed.deep_view(),
            tensors_unchanged: self.tensors_unchanged as nat,
            meta_removed: entry_models(self.meta_removed@),
            meta_added: entry_models(self.meta_added@),
            meta_changed: self.meta_changed.deep_view(),
            meta_unchanged: self.meta_unchanged as nat,
        }
    }
}

/// The rows of `a` whose names do not occur in `b`.
pub open spec fn only_in<T>(a: Seq<(Seq<char>, T)>, b: Seq<(Seq<char>, T)>) -> Seq<(Seq<char>, T)> {
    a.filter(row_in(b, false))
}

/// The rows of `a` whose names occur in `b` as well.
pub open spec fn shared<T>(a: Seq<(Seq<char>, T)>, b: Seq<(Seq<char>, T)>) -> Seq<(Seq<char>, T)> {
    a.filter(row_in(b, true))
}

/// Whether a row's name occurs (or does not occur) in `b`.
pub open spec fn row_in<T>(b: Seq<(Seq<char>, T)>, there: bool) -> spec_fn((Seq<char>, T)) -> bool {
    |e: (Seq<char>, T)| has_row(b, e.0) == there
}

/// Of the tensors in both, those whose signature or whose extras differ.
pub open spec fn changes(
    both: Seq<(Seq<char>, SigModel)>,
    new_rows: Seq<(Seq<char>, SigModel)>,
    extras: Seq<ExtrasModel>,
) -> Seq<ChangeModel>
    decreases both.len(),
{
    if both.len() == 0 {
        Seq::empty()
    } else {
        let r = changes(both.drop_last(), new_rows, extras.drop_last());
        let (name, old_sig) = both.last();
        let new_sig = row_value(new_rows, name);
        if new_sig != old_sig || extras.last().differ() {
            r.push(
                ChangeModel {
                    name,
                    old_sig,
                    new_sig,
                    values: extras.last().values,
                    histogram: extras.last().histogram,
                },
            )
        } else {
            r
        }
    }
}

/// Of the metadata in both, what differs.
pub open spec fn meta_changes(
    both: Seq<(Seq<char>, MetaModel)>,
    new_rows: Seq<(Seq<char>, MetaModel)>,
) -> Seq<(Seq<char>, (MetaModel, MetaModel))>
    decreases both.len(),
{
    if both.len() == 0 {
        Seq::empty()
    } else {
        let r = meta_changes(both.drop_last(), new_rows);
        let (name, old_val) = both.last();
        if row_value(new_rows, name) != old_val {
            r.push((name, (old_val, row_value(new_rows, name))))
        } else {
            r
        }
    }
}

/// The difference between two checkpoints, where `extras` was found about the tensors
/// in both.
pub open spec fn difference(
    old_t: Seq<(Seq<char>, SigModel)>,
    new_t: Seq<(Seq<char>, SigModel)>,
    old_m: Seq<(Seq<char>, MetaModel)>,
    new_m: Seq<(Seq<char>, MetaModel)>,
    extras: Seq<ExtrasModel>,
) -> ReportModel {
    ReportModel {
        tensors_removed: only_in(old_t, new_t),
        tensors_added: only_in(new_t, old_t),
        tensors_changed: changes(shared(old_t, new_t), new_t, extras),
        tensors_unchanged: (shared(old_t, new_t).len() - changes(
            shared(old_t, new_t),
            new_t,
            extras,
        ).len()) as nat,
        meta_removed: only_in(old_m, new_m),
        meta_added: only_in(new_m, old_m),
        meta_changed: meta_changes(shared(old_m, new_m), new_m),
        meta_unchanged: (shared(old_m, new_m).len() - meta_changes(
            shared(old_m, new_m),
            new_m,
        ).len()) as nat,
    }
}

/// The entries of `a` whose names occur in `b` (or do not).
pub fn entries_where<K: ChangeKey>(a: &NameMap<K>, b: &NameMap<K>, there: bool) -> (r: Vec<(String, K)>)
    requires
        a.wf(),
        b.wf(),
    ensures
        entry_models(r@) == a.rows().filter(row_in(b.rows(), there)),
{
    let ghost rows = a.rows();
    let ghost keep = row_in(b.rows(), there);
    let mut r: Vec<(String, K)> = Vec::new();
    let mut i: usize = 0;
    proof {
        rows.take(0).lemma_filter_len(keep);
        assert(entry_models(r@) =~= rows.take(0).filter(keep));
    }
    while i < a.len()
        invariant
            i <= rows.len(),
            rows == a.rows(),
            b.wf(),
            keep == row_in(b.rows(), there),
            entry_models(r@) == rows.take(i as int).filter(keep),
        decreases rows.len() - i,
    {
        proof {
            assert(rows.take(i + 1) =~= rows.take(i as int).push(rows[i as int]));
            rows.take(i as int).lemma_filter_push(rows[i as int], keep);
        }
        let name = a.name_at(i);
        if b.contains_key(name) == there {
            let ghost before = entry_models(r@);
            r.push((name.to_owned(), a.value_at(i).dup()));
            proof {
                assert(entry_models(r@) =~= before.push(rows[i as int]));
            }
        }
        i = i + 1;
    }
    proof {
        assert(rows.take(i as int) =~= rows);
    }
    r
}

proof fn lemma_filter_holds<T>(s: Seq<T>, p: spec_fn(T) -> bool, i: int)
    requires
        0 <= i < s.filter(p).len(),
    ensures
        p(s.filter(p)[i]),
{
    broadcast use vstd::seq_lib::group_filter_ensures;

}

/// The number of changes never exceeds the number of tensors in both.
proof fn lemma_changes_len(
    both: Seq<(Seq<char>, SigModel)>,
    new_rows: Seq<(Seq<char>, SigModel)>,
    extras: Seq<ExtrasModel>,
)
    ensures
        changes(both, new_rows, extras).len() <= both.len(),
    decreases both.len(),
{
    if both.len() > 0 {
        lemma_changes_len(both.drop_last(), new_rows, extras.drop_last());
    }
}

/// The names of the tensors that are in both checkpoints, in order.
pub open spec fn common_names(old_sum: CheckpointSummary, new_sum: CheckpointSummary) -> Seq<
    Seq<char>,
> {
    shared(old_sum.tensors.rows(), new_sum.tensors.rows()).map_values(
        |e: (Seq<char>, SigModel)| e.0,
    )
}

/// The names of the tensors that are in both checkpoints, in order.
pub fn shared_names(old_sum: &CheckpointSummary, new_sum: &CheckpointSummary) -> (r: Vec<String>)
    requires
        old_sum.wf(),
        new_sum.wf(),
    ensures
        texts(r@) == common_names(*old_sum, *new_sum),
{
    let both = entries_where(&old_sum.tensors, &new_sum.tensors, true);
    let mut r: Vec<String> = Vec::new();
    let mut i: usize = 0;
    while i < both.len()
        invariant
            i <= both.len(),
            r.len() == i,
            forall|j: int| 0 <= j < i ==> (#[trigger] r@[j])@ == both@[j].0@,
        decreases both.len() - i,
    {
        r.push(both[i].0.clone());
        i = i + 1;
    }
    proof {
        assert(texts(r@) =~= entry_models(both@).map_values(|e: (Seq<char>, SigModel)| e.0));
    }
    r
}

/// The difference between two checkpoints, given what was found about each tensor
/// that is in both.
pub fn compare_found(
    old_sum: &CheckpointSummary,
    new_sum: &CheckpointSummary,
    extras: Vec<TensorExtras>,
) -> (r: DiffReport)
    requires
        old_sum.wf(),
        new_sum.wf(),
        extras.len() == shared(old_sum.tensors.rows(), new_sum.tensors.rows()).len(),
    ensures
        r.deep_view() == difference(
            old_sum.tensors.rows(),
            new_sum.tensors.rows(),
            old_sum.metadata.rows(),
            new_sum.metadata.rows(),
            extras.deep_view(),
        ),
{
    let ghost new_t = new_sum.tensors.rows();
    let ghost new_m = new_sum.metadata.rows();
    let tensors_removed = entries_where(&old_sum.tensors, &new_sum.tensors, false);
    let tensors_added = entries_where(&new_sum.tensors, &old_sum.tensors, false);
    let both = entries_where(&old_sum.tensors, &new_sum.tensors, true);
    let ghost all = entry_models(both@);
    let ghost xs = extras.deep_view();
    let ghost given = extras@;
    let mut tensors_changed: Vec<TensorChange> = Vec::new();
    let mut i: usize = 0;
    proof {
        assert(all.take(0) =~= Seq::empty());
        assert(tensors_changed.deep_view() =~= changes(all.take(0), new_t, xs.take(0)));
    }
    for x in it: extras
        invariant
            it.seq() == given,
            i == it.index(),
            i <= both.len(),
            given.len() == both.len(),
            all == entry_models(both@),
            all == shared(old_sum.tensors.rows(), new_t),
            new_t == new_sum.tensors.rows(),
            new_sum.wf(),
            xs == Seq::new(given.len(), |k: int| given[k].deep_view()),
            tensors_changed.deep_view() == changes(
                all.take(i as int),
                new_t,
                xs.take(i as int),
            ),
            tensors_changed.len() <= i,
    {
        proof {
            lemma_filter_holds(old_sum.tensors.rows(), row_in(new_t, true), i as int);
            assert(all.take(i + 1).drop_last() =~= all.take(i as int));
            assert(xs.take(i + 1).drop_last() =~= xs.take(i as int));
            assert(all.take(i + 1).last() == (both@[i as int].0@, both@[i as int].1.deep_view()));
            assert(xs.take(i + 1).last() == x.deep_view());
        }
        let ghost before = tensors_changed.deep_view();
        match new_sum.tensors.get(both[i].0.as_str()) {
            Some(n) => {
                if !n.same_as(&both[i].1) || x.differ() {
                    let c = TensorChange {
                        name: both[i].0.clone(),
                        old: both[i].1.dup(),
                        new: n.dup(),
                        values: x.values,
                        histogram: x.histogram,
                    };
                    tensors_changed.push(c);
                    proof {
                        assert(tensors_changed.deep_view() =~= before.push(c.deep_view()));
                    }
                }
            },
            None => {
                proof {
                    assert(false);
                }
            },
        }
        i = i + 1;
    }
    let tensors_unchanged = both.len() - tensors_changed.len();
    let meta_removed = entries_where(&old_sum.metadata, &new_sum.metadata, false);
    let meta_added = entries_where(&new_sum.metadata, &old_sum.metadata, false);
    let mboth = entries_where(&old_sum.metadata, &new_sum.metadata, true);
    let ghost mall = entry_models(mboth@);
    let mut meta_changed: Vec<MetaChange> = Vec::new();
    let mut i: usize = 0;
    proof {
        assert(all.take(all.len() as int) =~= all);
        assert(xs.take(xs.len() as int) =~= xs);
        assert(mall.take(0) =~= Seq::empty());
        assert(meta_changed.deep_view() =~= meta_changes(mall.take(0), new_m));
    }
    while i < mboth.len()
        invariant
            i <= mboth.len(),
            mall == entry_models(mboth@),
            mall == shared(old_sum.metadata.rows(), new_m),
            new_m == new_sum.metadata.rows(),
            new_sum.wf(),
            meta_changed.deep_view() == meta_changes(mall.take(i as int), new_m),
            meta_changed.len() <= i,
        decreases mboth.len() - i,
    {
        proof {
            lemma_filter_holds(old_sum.metadata.rows(), row_in(new_m, true), i as int);
            assert(mall.take(i + 1).drop_last() =~= mall.take(i as int));
            assert(mall.take(i + 1).last() == (mboth@[i as int].0@, mboth@[i as int].1.deep_view()));
        }
        let ghost before = meta_changed.deep_view();
        match new_sum.metadata.get(mboth[i].0.as_str()) {
            Some(n) => {
                if !n.same_as(&mboth[i].1) {
                    let c = MetaChange {
                        name: mboth[i].0.clone(),
                        old: mboth[i].1.dup(),
                        new: n.dup(),
                    };
                    meta_changed.push(c);
                    proof {
                        assert(meta_changed.deep_view() =~= before.push(c.deep_view()));
                    }
                }
            },
            None => {
                proof {
                    assert(false);
                }
            },
        }
        i = i + 1;
    }
    let meta_unchanged = mboth.len() - meta_changed.len();
    proof {
        assert(mall.take(mall.len() as int) =~= mall);
        assert(meta_changed.deep_view().len() == meta_changed.len());
        assert(tensors_changed.deep_view().len() == tensors_changed.len());
    }
    DiffReport {
        tensors_removed,
        tensors_added,
        tensors_changed,
        tensors_unchanged,
        meta_removed,
        meta_added,
        meta_changed,
        meta_unchanged,
    }
}

/// Nothing found about `n` tensors.
pub open spec fn no_extras(n: nat) -> Seq<ExtrasModel> {
    Seq::new(n, |i: int| ExtrasModel { values: None, histogram: None })
}

/// The structural difference between two checkpoints. Tensor values are not looked at.
pub fn compare(old_sum: &CheckpointSummary, new_sum: &CheckpointSummary) -> (r: DiffReport)
    requires
        old_sum.wf(),
        new_sum.wf(),
    ensures
        r.deep_view() == difference(
            old_sum.tensors.rows(),
            new_sum.tensors.rows(),
            old_sum.metadata.rows(),
            new_sum.metadata.rows(),
            no_extras(shared(old_sum.tensors.rows(), new_sum.tensors.rows()).len()),
        ),
{
    let names = shared_names(old_sum, new_sum);
    let n = names.len();
    let mut extras: Vec<TensorExtras> = Vec::new();
    proof {
        assert(texts(names@).len() == names@.len());
    }
    let mut i: usize = 0;
    while i < n
        invariant
            i <= n,
            extras.len() == i,
            forall|j: int| 0 <= j < i ==> (#[trigger] extras@[j]).deep_view() == no_extras(n as nat)[j],
        decreases n - i,
    {
        extras.push(TensorExtras::default());
        i = i + 1;
    }
    proof {
        assert(extras.deep_view() =~= no_extras(n as nat));
    }
    compare_found(old_sum, new_sum, extras)
}

/// What `extras_fn` may have found about the tensors in both checkpoints.
pub open spec fn found_by<F: Fn(&str) -> TensorExtras>(
    extras_fn: F,
    names: Seq<Seq<char>>,
    extras: Seq<TensorExtras>,
) -> bool {
    &&& extras.len() == names.len()
    &&& forall|i: int|
        0 <= i < names.len() ==> answers(extras_fn, names[i], #[trigger] extras[i])
}

/// `x` is what `extras_fn` may say of a tensor.
pub open spec fn answers<F: Fn(&str) -> TensorExtras>(
    extras_fn: F,
    name: Seq<char>,
    x: TensorExtras,
) -> bool {
    exists|s: &str| s@ == name && #[trigger] call_ensures(extras_fn, (s,), x)
}

/// Like [`compare`], but asks `extras_fn` about each tensor that is in both
/// checkpoints. A tensor counts as changed when its dtype or shape differs or when what
/// was found about it says so.
pub fn compare_with<F: Fn(&str) -> TensorExtras>(
    old_sum: &CheckpointSummary,
    new_sum: &CheckpointSummary,
    extras_fn: F,
) -> (r: DiffReport)
    requires
        old_sum.wf(),
        new_sum.wf(),
        forall|s: &str| call_requires(extras_fn, (s,)),
    ensures
        exists|extras: Seq<TensorExtras>| #[trigger]
            found_by(
                extras_fn,
                common_names(*old_sum, *new_sum),
                extras,
            ) && r.deep_view() == difference(
                old_sum.tensors.rows(),
                new_sum.tensors.rows(),
                old_sum.metadata.rows(),
                new_sum.metadata.rows(),
                extras.map_values(|x: TensorExtras| x.deep_view()),
            ),
{
    let names = shared_names(old_sum, new_sum);
    let ghost nm = texts(names@);
    let mut extras: Vec<TensorExtras> = Vec::new();
    let mut i: usize = 0;
    while i < names.len()
        invariant
            i <= names.len(),
            nm == texts(names@),
            extras.len() == i,
            forall|s: &str| call_requires(extras_fn, (s,)),
            forall|j: int|
                0 <= j < i ==> answers(extras_fn, nm[j], #[trigger] extras@[j]),
        decreases names.len() - i,
    {
        let s = names[i].as_str();
        let x = extras_fn(s);
        proof {
            assert(s@ == nm[i as int]);
            assert(call_ensures(extras_fn, (s,), x));
            assert(answers(extras_fn, nm[i as int], x));
        }
        extras.push(x);
        i = i + 1;
    }
    let ghost given = extras@;
    proof {
        assert(found_by(extras_fn, nm, given));
        assert(extras.deep_view() =~= given.map_values(|x: TensorExtras| x.deep_view()));
    }
    compare_found(old_sum, new_sum, extras)
}

impl ReportModel {
    pub open spec fn any(self) -> bool {
        self.tensors_removed.len() > 0 || self.tensors_added.len() > 0 || self.tensors_changed.len()
            > 0 || self.meta_removed.len() > 0 || self.meta_added.len() > 0
            || self.meta_changed.len() > 0
    }
}

impl DiffReport {
    /// Whether anything was added, removed or changed.
    pub fn has_differences(&self) -> (b: bool)
        ensures
            b == self.deep_view().any(),
    {
        self.tensors_removed.len() > 0 || self.tensors_added.len() > 0 || self.tensors_changed.len()
            > 0 || self.meta_removed.len() > 0 || self.meta_added.len() > 0
            || self.meta_changed.len() > 0
    }
}


// ---------------------------------------------------------------------------
// Rendering

/// The `  (×N)` behind a collapsed group.
pub open spec fn suffix(count: nat) -> Seq<char> {
    if count > 1 {
        "  (×"@ + decimal(count) + ")"@
    } else {
        ""@
    }
}

fn count_suffix(count: usize) -> (r: String)
    ensures
        r@ == suffix(count as nat),
{
    if count > 1 {
        "  (×".to_owned().concat(decimal_string(count as u128).as_str()).concat(")")
    } else {
        "".to_owned()
    }
}

/// A metadata value on one line, cut to a readable length.
pub open spec fn quoted(v: Seq<char>) -> Seq<char> {
    let flat = v.map_values(
        |c: char|
            if c == '\n' || c == '\r' {
                ' '
            } else {
                c
            },
    );
    if flat.len() > 60 {
        "\""@ + flat.take(60) + "…\""@
    } else {
        "\""@ + flat + "\""@
    }
}

/// Quote a metadata value: line breaks become spaces, and at most 60 characters are
/// shown.
pub fn quote_trunc(v: &str) -> (r: String)
    ensures
        r@ == quoted(v@),
{
    let c = chars_of(v);
    let ghost map = |c: char|
        if c == '\n' || c == '\r' {
            ' '
        } else {
            c
        };
    let mut flat: Vec<char> = Vec::new();
    let mut i: usize = 0;
    while i < c.len()
        invariant
            i <= c.len(),
            flat.len() == i,
            forall|j: int|
                0 <= j < i ==> #[trigger] flat@[j] == (if c@[j] == '\n' || c@[j] == '\r' {
                    ' '
                } else {
                    c@[j]
                }),
        decreases c.len() - i,
    {
        if c[i] == '\n' || c[i] == '\r' {
            flat.push(' ');
        } else {
            flat.push(c[i]);
        }
        i = i + 1;
    }
    proof {
        assert(flat@ =~= v@.map_values(map));
    }
    if flat.len() > 60 {
        let head = substring(&flat, 0, 60);
        proof {
            assert(flat@.subrange(0, 60) =~= flat@.take(60));
        }
        "\"".to_owned().concat(head.as_str()).concat("…\"")
    } else {
        "\"".to_owned().concat(from_chars(&flat).as_str()).concat("\"")
    }
}

/// The line of an element comparison.
pub open spec fn values_line(
    differing: nat,
    elements: nat,
    max_abs: Seq<char>,
    mean_abs: Seq<char>,
    nonfinite: nat,
) -> Seq<char> {
    "    values: "@ + decimal(differing) + " of "@ + decimal(elements) + " differ  (max |Δ| "@
        + max_abs + ", mean |Δ| "@ + mean_abs + ")"@ + (if nonfinite > 0 {
        "  ["@ + decimal(nonfinite) + " non-finite mismatch]"@
    } else {
        ""@
    })
}

fn value_line(
    differing: u128,
    elements: u128,
    max_abs: &str,
    mean_abs: &str,
    nonfinite: u128,
) -> (r: String)
    ensures
        r@ == values_line(
            differing as nat,
            elements as nat,
            max_abs@,
            mean_abs@,
            nonfinite as nat,
        ),
{
    let tail = if nonfinite > 0 {
        "  [".to_owned().concat(decimal_string(nonfinite).as_str()).concat(" non-finite mismatch]")
    } else {
        "".to_owned()
    };
    "    values: ".to_owned().concat(decimal_string(differing).as_str()).concat(" of ").concat(
        decimal_string(elements).as_str(),
    ).concat(" differ  (max |Δ| ").concat(max_abs).concat(", mean |Δ| ").concat(mean_abs).concat(
        ")",
    ).concat(tail.as_str())
}

/// The magnitudes over a group of changed tensors, as they are shown.
#[derive(Debug)]
pub struct GroupNote {
    /// The largest difference of any element.
    pub max_abs: String,
    /// The mean difference, over all elements.
    pub mean_abs: String,
    /// The largest total variation distance.
    pub tvd_max: String,
    /// The mean total variation distance.
    pub tvd_mean: String,
}

/// The mathematical content of a [`GroupNote`].
pub struct NoteModel {
    pub max_abs: Seq<char>,
    pub mean_abs: Seq<char>,
    pub tvd_max: Seq<char>,
    pub tvd_mean: Seq<char>,
}

impl DeepView for GroupNote {
    type V = NoteModel;

    open spec fn deep_view(&self) -> NoteModel {
        NoteModel {
            max_abs: self.max_abs@,
            mean_abs: self.mean_abs@,
            tvd_max: self.tvd_max@,
            tvd_mean: self.tvd_mean@,
        }
    }
}

/// Element counts over a group.
#[derive(Clone, Copy)]
pub struct GroupCounts {
    /// Whether any member's elements were compared.
    pub compared: bool,
    pub elements: u128,
    pub differing: u128,
    pub nonfinite: u128,
    /// How many members' distributions were compared, and over how many bins.
    pub histograms: usize,
    pub bins: usize,
}

/// The counts over the members of a group.
pub open spec fn counts_of(items: Seq<ChangeModel>, members: Seq<usize>) -> GroupCounts
    decreases members.len(),
{
    if members.len() == 0 {
        GroupCounts {
            compared: false,
            elements: 0,
            differing: 0,
            nonfinite: 0,
            histograms: 0,
            bins: 0,
        }
    } else {
        let c = counts_of(items, members.drop_last());
        let m = items[members.last() as int];
        GroupCounts {
            compared: c.compared || m.values is Some,
            elements: match m.values {
                Some(v) => (c.elements + v.elements) as u128,
                None => c.elements,
            },
            differing: match m.values {
                Some(v) => (c.differing + v.differing) as u128,
                None => c.differing,
            },
            nonfinite: match m.values {
                Some(v) => (c.nonfinite + v.nonfinite_mismatch) as u128,
                None => c.nonfinite,
            },
            histograms: match m.histogram {
                Some(h) => (c.histograms + 1) as usize,
                None => c.histograms,
            },
            bins: match m.histogram {
                Some(h) => h.bins,
                None => c.bins,
            },
        }
    }
}

fn count_group(items: &Vec<TensorChange>, members: &Vec<usize>) -> (r: GroupCounts)
    requires
        forall|i: int| 0 <= i < members.len() ==> #[trigger] members@[i] < items.len(),
    ensures
        r == counts_of(items.deep_view(), members@),
{
    let ghost all = items.deep_view();
    let mut r = GroupCounts {
        compared: false,
        elements: 0,
        differing: 0,
        nonfinite: 0,
        histograms: 0,
        bins: 0,
    };
    let mut i: usize = 0;
    proof {
        assert(members@.take(0) =~= Seq::empty());
    }
    while i < members.len()
        invariant
            i <= members.len(),
            all == items.deep_view(),
            forall|j: int| 0 <= j < members.len() ==> #[trigger] members@[j] < items.len(),
            r == counts_of(all, members@.take(i as int)),
            r.elements <= i * 0xffff_ffff_ffff_ffff,
            r.differing <= i * 0xffff_ffff_ffff_ffff,
            r.nonfinite <= i * 0xffff_ffff_ffff_ffff,
            r.histograms <= i,
        decreases members.len() - i,
    {
        proof {
            assert(members@.take(i + 1).drop_last() =~= members@.take(i as int));
            assert(members@[i as int] < items.len());
        }
        let m = &items[members[i]];
        proof {
            assert(all[members@[i as int] as int] == m.deep_view());
        }
        if let Some(v) = &m.values {
            r.compared = true;
            r.elements = r.elements + v.elements as u128;
            r.differing = r.differing + v.differing as u128;
            r.nonfinite = r.nonfinite + v.nonfinite_mismatch as u128;
        }
        if let Some(h) = &m.histogram {
            r.histograms = r.histograms + 1;
            r.bins = h.bins;
        }
        i = i + 1;
    }
    proof {
        assert(members@.take(i as int) =~= members@);
    }
    r
}

/// The line of a distribution comparison.
pub open spec fn shift_line(c: GroupCounts, note: NoteModel) -> Seq<char> {
    if c.histograms == 0 {
        "    histogram: not compared (shapes differ)"@
    } else if c.histograms == 1 {
        "    histogram: TVD "@ + note.tvd_max + " ("@ + decimal(c.bins as nat) + " bins)"@
    } else {
        "    histogram: TVD max "@ + note.tvd_max + " mean "@ + note.tvd_mean + " ("@ + decimal(
            c.bins as nat,
        ) + " bins)"@
    }
}

fn histogram_line(c: GroupCounts, note: &GroupNote) -> (r: String)
    ensures
        r@ == shift_line(c, note.deep_view()),
{
    if c.histograms == 0 {
        "    histogram: not compared (shapes differ)".to_owned()
    } else if c.histograms == 1 {
        "    histogram: TVD ".to_owned().concat(note.tvd_max.as_str()).concat(" (").concat(
            decimal_string(c.bins as u128).as_str(),
        ).concat(" bins)")
    } else {
        "    histogram: TVD max ".to_owned().concat(note.tvd_max.as_str()).concat(" mean ").concat(
            note.tvd_mean.as_str(),
        ).concat(" (").concat(decimal_string(c.bins as u128).as_str()).concat(" bins)")
    }
}

/// The entries of a list, collapsed or one by one.
pub open spec fn entry_groups<M>(items: Seq<(Seq<char>, M)>, group: bool) -> Seq<GroupModel<M>> {
    if group {
        collapsed(items, false)
    } else {
        singles(items)
    }
}

fn grouped<K: ChangeKey>(items: &Vec<(String, K)>, group: bool) -> (r: Vec<Group<K>>)
    ensures
        group_models(r@) == entry_groups(entry_models(items@), group),
{
    if group {
        collapse(items, false)
    } else {
        singletons(items)
    }
}

/// The line of a removed or added tensor.
pub open spec fn tensor_line(mark: Seq<char>, code: Seq<char>, color: bool) -> spec_fn(
    GroupModel<SigModel>,
) -> Seq<char> {
    |g: GroupModel<SigModel>|
        "  "@ + painted(
            mark + shown_name(g.template, g.indices) + "  ["@ + g.key.text() + "]"@,
            color,
            code,
        ) + suffix(g.members.len())
}

/// The line of a removed or added metadata entry.
pub open spec fn meta_line(mark: Seq<char>, code: Seq<char>, color: bool) -> spec_fn(
    GroupModel<MetaModel>,
) -> Seq<char> {
    |g: GroupModel<MetaModel>|
        "  "@ + painted(
            mark + shown_name(g.template, g.indices) + " = "@ + quoted(g.key.value),
            color,
            code,
        ) + suffix(g.members.len())
}

/// The line of a changed metadata entry.
pub open spec fn meta_change_line(color: bool) -> spec_fn(
    GroupModel<(MetaModel, MetaModel)>,
) -> Seq<char> {
    |g: GroupModel<(MetaModel, MetaModel)>|
        if g.key.0.value != g.key.1.value {
            "  ~ "@ + shown_name(g.template, g.indices) + " = "@ + painted(
                quoted(g.key.0.value),
                color,
                RED@,
            ) + " → "@ + painted(quoted(g.key.1.value), color, GREEN@) + suffix(g.members.len())
        } else {
            "  ~ "@ + shown_name(g.template, g.indices) + " (type "@ + painted(
                g.key.0.value_type,
                color,
                RED@,
            ) + " → "@ + painted(g.key.1.value_type, color, GREEN@) + ")"@ + suffix(
                g.members.len(),
            )
        }
}

fn tensor_lines(items: &Vec<(String, TensorSig)>, group: bool, mark: &str, code: &str, color: bool) -> (r:
    Vec<String>)
    ensures
        texts(r@) == entry_groups(entry_models(items@), group).map_values(
            tensor_line(mark@, code@, color),
        ),
{
    let groups = grouped(items, group);
    let ghost gm = group_models(groups@);
    let ghost line = tensor_line(mark@, code@, color);
    let mut r: Vec<String> = Vec::new();
    let mut i: usize = 0;
    while i < groups.len()
        invariant
            i <= groups.len(),
            gm == group_models(groups@),
            line == tensor_line(mark@, code@, color),
            r.len() == i,
            forall|j: int| 0 <= j < i ==> (#[trigger] r@[j])@ == line(gm[j]),
        decreases groups.len() - i,
    {
        let g = &groups[i];
        proof {
            assert(gm[i as int] == g.model());
        }
        let name = display_name(g.template.as_str(), &g.indices);
        let text = mark.to_owned().concat(name.as_str()).concat("  [").concat(
            g.key.render().as_str(),
        ).concat("]");
        r.push(
            "  ".to_owned().concat(paint(text.as_str(), color, code).as_str()).concat(
                count_suffix(g.members.len()).as_str(),
            ),
        );
        i = i + 1;
    }
    proof {
        assert(texts(r@) =~= gm.map_values(line));
    }
    r
}

fn meta_lines(items: &Vec<(String, MetaVal)>, group: bool, mark: &str, code: &str, color: bool) -> (r:
    Vec<String>)
    ensures
        texts(r@) == entry_groups(entry_models(items@), group).map_values(
            meta_line(mark@, code@, color),
        ),
{
    let groups = grouped(items, group);
    let ghost gm = group_models(groups@);
    let ghost line = meta_line(mark@, code@, color);
    let mut r: Vec<String> = Vec::new();
    let mut i: usize = 0;
    while i < groups.len()
        invariant
            i <= groups.len(),
            gm == group_models(groups@),
            line == meta_line(mark@, code@, color),
            r.len() == i,
            forall|j: int| 0 <= j < i ==> (#[trigger] r@[j])@ == line(gm[j]),
        decreases groups.len() - i,
    {
        let g = &groups[i];
        proof {
            assert(gm[i as int] == g.model());
        }
        let name = display_name(g.template.as_str(), &g.indices);
        let text = mark.to_owned().concat(name.as_str()).concat(" = ").concat(
            quote_trunc(g.key.value.as_str()).as_str(),
        );
        r.push(
            "  ".to_owned().concat(paint(text.as_str(), color, code).as_str()).concat(
                count_suffix(g.members.len()).as_str(),
            ),
        );
        i = i + 1;
    }
    proof {
        assert(texts(r@) =~= gm.map_values(line));
    }
    r
}

fn meta_change_lines(changed: &Vec<MetaChange>, group: bool, color: bool) -> (r: Vec<String>)
    ensures
        texts(r@) == entry_groups(changed.deep_view(), group).map_values(meta_change_line(color)),
{
    let mut items: Vec<(String, Pair<MetaVal>)> = Vec::new();
    let mut i: usize = 0;
    while i < changed.len()
        invariant
            i <= changed.len(),
            items.len() == i,
            forall|j: int|
                0 <= j < i ==> ((#[trigger] items@[j]).0@, items@[j].1.deep_view())
                    == changed@[j].deep_view(),
        decreases changed.len() - i,
    {
        let c = &changed[i];
        items.push((c.name.clone(), Pair { old: c.old.dup(), new: c.new.dup() }));
        i = i + 1;
    }
    proof {
        assert(entry_models(items@) =~= changed.deep_view());
    }
    let groups = grouped(&items, group);
    let ghost gm = group_models(groups@);
    let ghost line = meta_change_line(color);
    let mut r: Vec<String> = Vec::new();
    let mut i: usize = 0;
    while i < groups.len()
        invariant
            i <= groups.len(),
            gm == group_models(groups@),
            line == meta_change_line(color),
            r.len() == i,
            forall|j: int| 0 <= j < i ==> (#[trigger] r@[j])@ == line(gm[j]),
        decreases groups.len() - i,
    {
        let g = &groups[i];
        proof {
            assert(gm[i as int] == g.model());
        }
        let name = display_name(g.template.as_str(), &g.indices);
        let tail = count_suffix(g.members.len());
        let before = &g.key.old;
        let after = &g.key.new;
        if before.value != after.value {
            let a = paint(quote_trunc(before.value.as_str()).as_str(), color, RED);
            let b = paint(quote_trunc(after.value.as_str()).as_str(), color, GREEN);
            r.push(
                "  ~ ".to_owned().concat(name.as_str()).concat(" = ").concat(a.as_str()).concat(
                    " → ",
                ).concat(b.as_str()).concat(tail.as_str()),
            );
        } else {
            let a = paint(before.value_type.as_str(), color, RED);
            let b = paint(after.value_type.as_str(), color, GREEN);
            r.push(
                "  ~ ".to_owned().concat(name.as_str()).concat(" (type ").concat(a.as_str()).concat(
                    " → ",
                ).concat(b.as_str()).concat(")").concat(tail.as_str()),
            );
        }
        i = i + 1;
    }
    proof {
        assert(texts(r@) =~= gm.map_values(line));
    }
    r
}


/// The changed tensors as entries: what they are grouped by.
pub open spec fn change_entries(items: Seq<ChangeModel>) -> Seq<(Seq<char>, (SigModel, SigModel))> {
    items.map_values(|c: ChangeModel| (c.name, (c.old_sig, c.new_sig)))
}

/// Group changed tensors by template (or, where `group` is off, by name) and by the
/// signatures on both sides, in first-seen order.
pub fn group_changed(items: &Vec<TensorChange>, group: bool) -> (r: Vec<Group<Pair<TensorSig>>>)
    ensures
        group_models(r@) == collapsed(change_entries(items.deep_view()), !group),
        members_below(group_models(r@), items.len() as nat),
{
    let mut entries: Vec<(String, Pair<TensorSig>)> = Vec::new();
    let mut i: usize = 0;
    while i < items.len()
        invariant
            i <= items.len(),
            entries.len() == i,
            forall|j: int|
                0 <= j < i ==> (#[trigger] entries@[j]).0@ == items@[j].name@
                    && entries@[j].1.deep_view() == (
                    items@[j].old.deep_view(),
                    items@[j].new.deep_view(),
                ),
        decreases items.len() - i,
    {
        let c = &items[i];
        entries.push((c.name.clone(), Pair { old: c.old.dup(), new: c.new.dup() }));
        i = i + 1;
    }
    proof {
        assert(entry_models(entries@) =~= change_entries(items.deep_view()));
        lemma_members_below(entry_models(entries@), !group);
    }
    collapse(&entries, !group)
}

/// The lines of one group of changed tensors.
pub open spec fn change_lines(
    g: GroupModel<(SigModel, SigModel)>,
    items: Seq<ChangeModel>,
    note: NoteModel,
    opts: DiffOpts,
) -> Seq<Seq<char>> {
    let c = counts_of(items, g.members);
    let name = shown_name(g.template, g.indices);
    let head = if g.key.0 == g.key.1 {
        "  ~ "@ + name + "  ["@ + g.key.0.text() + "]  ("@ + (if c.compared && c.differing > 0 {
            "values differ"@
        } else {
            "distribution differs"@
        }) + ")"@ + suffix(g.members.len())
    } else {
        "  ~ "@ + name + "  ["@ + changed_side(g.key.0, g.key.1, opts.color, RED@) + "] → ["@
            + changed_side(g.key.1, g.key.0, opts.color, GREEN@) + "]"@ + suffix(g.members.len())
    };
    let values = if !opts.values {
        seq![]
    } else if !c.compared {
        seq!["    values: not compared (shapes differ)"@]
    } else if c.differing == 0 {
        seq!["    values: identical"@]
    } else {
        seq![
            values_line(
                c.differing as nat,
                c.elements as nat,
                note.max_abs,
                note.mean_abs,
                c.nonfinite as nat,
            ),
        ]
    };
    let shift = if opts.histogram {
        seq![shift_line(c, note)]
    } else {
        seq![]
    };
    seq![head] + values + shift
}

/// The lines of the first `n` groups of changed tensors.
pub open spec fn all_change_lines(
    gs: Seq<GroupModel<(SigModel, SigModel)>>,
    items: Seq<ChangeModel>,
    notes: Seq<NoteModel>,
    opts: DiffOpts,
    n: nat,
) -> Seq<Seq<char>>
    decreases n,
{
    if n == 0 {
        Seq::empty()
    } else {
        all_change_lines(gs, items, notes, opts, (n - 1) as nat) + change_lines(
            gs[n - 1],
            items,
            notes[n - 1],
            opts,
        )
    }
}

fn one_change(
    g: &Group<Pair<TensorSig>>,
    items: &Vec<TensorChange>,
    note: Option<&GroupNote>,
    opts: DiffOpts,
    Ghost(nm): Ghost<NoteModel>,
) -> (r: Vec<String>)
    requires
        forall|i: int| 0 <= i < g.members.len() ==> #[trigger] g.members@[i] < items.len(),
        opts.values || opts.histogram ==> note is Some,
        note is Some ==> note->0.deep_view() == nm,
    ensures
        texts(r@) == change_lines(g.model(), items.deep_view(), nm, opts),
{
    let c = count_group(items, &g.members);
    let name = display_name(g.template.as_str(), &g.indices);
    let tail = count_suffix(g.members.len());
    let mut r: Vec<String> = Vec::new();
    if g.key.old.same_as(&g.key.new) {
        let reason = if c.compared && c.differing > 0 {
            "values differ"
        } else {
            "distribution differs"
        };
        add_line(
            &mut r,
            "  ~ ".to_owned().concat(name.as_str()).concat("  [").concat(
                g.key.old.render().as_str(),
            ).concat("]  (").concat(reason).concat(")").concat(tail.as_str()),
        );
    } else {
        let (a, b) = render_change(&g.key.old, &g.key.new, opts.color);
        add_line(
            &mut r,
            "  ~ ".to_owned().concat(name.as_str()).concat("  [").concat(a.as_str()).concat(
                "] → [",
            ).concat(b.as_str()).concat("]").concat(tail.as_str()),
        );
    }
    match note {
        Some(note) => {
            if opts.values {
                if !c.compared {
                    add_line(&mut r, "    values: not compared (shapes differ)".to_owned());
                } else if c.differing == 0 {
                    add_line(&mut r, "    values: identical".to_owned());
                } else {
                    add_line(
                        &mut r,
                        value_line(
                            c.differing,
                            c.elements,
                            note.max_abs.as_str(),
                            note.mean_abs.as_str(),
                            c.nonfinite,
                        ),
                    );
                }
            }
            if opts.histogram {
                add_line(&mut r, histogram_line(c, note));
            }
        },
        None => {},
    }
    proof {
        assert(texts(r@) =~= change_lines(g.model(), items.deep_view(), nm, opts));
    }
    r
}

fn changed_tensor_lines(items: &Vec<TensorChange>, notes: &Vec<GroupNote>, opts: DiffOpts) -> (r:
    Vec<String>)
    requires
        opts.values || opts.histogram ==> notes.len() >= collapsed(
            change_entries(items.deep_view()),
            !opts.group,
        ).len(),
    ensures
        texts(r@) == all_change_lines(
            collapsed(change_entries(items.deep_view()), !opts.group),
            items.deep_view(),
            notes.deep_view(),
            opts,
            collapsed(change_entries(items.deep_view()), !opts.group).len(),
        ),
{
    let groups = group_changed(items, opts.group);
    let ghost gm = group_models(groups@);
    let mut r: Vec<String> = Vec::new();
    let mut i: usize = 0;
    proof {
        assert(texts(r@) =~= Seq::empty());
    }
    while i < groups.len()
        invariant
            i <= groups.len(),
            gm == group_models(groups@),
            members_below(gm, items.len() as nat),
            opts.values || opts.histogram ==> notes.len() >= gm.len(),
            texts(r@) == all_change_lines(
                gm,
                items.deep_view(),
                notes.deep_view(),
                opts,
                i as nat,
            ),
        decreases groups.len() - i,
    {
        proof {
            assert(gm[i as int] == groups@[i as int].model());
            assert forall|k: int| 0 <= k < groups@[i as int].members.len() implies (
            #[trigger] groups@[i as int].members@[k]) < items.len() by {
                assert(gm[i as int].members[k] < items.len());
            }
        }
        let note: Option<&GroupNote> = if i < notes.len() {
            Some(&notes[i])
        } else {
            None
        };
        let lines = one_change(&groups[i], items, note, opts, Ghost(notes.deep_view()[i as int]));
        add_lines(&mut r, lines);
        i = i + 1;
    }
    r
}

/// What was compared, in the header.
pub open spec fn scope_text(values: bool) -> Seq<char> {
    if values {
        "scope: tensor structure (name, dtype, shape) + element values"@
    } else {
        "scope: tensor structure (name, dtype, shape) — element values not compared"@
    }
}

/// The numbers of removed, added, changed and unchanged entries.
pub open spec fn counts_line(what: Seq<char>, removed: nat, added: nat, changed: nat, unchanged: nat) -> Seq<
    char,
> {
    what + ": -"@ + decimal(removed) + " +"@ + decimal(added) + " ~"@ + decimal(changed) + " ("@
        + decimal(unchanged) + " unchanged)"@
}

fn counts_text(what: &str, removed: usize, added: usize, changed: usize, unchanged: usize) -> (r: String)
    ensures
        r@ == counts_line(
            what@,
            removed as nat,
            added as nat,
            changed as nat,
            unchanged as nat,
        ),
{
    what.to_owned().concat(": -").concat(decimal_string(removed as u128).as_str()).concat(
        " +",
    ).concat(decimal_string(added as u128).as_str()).concat(" ~").concat(
        decimal_string(changed as u128).as_str(),
    ).concat(" (").concat(decimal_string(unchanged as u128).as_str()).concat(" unchanged)")
}

impl ReportModel {
    /// How the changed tensors are grouped.
    pub open spec fn change_groups(self, opts: DiffOpts) -> Seq<GroupModel<(SigModel, SigModel)>> {
        collapsed(change_entries(self.tensors_changed), !opts.group)
    }

    pub open spec fn header_lines(
        self,
        old_label: Seq<char>,
        new_label: Seq<char>,
        opts: DiffOpts,
    ) -> Seq<Seq<char>> {
        seq![
            "--- "@ + old_label,
            "+++ "@ + new_label,
            painted(scope_text(opts.values), opts.color, DIM@),
            painted("legend: - removed, + added, ~ changed"@, opts.color, DIM@),
            ""@,
            counts_line(
                "tensors"@,
                self.tensors_removed.len(),
                self.tensors_added.len(),
                self.tensors_changed.len(),
                self.tensors_unchanged,
            ),
        ]
    }

    pub open spec fn metadata_lines(self, opts: DiffOpts) -> Seq<Seq<char>> {
        if opts.metadata {
            seq![
                ""@,
                counts_line(
                    "metadata"@,
                    self.meta_removed.len(),
                    self.meta_added.len(),
                    self.meta_changed.len(),
                    self.meta_unchanged,
                ),
            ] + entry_groups(self.meta_removed, opts.group).map_values(
                meta_line("- "@, RED@, opts.color),
            ) + entry_groups(self.meta_added, opts.group).map_values(
                meta_line("+ "@, GREEN@, opts.color),
            ) + entry_groups(self.meta_changed, opts.group).map_values(
                meta_change_line(opts.color),
            )
        } else {
            seq![
                ""@,
                "metadata: not compared ("@ + (if opts.filtered {
                    "filtered subset"@
                } else {
                    "--only-tensors"@
                }) + ")"@,
            ]
        }
    }

    /// The lines of the rendered report.
    pub open spec fn lines(
        self,
        old_label: Seq<char>,
        new_label: Seq<char>,
        opts: DiffOpts,
        notes: Seq<NoteModel>,
    ) -> Seq<Seq<char>> {
        self.header_lines(old_label, new_label, opts) + entry_groups(
            self.tensors_removed,
            opts.group,
        ).map_values(tensor_line("- "@, RED@, opts.color)) + entry_groups(
            self.tensors_added,
            opts.group,
        ).map_values(tensor_line("+ "@, GREEN@, opts.color)) + all_change_lines(
            self.change_groups(opts),
            self.tensors_changed,
            notes,
            opts,
            self.change_groups(opts).len(),
        ) + self.metadata_lines(opts)
    }
}

impl DiffReport {
    fn metadata_section(&self, opts: DiffOpts) -> (r: Vec<String>)
        ensures
            texts(r@) == self.deep_view().metadata_lines(opts),
    {
        let mut r: Vec<String> = Vec::new();
        add_line(&mut r, "".to_owned());
        if opts.metadata {
            add_line(
                &mut r,
                counts_text(
                    "metadata",
                    self.meta_removed.len(),
                    self.meta_added.len(),
                    self.meta_changed.len(),
                    self.meta_unchanged,
                ),
            );
            proof {
                assert(texts(r@) =~= seq![texts(r@)[0], texts(r@)[1]]);
                assert(entry_models(self.meta_removed@).len() == self.meta_removed.len());
                assert(entry_models(self.meta_added@).len() == self.meta_added.len());
                assert(self.meta_changed.deep_view().len() == self.meta_changed.len());
            }
            let a = meta_lines(&self.meta_removed, opts.group, "- ", RED, opts.color);
            add_lines(&mut r, a);
            let b = meta_lines(&self.meta_added, opts.group, "+ ", GREEN, opts.color);
            add_lines(&mut r, b);
            let c = meta_change_lines(&self.meta_changed, opts.group, opts.color);
            add_lines(&mut r, c);
        } else {
            let reason = if opts.filtered {
                "filtered subset"
            } else {
                "--only-tensors"
            };
            add_line(
                &mut r,
                "metadata: not compared (".to_owned().concat(reason).concat(")"),
            );
            proof {
                assert(texts(r@) =~= self.deep_view().metadata_lines(opts));
            }
        }
        r
    }

    /// The report as text: a header that names the two sides, then for tensors and for
    /// metadata the counts and what was removed, added and changed. `notes` holds, for
    /// each group of changed tensors, the magnitudes over the group; it is read where
    /// values or distributions were compared.
    pub fn render(&self, old_label: &str, new_label: &str, opts: DiffOpts, notes: &Vec<GroupNote>) -> (r:
        String)
        requires
            opts.values || opts.histogram ==> notes.len() >= self.deep_view().change_groups(
                opts,
            ).len(),
        ensures
            r@ == terminated(
                self.deep_view().lines(old_label@, new_label@, opts, notes.deep_view()),
            ),
    {
        let mut out: Vec<String> = Vec::new();
        add_line(&mut out, "--- ".to_owned().concat(old_label));
        add_line(&mut out, "+++ ".to_owned().concat(new_label));
        let scope = if opts.values {
            "scope: tensor structure (name, dtype, shape) + element values"
        } else {
            "scope: tensor structure (name, dtype, shape) — element values not compared"
        };
        add_line(&mut out, paint(scope, opts.color, DIM));
        add_line(&mut out, paint("legend: - removed, + added, ~ changed", opts.color, DIM));
        add_line(&mut out, "".to_owned());
        add_line(
            &mut out,
            counts_text(
                "tensors",
                self.tensors_removed.len(),
                self.tensors_added.len(),
                self.tensors_changed.len(),
                self.tensors_unchanged,
            ),
        );
        proof {
            let m = self.deep_view();
            assert(entry_models(self.tensors_removed@).len() == self.tensors_removed.len());
            assert(entry_models(self.tensors_added@).len() == self.tensors_added.len());
            assert(self.tensors_changed.deep_view().len() == self.tensors_changed.len());
            assert(texts(out@) =~= m.header_lines(old_label@, new_label@, opts));
        }
        let a = tensor_lines(&self.tensors_removed, opts.group, "- ", RED, opts.color);
        add_lines(&mut out, a);
        let b = tensor_lines(&self.tensors_added, opts.group, "+ ", GREEN, opts.color);
        add_lines(&mut out, b);
        let c = changed_tensor_lines(&self.tensors_changed, notes, opts);
        add_lines(&mut out, c);
        let d = self.metadata_section(opts);
        add_lines(&mut out, d);
        end_lines(&out)
    }
}

/// The element-value comparison of one tensor that exists on both sides.
#[derive(Debug)]
pub enum ValueCmp {
    /// All elements are equal (bit-equal, or NaN in the same slots).
    Identical,
    /// Some elements differ.
    Differ(ValueDiff),
    /// The values were not compared, for this reason.
    Skipped(String),
}

/// Whether one tensor's comparison counts as a difference: it is on one side only, its
/// signature changed, or its values changed.
pub fn tensor_focus_differs(
    old_sig: Option<&TensorSig>,
    new_sig: Option<&TensorSig>,
    values: Option<&ValueCmp>,
) -> (r: bool)
    ensures
        r == match (old_sig, new_sig) {
            (Some(o), Some(n)) => o.deep_view() != n.deep_view() || (values is Some
                && values->0 is Differ),
            _ => true,
        },
{
    match (old_sig, new_sig) {
        (Some(o), Some(n)) => {
            let changed = match values {
                Some(ValueCmp::Differ(_)) => true,
                _ => false,
            };
            !o.same_as(n) || changed
        },
        _ => true,
    }
}

/// The `values:` line of a [`ValueDiff`].
pub open spec fn value_text(vd: ValueDiff) -> Seq<char> {
    values_line(
        vd.differing as nat,
        vd.elements as nat,
        vd.max_abs@,
        vd.mean_abs@,
        vd.nonfinite_mismatch as nat,
    )
}

fn value_string(vd: &ValueDiff) -> (r: String)
    ensures
        r@ == value_text(*vd),
{
    value_line(
        vd.differing as u128,
        vd.elements as u128,
        vd.max_abs.as_str(),
        vd.mean_abs.as_str(),
        vd.nonfinite_mismatch as u128,
    )
}

/// The line for values that were not compared.
pub open spec fn skipped_text(why: Seq<char>) -> Seq<char> {
    "    values: not compared ("@ + why + ")"@
}

/// The lines on one tensor, below the two labels.
pub open spec fn focus_lines(
    name: Seq<char>,
    old_sig: Option<&TensorSig>,
    new_sig: Option<&TensorSig>,
    values: Option<&ValueCmp>,
    color: bool,
) -> Seq<Seq<char>> {
    match (old_sig, new_sig) {
        (Some(o), None) => seq![
            "  "@ + painted(
                "- "@ + name + "  ["@ + o.deep_view().text() + "]  (only in old)"@,
                color,
                RED@,
            ),
        ],
        (None, Some(n)) => seq![
            "  "@ + painted(
                "+ "@ + name + "  ["@ + n.deep_view().text() + "]  (only in new)"@,
                color,
                GREEN@,
            ),
        ],
        (Some(o), Some(n)) => if o.deep_view() == n.deep_view() {
            let sig = o.deep_view().text();
            match values {
                Some(ValueCmp::Differ(vd)) => seq![
                    "  ~ "@ + name + "  ["@ + sig + "]  (values differ)"@,
                    value_text(*vd),
                ],
                Some(ValueCmp::Skipped(why)) => seq![
                    "  = "@ + name + "  ["@ + sig + "]"@,
                    skipped_text(why@),
                ],
                _ => seq!["  = "@ + name + "  ["@ + sig + "]  (identical)"@],
            }
        } else {
            let both = (
                changed_side(o.deep_view(), n.deep_view(), color, RED@),
                changed_side(n.deep_view(), o.deep_view(), color, GREEN@),
            );
            let head = seq!["  ~ "@ + name + "  ["@ + both.0 + "] → ["@ + both.1 + "]"@];
            match values {
                Some(ValueCmp::Differ(vd)) => head + seq![value_text(*vd)],
                Some(ValueCmp::Identical) => head + seq!["    values: identical"@],
                Some(ValueCmp::Skipped(why)) => head + seq![skipped_text(why@)],
                None => head,
            }
        },
        (None, None) => seq![],
    }
}

/// The report on one tensor: its signature on both sides, then how its values compare.
pub fn render_tensor_focus(
    old_label: &str,
    new_label: &str,
    name: &str,
    old_sig: Option<&TensorSig>,
    new_sig: Option<&TensorSig>,
    values: Option<&ValueCmp>,
    color: bool,
) -> (r: String)
    ensures
        r@ == terminated(
            seq!["--- "@ + old_label@, "+++ "@ + new_label@, ""@] + focus_lines(
                name@,
                old_sig,
                new_sig,
                values,
                color,
            ),
        ),
{
    let mut lines: Vec<String> = Vec::new();
    add_line(&mut lines, "--- ".to_owned().concat(old_label));
    add_line(&mut lines, "+++ ".to_owned().concat(new_label));
    add_line(&mut lines, "".to_owned());
    match (old_sig, new_sig) {
        (Some(o), None) => {
            let line = "- ".to_owned().concat(name).concat("  [").concat(o.render().as_str()).concat(
                "]  (only in old)",
            );
            add_line(&mut lines, "  ".to_owned().concat(paint(line.as_str(), color, RED).as_str()));
        },
        (None, Some(n)) => {
            let line = "+ ".to_owned().concat(name).concat("  [").concat(n.render().as_str()).concat(
                "]  (only in new)",
            );
            add_line(&mut lines, "  ".to_owned().concat(paint(line.as_str(), color, GREEN).as_str()));
        },
        (Some(o), Some(n)) => {
            if o.same_as(n) {
                let sig = o.render();
                match values {
                    Some(ValueCmp::Differ(vd)) => {
                        add_line(
                            &mut lines,
                            "  ~ ".to_owned().concat(name).concat("  [").concat(
                                sig.as_str(),
                            ).concat("]  (values differ)"),
                        );
                        add_line(&mut lines, value_string(vd));
                    },
                    Some(ValueCmp::Skipped(why)) => {
                        add_line(
                            &mut lines,
                            "  = ".to_owned().concat(name).concat("  [").concat(
                                sig.as_str(),
                            ).concat("]"),
                        );
                        add_line(
                            &mut lines,
                            "    values: not compared (".to_owned().concat(why.as_str()).concat(")"),
                        );
                    },
                    _ => {
                        add_line(
                            &mut lines,
                            "  = ".to_owned().concat(name).concat("  [").concat(
                                sig.as_str(),
                            ).concat("]  (identical)"),
                        );
                    },
                }
            } else {
                let (a, b) = render_change(o, n, color);
                add_line(
                    &mut lines,
                    "  ~ ".to_owned().concat(name).concat("  [").concat(a.as_str()).concat(
                        "] → [",
                    ).concat(b.as_str()).concat("]"),
                );
                match values {
                    Some(ValueCmp::Differ(vd)) => add_line(&mut lines, value_string(vd)),
                    Some(ValueCmp::Identical) => add_line(
                        &mut lines,
                        "    values: identical".to_owned(),
                    ),
                    Some(ValueCmp::Skipped(why)) => add_line(
                        &mut lines,
                        "    values: not compared (".to_owned().concat(why.as_str()).concat(")"),
                    ),
                    None => {},
                }
            }
        },
        (None, None) => {},
    }
    proof {
        assert(texts(lines@) =~= seq!["--- "@ + old_label@, "+++ "@ + new_label@, ""@]
            + focus_lines(name@, old_sig, new_sig, values, color));
    }
    end_lines(&lines)
}

/// How a histogram's bins are labelled.
#[derive(Debug)]
pub enum HistBins {
    /// One integer, or `step` integers, to a bin.
    IntBins { start: i64, step: i64 },
    /// The ends of the bins of a range of reals, as they are shown: a bin reaches from
    /// one end, which it holds, to the next, which it does not.
    Range { ends: Vec<String> },
}

/// Two tensors' histograms over shared bins.
#[derive(Debug)]
pub struct HistogramDiff {
    pub n: usize,
    pub bins: HistBins,
    pub old_counts: Vec<u64>,
    pub new_counts: Vec<u64>,
    pub old_nonfinite: u64,
    pub new_nonfinite: u64,
    /// The total variation distance, as it is shown.
    pub tvd: String,
}

/// Whether the integers of bin `i` are 64-bit numbers.
pub open spec fn bin_fits(start: int, step: int, i: int) -> bool {
    &&& i64::MIN <= i * step <= i64::MAX
    &&& i64::MIN <= start + i * step <= i64::MAX
    &&& step != 1 ==> i64::MIN < start + i * step + step <= i64::MAX
}

impl HistogramDiff {
    pub open spec fn wf(self) -> bool {
        match self.bins {
            HistBins::IntBins { start, step } => forall|i: int|
                0 <= i < self.n ==> #[trigger] bin_fits(start as int, step as int, i),
            HistBins::Range { ends } => ends.len() == self.n + 1,
        }
    }

    /// The label of bin `i`.
    pub open spec fn label(self, i: int) -> Seq<char> {
        match self.bins {
            HistBins::IntBins { start, step } => if step == 1 {
                signed(start + i * step)
            } else {
                signed(start + i * step) + ".."@ + signed(start + i * step + step - 1)
            },
            HistBins::Range { ends } => "["@ + ends@[i]@ + ", "@ + ends@[i + 1]@ + ")"@,
        }
    }

    /// The row of bin `i`, unless it is empty on both sides.
    pub open spec fn bin_row(self, i: int, color: bool) -> Seq<Seq<char>> {
        let o = count_at(self.old_counts@, i);
        let n = count_at(self.new_counts@, i);
        if o == 0 && n == 0 {
            seq![]
        } else {
            seq![
                "    "@ + pad_left(self.label(i), 18) + "  "@ + pad_left(decimal(o), 12) + "  "@
                    + pad_left(decimal(n), 12) + "  "@ + pad_left(delta_text(n - o, color), 12),
            ]
        }
    }

    /// The rows of the bins from `i` on.
    pub open spec fn bin_rows(self, i: int, color: bool) -> Seq<Seq<char>>
        decreases self.n - i,
    {
        if i >= self.n {
            seq![]
        } else {
            self.bin_row(i, color) + self.bin_rows(i + 1, color)
        }
    }

    pub open spec fn table(self, name: Seq<char>, color: bool) -> Seq<Seq<char>> {
        seq![
            "  histogram of "@ + name + "  ("@ + decimal(self.n as nat) + " bins, TVD "@ + self.tvd@
                + ")"@,
            "    "@ + pad_left("bin"@, 18) + "  "@ + pad_left("old"@, 12) + "  "@ + pad_left(
                "new"@,
                12,
            ) + "  "@ + pad_left("Δ"@, 12),
        ] + self.bin_rows(0, color) + (if self.old_nonfinite > 0 || self.new_nonfinite > 0 {
            seq![
                "    "@ + pad_left("non-finite"@, 18) + "  "@ + pad_left(
                    decimal(self.old_nonfinite as nat),
                    12,
                ) + "  "@ + pad_left(decimal(self.new_nonfinite as nat), 12),
            ]
        } else {
            seq![]
        })
    }
}

/// The count of bin `i`, 0 where there is none.
pub open spec fn count_at(counts: Seq<u64>, i: int) -> nat {
    if 0 <= i < counts.len() {
        counts[i] as nat
    } else {
        0
    }
}

/// A change of count: green with its sign for a gain, red for a loss.
pub open spec fn delta_text(delta: int, color: bool) -> Seq<char> {
    if delta > 0 {
        painted("+"@ + signed(delta), color, GREEN@)
    } else if delta < 0 {
        painted(signed(delta), color, RED@)
    } else {
        "0"@
    }
}

fn count_of(counts: &Vec<u64>, i: usize) -> (r: u64)
    ensures
        r == count_at(counts@, i as int),
{
    if i < counts.len() {
        counts[i]
    } else {
        0
    }
}

fn delta_string(delta: i128, color: bool) -> (r: String)
    requires
        delta > i128::MIN,
    ensures
        r@ == delta_text(delta as int, color),
{
    if delta > 0 {
        paint("+".to_owned().concat(signed_string(delta).as_str()).as_str(), color, GREEN)
    } else if delta < 0 {
        paint(signed_string(delta).as_str(), color, RED)
    } else {
        "0".to_owned()
    }
}

/// A short label for histogram bin `i`.
pub fn bin_label(hd: &HistogramDiff, i: usize) -> (r: String)
    requires
        hd.wf(),
        i < hd.n,
    ensures
        r@ == hd.label(i as int),
{
    match &hd.bins {
        HistBins::IntBins { start, step } => {
            proof {
                assert(bin_fits(*start as int, *step as int, i as int));
            }
            let along: i128 = (i as i128) * (*step as i128);
            let lo: i128 = (*start as i128) + along;
            if *step == 1 {
                signed_string(lo)
            } else {
                let hi: i128 = lo + (*step as i128) - 1;
                signed_string(lo).concat("..").concat(signed_string(hi).as_str())
            }
        },
        HistBins::Range { ends } => "[".to_owned().concat(ends[i].as_str()).concat(", ").concat(
            ends[i + 1].as_str(),
        ).concat(")"),
    }
}

/// The comparison of two histograms as a table: one row per bin that is not empty on
/// both sides, with its label, the two counts and the change.
pub fn render_histogram_table(name: &str, hd: &HistogramDiff, color: bool) -> (r: String)
    requires
        hd.wf(),
    ensures
        r@ == terminated(hd.table(name@, color)),
{
    let mut lines: Vec<String> = Vec::new();
    add_line(
        &mut lines,
        "  histogram of ".to_owned().concat(name).concat("  (").concat(
            decimal_string(hd.n as u128).as_str(),
        ).concat(" bins, TVD ").concat(hd.tvd.as_str()).concat(")"),
    );
    add_line(
        &mut lines,
        "    ".to_owned().concat(padded_left("bin", 18).as_str()).concat("  ").concat(
            padded_left("old", 12).as_str(),
        ).concat("  ").concat(padded_left("new", 12).as_str()).concat("  ").concat(
            padded_left("Δ", 12).as_str(),
        ),
    );
    let ghost head = texts(lines@);
    let mut i: usize = 0;
    while i < hd.n
        invariant
            i <= hd.n,
            hd.wf(),
            texts(lines@) + hd.bin_rows(i as int, color) == head + hd.bin_rows(0, color),
        decreases hd.n - i,
    {
        let ghost before = texts(lines@);
        let o = count_of(&hd.old_counts, i);
        let n = count_of(&hd.new_counts, i);
        if o != 0 || n != 0 {
            let delta: i128 = (n as i128) - (o as i128);
            add_line(
                &mut lines,
                "    ".to_owned().concat(padded_left(bin_label(hd, i).as_str(), 18).as_str()).concat(
                    "  ",
                ).concat(padded_left(decimal_string(o as u128).as_str(), 12).as_str()).concat(
                    "  ",
                ).concat(padded_left(decimal_string(n as u128).as_str(), 12).as_str()).concat(
                    "  ",
                ).concat(padded_left(delta_string(delta, color).as_str(), 12).as_str()),
            );
        }
        proof {
            assert(texts(lines@) =~= before + hd.bin_row(i as int, color));
            assert(before + (hd.bin_row(i as int, color) + hd.bin_rows(i + 1, color)) =~= texts(
                lines@,
            ) + hd.bin_rows(i + 1, color));
        }
        i = i + 1;
    }
    if hd.old_nonfinite > 0 || hd.new_nonfinite > 0 {
        add_line(
            &mut lines,
            "    ".to_owned().concat(padded_left("non-finite", 18).as_str()).concat("  ").concat(
                padded_left(decimal_string(hd.old_nonfinite as u128).as_str(), 12).as_str(),
            ).concat("  ").concat(
                padded_left(decimal_string(hd.new_nonfinite as u128).as_str(), 12).as_str(),
            ),
        );
    }
    proof {
        assert(texts(lines@) =~= hd.table(name@, color));
    }
    end_lines(&lines)
}

// ---------------------------------------------------------------------------
// Laws

pub proof fn lemma_filter_all<T>(s: Seq<T>, p: spec_fn(T) -> bool)
    requires
        forall|i: int| 0 <= i < s.len() ==> p(#[trigger] s[i]),
    ensures
        s.filter(p) == s,
    decreases s.len(),
{
    reveal(Seq::filter);
    if s.len() > 0 {
        assert forall|i: int| 0 <= i < s.drop_last().len() implies p(
            #[trigger] s.drop_last()[i],
        ) by {
            assert(s.drop_last()[i] == s[i]);
        }
        lemma_filter_all(s.drop_last(), p);
        assert(p(s[s.len() - 1]));
        assert(s.drop_last().push(s.last()) =~= s);
    }
}

pub proof fn lemma_filter_none<T>(s: Seq<T>, p: spec_fn(T) -> bool)
    requires
        forall|i: int| 0 <= i < s.len() ==> !p(#[trigger] s[i]),
    ensures
        s.filter(p) == Seq::<T>::empty(),
    decreases s.len(),
{
    reveal(Seq::filter);
    if s.len() > 0 {
        assert forall|i: int| 0 <= i < s.drop_last().len() implies !p(
            #[trigger] s.drop_last()[i],
        ) by {
            assert(s.drop_last()[i] == s[i]);
        }
        lemma_filter_none(s.drop_last(), p);
        assert(!p(s[s.len() - 1]));
    }
}

/// Each row is in one of the two parts.
proof fn lemma_parts<T>(a: Seq<(Seq<char>, T)>, b: Seq<(Seq<char>, T)>)
    ensures
        only_in(a, b).len() + shared(a, b).len() == a.len(),
    decreases a.len(),
{
    reveal(Seq::filter);
    if a.len() > 0 {
        lemma_parts(a.drop_last(), b);
    }
}

pub proof fn lemma_names_distinct<T>(a: Seq<(Seq<char>, T)>, b: Seq<(Seq<char>, T)>)
    requires
        names_ascend(a),
    ensures
        row_names(shared(a, b)).no_duplicates(),
        forall|n: Seq<char>| row_names(shared(a, b)).contains(n) <==> has_row(a, n) && has_row(b, n),
    decreases a.len(),
{
    reveal(Seq::filter);
    let s = shared(a, b);
    if a.len() == 0 {
        assert(s =~= Seq::empty());
    } else {
        let t = a.drop_last();
        let e = a.last();
        assert(names_ascend(t)) by {
            assert forall|i: int, j: int| #![trigger t[i], t[j]] 0 <= i < j < t.len() implies text_order(
                t[i].0,
                t[j].0,
            ) < 0 by {
                assert(t[i] == a[i] && t[j] == a[j]);
            }
        }
        lemma_names_distinct(t, b);
        let before = row_names(shared(t, b));
        assert(!has_row(t, e.0)) by {
            if has_row(t, e.0) {
                let i = choose|i: int| 0 <= i < t.len() && (#[trigger] t[i]).0 == e.0;
                assert(t[i] == a[i]);
                assert(text_order(a[i].0, a[a.len() - 1].0) < 0);
                lemma_order(e.0, e.0, e.0);
            }
        }
        assert forall|n: Seq<char>| has_row(a, n) <==> has_row(t, n) || n == e.0 by {
            if has_row(a, n) {
                let i = choose|i: int| 0 <= i < a.len() && (#[trigger] a[i]).0 == n;
                if i < t.len() {
                    assert(t[i] == a[i]);
                }
            }
            if has_row(t, n) {
                let i = choose|i: int| 0 <= i < t.len() && (#[trigger] t[i]).0 == n;
                assert(t[i] == a[i]);
            }
            if n == e.0 {
                assert(a[a.len() - 1].0 == n);
            }
        }
        if has_row(b, e.0) {
            assert(s == shared(t, b).push(e));
            assert(row_names(s) =~= before.push(e.0));
            assert(!before.contains(e.0));
            assert forall|n: Seq<char>| before.push(e.0).contains(n) <==> before.contains(n) || n
                == e.0 by {
                if before.contains(n) {
                    let i = choose|i: int| 0 <= i < before.len() && before[i] == n;
                    assert(before.push(e.0)[i] == n);
                }
                if n == e.0 {
                    assert(before.push(e.0)[before.len() as int] == n);
                }
            }
        } else {
            assert(s == shared(t, b));
        }
    }
}

/// The names of rows.
pub open spec fn row_names<T>(rows: Seq<(Seq<char>, T)>) -> Seq<Seq<char>> {
    rows.map_values(|e: (Seq<char>, T)| e.0)
}

/// As many rows of `a` are in `b` as rows of `b` are in `a`.
proof fn lemma_shared_len<T>(a: Seq<(Seq<char>, T)>, b: Seq<(Seq<char>, T)>)
    requires
        names_ascend(a),
        names_ascend(b),
    ensures
        shared(a, b).len() == shared(b, a).len(),
{
    lemma_names_distinct(a, b);
    lemma_names_distinct(b, a);
    let x = row_names(shared(a, b));
    let y = row_names(shared(b, a));
    assert(x.to_set() =~= y.to_set());
    x.unique_seq_to_set();
    y.unique_seq_to_set();
}

proof fn lemma_meta_changes_len(
    both: Seq<(Seq<char>, MetaModel)>,
    new_rows: Seq<(Seq<char>, MetaModel)>,
)
    ensures
        meta_changes(both, new_rows).len() <= both.len(),
    decreases both.len(),
{
    if both.len() > 0 {
        lemma_meta_changes_len(both.drop_last(), new_rows);
    }
}

/// Every tensor and every metadata entry is counted once: one of the old checkpoint is
/// removed, changed or unchanged, one of the new checkpoint is added, changed or
/// unchanged.
pub proof fn law_all_accounted(
    old_t: Seq<(Seq<char>, SigModel)>,
    new_t: Seq<(Seq<char>, SigModel)>,
    old_m: Seq<(Seq<char>, MetaModel)>,
    new_m: Seq<(Seq<char>, MetaModel)>,
    extras: Seq<ExtrasModel>,
)
    requires
        names_ascend(old_t),
        names_ascend(new_t),
        names_ascend(old_m),
        names_ascend(new_m),
    ensures
        ({
            let d = difference(old_t, new_t, old_m, new_m, extras);
            &&& d.tensors_removed.len() + d.tensors_changed.len() + d.tensors_unchanged
                == old_t.len()
            &&& d.tensors_added.len() + d.tensors_changed.len() + d.tensors_unchanged == new_t.len()
            &&& d.meta_removed.len() + d.meta_changed.len() + d.meta_unchanged == old_m.len()
            &&& d.meta_added.len() + d.meta_changed.len() + d.meta_unchanged == new_m.len()
        }),
{
    lemma_parts(old_t, new_t);
    lemma_parts(new_t, old_t);
    lemma_parts(old_m, new_m);
    lemma_parts(new_m, old_m);
    lemma_shared_len(old_t, new_t);
    lemma_shared_len(old_m, new_m);
    lemma_changes_len(shared(old_t, new_t), new_t, extras);
    lemma_meta_changes_len(shared(old_m, new_m), new_m);
}

proof fn lemma_no_changes(
    all: Seq<(Seq<char>, SigModel)>,
    both: Seq<(Seq<char>, SigModel)>,
    extras: Seq<ExtrasModel>,
)
    requires
        names_ascend(all),
        both.len() <= all.len(),
        both == all.take(both.len() as int),
        extras.len() == both.len(),
        forall|i: int| 0 <= i < extras.len() ==> !(#[trigger] extras[i]).differ(),
    ensures
        changes(both, all, extras) == Seq::<ChangeModel>::empty(),
    decreases both.len(),
{
    if both.len() > 0 {
        let e = extras.drop_last();
        assert forall|i: int| 0 <= i < e.len() implies !(#[trigger] e[i]).differ() by {
            assert(e[i] == extras[i]);
        }
        assert(both.drop_last() =~= all.take(both.len() - 1));
        lemma_no_changes(all, both.drop_last(), e);
        lemma_unique(all, both.last().0, both.len() - 1);
        assert(!extras[extras.len() - 1].differ());
    }
}

proof fn lemma_no_meta_changes(
    all: Seq<(Seq<char>, MetaModel)>,
    both: Seq<(Seq<char>, MetaModel)>,
)
    requires
        names_ascend(all),
        both.len() <= all.len(),
        both == all.take(both.len() as int),
    ensures
        meta_changes(both, all) == Seq::<(Seq<char>, (MetaModel, MetaModel))>::empty(),
    decreases both.len(),
{
    if both.len() > 0 {
        assert(both.drop_last() =~= all.take(both.len() - 1));
        lemma_no_meta_changes(all, both.drop_last());
        lemma_unique(all, both.last().0, both.len() - 1);
    }
}

/// A checkpoint compared with itself shows no difference: nothing is added, removed or
/// changed, and everything is unchanged.
pub proof fn law_same_checkpoint(
    t: Seq<(Seq<char>, SigModel)>,
    m: Seq<(Seq<char>, MetaModel)>,
    extras: Seq<ExtrasModel>,
)
    requires
        names_ascend(t),
        names_ascend(m),
        extras.len() == t.len(),
        forall|i: int| 0 <= i < extras.len() ==> !(#[trigger] extras[i]).differ(),
    ensures
        ({
            let d = difference(t, t, m, m, extras);
            &&& !d.any()
            &&& d.tensors_unchanged == t.len()
            &&& d.meta_unchanged == m.len()
        }),
{
    assert forall|i: int| 0 <= i < t.len() implies has_row(t, (#[trigger] t[i]).0) by {}
    assert forall|i: int| 0 <= i < m.len() implies has_row(m, (#[trigger] m[i]).0) by {}
    lemma_filter_all(t, row_in(t, true));
    lemma_filter_all(m, row_in(m, true));
    lemma_filter_none(t, row_in(t, false));
    lemma_filter_none(m, row_in(m, false));
    assert(t.take(t.len() as int) =~= t);
    assert(m.take(m.len() as int) =~= m);
    lemma_no_changes(t, t, extras);
    lemma_no_meta_changes(m, m);
}

} // verus!
