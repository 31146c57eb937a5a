//! The tree of tensors and metadata that the browser shows.
use vstd::prelude::*;

use crate::order::{compare_chars, lemma_lex_total, lemma_order};
use crate::order::{lemma_rank_order, lemma_sorted_position, lemma_stable_sort};
use crate::order::{lemma_stable_sort_contains, lemma_stable_sort_map, lex, rank_order};
use crate::order::{sort_ranked, sorted_position, stable_sort, text_order, total_order};
use crate::order::{total_preorder, Ranked, Rel};
use crate::text::{all_digits, chars_of, decimal, digit, digits_to_u64, digits_value, dotted};
use crate::text::{fold_double_underscores, is_digit, lemma_decimal_value};
use crate::text::{lemma_split_nonempty, same, split, split_on, substring, texts};

verus! {

/// How a tensor is stored on disk.
#[derive(Debug)]
pub enum Storage {
    /// Compression is not tracked for this format.
    Unknown,
    /// Stored uncompressed.
    Raw,
    /// Compressed with `codec`; `stored_bytes` is the size on disk.
    Compressed { codec: String, stored_bytes: usize },
}

/// Where a tensor's data sits within its file.
#[derive(Debug)]
pub enum Layout {
    /// Not tracked.
    Untracked,
    /// The bytes `[start, end)` of the data blob.
    ByteRange { start: u64, end: u64 },
    /// A byte offset within the tensor-data region.
    Offset(u64),
    /// Chunked storage with the given chunk shape and chunk count.
    Chunked { chunk: Vec<usize>, num_chunks: usize },
}

/// What is known of one tensor.
#[derive(Debug)]
pub struct TensorInfo {
    pub name: String,
    pub dtype: String,
    pub shape: Vec<usize>,
    /// Logical (uncompressed) size in bytes.
    pub size_bytes: usize,
    pub num_elements: usize,
    pub storage: Storage,
    /// Absolute path of the file that the tensor was loaded from.
    pub source_path: String,
    pub layout: Layout,
}

/// One metadata entry.
#[derive(Debug)]
pub struct MetadataInfo {
    pub name: String,
    pub value: String,
    pub value_type: String,
}

/// A row of the tree, with what is below it.
#[allow(inconsistent_fields)]
#[derive(Debug)]
pub enum TreeNode {
    Group {
        name: String,
        children: Vec<TreeNode>,
        expanded: bool,
        tensor_count: usize,
        /// Number of elements over all tensors below.
        params: usize,
        total_size: usize,
        /// Size on disk over all tensors below.
        stored_size: usize,
    },
    Tensor {
        info: TensorInfo,
        /// The joined path shown where a chain of single-child groups collapsed
        /// into this tensor.
        label: Option<String>,
    },
    Metadata { info: MetadataInfo },
}

/// The mathematical content of a [`Storage`].
pub enum StorageModel {
    Unknown,
    Raw,
    Compressed { codec: Seq<char>, stored_bytes: usize },
}

/// The mathematical content of a [`Layout`].
pub enum LayoutModel {
    Untracked,
    ByteRange { start: u64, end: u64 },
    Offset(u64),
    Chunked { chunk: Seq<usize>, num_chunks: usize },
}

/// The mathematical content of a [`TensorInfo`].
pub struct TensorModel {
    pub name: Seq<char>,
    pub dtype: Seq<char>,
    pub shape: Seq<usize>,
    pub size_bytes: usize,
    pub num_elements: usize,
    pub storage: StorageModel,
    pub source_path: Seq<char>,
    pub layout: LayoutModel,
}

/// The mathematical content of a [`MetadataInfo`].
pub struct MetadataModel {
    pub name: Seq<char>,
    pub value: Seq<char>,
    pub value_type: Seq<char>,
}

/// The mathematical content of a [`TreeNode`].
#[allow(inconsistent_fields)]
pub enum NodeModel {
    Group {
        name: Seq<char>,
        children: Seq<NodeModel>,
        expanded: bool,
        tensor_count: usize,
        params: usize,
        total_size: usize,
        stored_size: usize,
    },
    Tensor { info: TensorModel, label: Option<Seq<char>> },
    Metadata { info: MetadataModel },
}

impl DeepView for Storage {
    type V = StorageModel;

    open spec fn deep_view(&self) -> StorageModel {
        match *self {
            Storage::Unknown => StorageModel::Unknown,
            Storage::Raw => StorageModel::Raw,
            Storage::Compressed { codec, stored_bytes } => StorageModel::Compressed {
                codec: codec@,
                stored_bytes,
            },
        }
    }
}

impl DeepView for Layout {
    type V = LayoutModel;

    open spec fn deep_view(&self) -> LayoutModel {
        match *self {
            Layout::Untracked => LayoutModel::Untracked,
            Layout::ByteRange { start, end } => LayoutModel::ByteRange { start, end },
            Layout::Offset(o) => LayoutModel::Offset(o),
            Layout::Chunked { chunk, num_chunks } => LayoutModel::Chunked {
                chunk: chunk@,
                num_chunks,
            },
        }
    }
}

impl DeepView for TensorInfo {
    type V = TensorModel;

    open spec fn deep_view(&self) -> TensorModel {
        TensorModel {
            name: self.name@,
            dtype: self.dtype@,
            shape: self.shape@,
            size_bytes: self.size_bytes,
            num_elements: self.num_elements,
            storage: self.storage.deep_view(),
            source_path: self.source_path@,
            layout: self.layout.deep_view(),
        }
    }
}

impl DeepView for MetadataInfo {
    type V = MetadataModel;

    open spec fn deep_view(&self) -> MetadataModel {
        MetadataModel { name: self.name@, value: self.value@, value_type: self.value_type@ }
    }
}

impl TreeNode {
    /// The node's mathematical content.
    pub open spec fn model(self) -> NodeModel
        decreases self,
    {
        match self {
            TreeNode::Group {
                name,
                children,
                expanded,
                tensor_count,
                params,
                total_size,
                stored_size,
            } => NodeModel::Group {
                name: name@,
                children: Seq::new(
                    children@.len(),
                    |i: int|
                        if 0 <= i < children@.len() {
                            children@[i].model()
                        } else {
                            arbitrary()
                        },
                ),
                expanded,
                tensor_count,
                params,
                total_size,
                stored_size,
            },
            TreeNode::Tensor { info, label } => NodeModel::Tensor {
                info: info.deep_view(),
                label: match label {
                    Some(l) => Some(l@),
                    None => None,
                },
            },
            TreeNode::Metadata { info } => NodeModel::Metadata { info: info.deep_view() },
        }
    }
}

/// The models of a list of nodes.
pub open spec fn models(nodes: Seq<TreeNode>) -> Seq<NodeModel> {
    nodes.map_values(|n: TreeNode| n.model())
}

/// A group's children are modelled one by one.
pub proof fn lemma_children(n: TreeNode)
    ensures
        n is Group ==> n.model()->Group_children == models(n->children@),
{
    if n is Group {
        assert(n.model()->Group_children =~= models(n->children@));
    }
}

impl NodeModel {
    pub open spec fn name(self) -> Seq<char> {
        match self {
            NodeModel::Group { name, .. } => name,
            NodeModel::Tensor { info, .. } => info.name,
            NodeModel::Metadata { info } => info.name,
        }
    }
}

impl Clone for Storage {
    fn clone(&self) -> (r: Storage)
        ensures
            r.deep_view() == self.deep_view(),
    {
        match self {
            Storage::Unknown => Storage::Unknown,
            Storage::Raw => Storage::Raw,
            Storage::Compressed { codec, stored_bytes } => Storage::Compressed {
                codec: codec.clone(),
                stored_bytes: *stored_bytes,
            },
        }
    }
}

/// A copy of a list of numbers.
pub fn dup_numbers(v: &Vec<usize>) -> (r: Vec<usize>)
    ensures
        r@ == v@,
{
    let r = v.clone();
    proof {
        assert(r@ =~= v@);
    }
    r
}

impl Clone for Layout {
    fn clone(&self) -> (r: Layout)
        ensures
            r.deep_view() == self.deep_view(),
    {
        match self {
            Layout::Untracked => Layout::Untracked,
            Layout::ByteRange { start, end } => Layout::ByteRange { start: *start, end: *end },
            Layout::Offset(o) => Layout::Offset(*o),
            Layout::Chunked { chunk, num_chunks } => Layout::Chunked {
                chunk: dup_numbers(chunk),
                num_chunks: *num_chunks,
            },
        }
    }
}

impl Clone for TensorInfo {
    fn clone(&self) -> (r: TensorInfo)
        ensures
            r.deep_view() == self.deep_view(),
    {
        TensorInfo {
            name: self.name.clone(),
            dtype: self.dtype.clone(),
            shape: dup_numbers(&self.shape),
            size_bytes: self.size_bytes,
            num_elements: self.num_elements,
            storage: self.storage.clone(),
            source_path: self.source_path.clone(),
            layout: self.layout.clone(),
        }
    }
}

impl TensorModel {
    pub open spec fn on_disk_size(self) -> usize {
        match self.storage {
            StorageModel::Compressed { stored_bytes, .. } => stored_bytes,
            _ => self.size_bytes,
        }
    }
}

impl TensorInfo {
    /// The size occupied on disk: the compressed size when stored compressed,
    /// otherwise the logical size.
    pub fn on_disk_size(&self) -> (n: usize)
        ensures
            n == self.deep_view().on_disk_size(),
    {
        match &self.storage {
            Storage::Compressed { stored_bytes, .. } => *stored_bytes,
            _ => self.size_bytes,
        }
    }
}

impl Clone for MetadataInfo {
    fn clone(&self) -> (r: MetadataInfo)
        ensures
            r.deep_view() == self.deep_view(),
    {
        MetadataInfo {
            name: self.name.clone(),
            value: self.value.clone(),
            value_type: self.value_type.clone(),
        }
    }
}

impl Clone for TreeNode {
    fn clone(&self) -> (r: TreeNode)
        ensures
            r.model() == self.model(),
        decreases self,
    {
        match self {
            TreeNode::Group {
                name,
                children,
                expanded,
                tensor_count,
                params,
                total_size,
                stored_size,
            } => {
                let mut copies: Vec<TreeNode> = Vec::new();
                let mut i: usize = 0;
                while i < children.len()
                    invariant
                        i <= children.len(),
                        copies.len() == i,
                        forall|j: int|
                            0 <= j < i ==> (#[trigger] copies@[j]).model() == children@[j].model(),
                        *self matches TreeNode::Group { children: c, .. } && c == *children,
                    decreases children.len() - i,
                {
                    let c = (&children[i]).clone();
                    copies.push(c);
                    i = i + 1;
                }
                let r = TreeNode::Group {
                    name: name.clone(),
                    children: copies,
                    expanded: *expanded,
                    tensor_count: *tensor_count,
                    params: *params,
                    total_size: *total_size,
                    stored_size: *stored_size,
                };
                proof {
                    assert(r.model()->Group_children =~= self.model()->Group_children);
                }
                r
            },
            TreeNode::Tensor { info, label } => TreeNode::Tensor {
                info: info.clone(),
                label: match label {
                    Some(l) => Some(l.clone()),
                    None => None,
                },
            },
            TreeNode::Metadata { info } => TreeNode::Metadata { info: info.clone() },
        }
    }
}

impl TreeNode {
    /// The name shown for the node: a group's own, or a leaf's full name.
    pub fn name(&self) -> (s: &str)
        ensures
            s@ == self.model().name(),
    {
        match self {
            TreeNode::Group { name, .. } => name.as_str(),
            TreeNode::Tensor { info, .. } => info.name.as_str(),
            TreeNode::Metadata { info } => info.name.as_str(),
        }
    }
}


// ---------------------------------------------------------------------------
// Natural order of names

/// One run of a name: its digits as a number, or anything else as it stands.
#[derive(Debug, PartialEq, Eq, PartialOrd, Ord)]
pub enum NaturalSortItem {
    Text(String),
    Number(u32),
}

/// The mathematical content of a [`NaturalSortItem`].
pub enum KeyItem {
    Text(Seq<char>),
    Number(u32),
}

impl DeepView for NaturalSortItem {
    type V = KeyItem;

    open spec fn deep_view(&self) -> KeyItem {
        match *self {
            NaturalSortItem::Text(s) => KeyItem::Text(s@),
            NaturalSortItem::Number(n) => KeyItem::Number(n),
        }
    }
}

/// How many characters at the front of `s` are digits (or are none).
pub open spec fn run_length(s: Seq<char>, digits: bool) -> nat
    decreases s.len(),
{
    if s.len() == 0 || is_digit(s[0]) != digits {
        0
    } else {
        1 + run_length(s.skip(1), digits)
    }
}

pub proof fn lemma_run_length(s: Seq<char>, digits: bool)
    ensures
        run_length(s, digits) <= s.len(),
        forall|i: int| 0 <= i < run_length(s, digits) ==> is_digit(#[trigger] s[i]) == digits,
        run_length(s, digits) < s.len() ==> is_digit(s[run_length(s, digits) as int]) != digits,
    decreases s.len(),
{
    if s.len() > 0 && is_digit(s[0]) == digits {
        let t = s.skip(1);
        lemma_run_length(t, digits);
        assert forall|i: int| 0 <= i < run_length(s, digits) implies is_digit(#[trigger] s[i]) == digits by {
            if i > 0 {
                assert(t[i - 1] == s[i]);
            }
        }
    }
}

/// What a run stands for in the order of names. A number too large for 32 bits
/// stays text.
pub open spec fn run_item(run: Seq<char>) -> KeyItem {
    if all_digits(run) && digits_value(run) <= u32::MAX {
        KeyItem::Number(digits_value(run) as u32)
    } else {
        KeyItem::Text(run)
    }
}

/// The runs of digits and of other characters that a name is made of.
pub open spec fn natural_key(s: Seq<char>) -> Seq<KeyItem>
    decreases s.len(),
{
    if s.len() == 0 {
        Seq::empty()
    } else {
        proof {
            lemma_run_length(s, is_digit(s[0]));
        }
        let n = run_length(s, is_digit(s[0])) as int;
        seq![run_item(s.take(n))] + natural_key(s.skip(n))
    }
}

/// The key that orders names so that `layer2` stands before `layer10`.
pub fn natural_sort_key(name: &str) -> (key: Vec<NaturalSortItem>)
    ensures
        key.deep_view() == natural_key(name@),
{
    let v = chars_of(name);
    let mut key: Vec<NaturalSortItem> = Vec::new();
    let mut i: usize = 0;
    proof {
        assert(v@.skip(0) =~= v@);
        assert(key.deep_view() + natural_key(v@) =~= natural_key(v@));
    }
    while i < v.len()
        invariant
            i <= v.len(),
            key.deep_view() + natural_key(v@.skip(i as int)) == natural_key(v@),
        decreases v.len() - i,
    {
        let ghost rest = v@.skip(i as int);
        let ghost before = key.deep_view();
        let digits = digit(v[i]);
        let mut j: usize = i + 1;
        proof {
            lemma_run_length(rest, digits);
            assert(rest[0] == v@[i as int]);
            assert(rest.skip(1) =~= v@.skip(i + 1));
        }
        while j < v.len() && digit(v[j]) == digits
            invariant
                i < j <= v.len(),
                rest == v@.skip(i as int),
                run_length(rest, digits) == (j - i) + run_length(v@.skip(j as int), digits),
            decreases v.len() - j,
        {
            proof {
                assert(v@.skip(j as int)[0] == v@[j as int]);
                assert(v@.skip(j as int).skip(1) =~= v@.skip(j + 1));
            }
            j = j + 1;
        }
        proof {
            if j < v.len() {
                assert(v@.skip(j as int)[0] == v@[j as int]);
            }
            assert(run_length(rest, digits) == j - i);
            assert(rest.take(j - i) =~= v@.subrange(i as int, j as int));
            assert(rest.skip(j - i) =~= v@.skip(j as int));
        }
        let ghost run = v@.subrange(i as int, j as int);
        proof {
            assert forall|k: int| 0 <= k < run.len() implies is_digit(#[trigger] run[k]) == digits by {
                assert(run[k] == rest[k]);
            }
            assert(digits == all_digits(run)) by {
                if !digits {
                    assert(!is_digit(run[0]));
                }
            }
        }
        let item = if digits {
            match digits_to_u64(&v, i, j, 4294967295) {
                Some(n) => NaturalSortItem::Number(n as u32),
                None => NaturalSortItem::Text(substring(&v, i, j)),
            }
        } else {
            NaturalSortItem::Text(substring(&v, i, j))
        };
        key.push(item);
        proof {
            assert(item.deep_view() == run_item(run));
            assert(key.deep_view() =~= before.push(run_item(run)));
            assert(before + (seq![run_item(run)] + natural_key(rest.skip(j - i)))
                =~= before.push(run_item(run)) + natural_key(rest.skip(j - i)));
        }
        i = j;
    }
    proof {
        assert(v@.skip(i as int) =~= Seq::empty());
        assert(key.deep_view() + Seq::<KeyItem>::empty() =~= key.deep_view());
    }
    key
}

/// How two runs compare: text before numbers, text by code point, numbers by value.
pub open spec fn item_order() -> spec_fn(KeyItem, KeyItem) -> int {
    |a: KeyItem, b: KeyItem|
        match a {
            KeyItem::Text(s) => match b {
                KeyItem::Text(t) => text_order(s, t),
                KeyItem::Number(_) => -1int,
            },
            KeyItem::Number(m) => match b {
                KeyItem::Text(_) => 1int,
                KeyItem::Number(n) => if m < n {
                    -1int
                } else if m == n {
                    0int
                } else {
                    1int
                },
            },
        }
}

/// How two keys compare.
pub open spec fn key_order(a: Seq<KeyItem>, b: Seq<KeyItem>) -> int {
    lex(a, b, item_order())
}

pub proof fn lemma_item_order_total()
    ensures
        total_order(item_order()),
{
    let f = item_order();
    assert forall|x: KeyItem, y: KeyItem| true implies #[trigger] f(x, y) == -1 || f(x, y) == 0 || f(
        x,
        y,
    ) == 1 by {
        if let KeyItem::Text(s) = x {
            if let KeyItem::Text(t) = y {
                lemma_order(s, t, t);
            }
        }
    }
    assert forall|x: KeyItem, y: KeyItem| true implies (#[trigger] f(x, y) == 0 <==> x == y) by {
        if let KeyItem::Text(s) = x {
            if let KeyItem::Text(t) = y {
                lemma_order(s, t, t);
            }
        }
    }
    assert forall|x: KeyItem, y: KeyItem| true implies #[trigger] f(x, y) == -f(y, x) by {
        if let KeyItem::Text(s) = x {
            if let KeyItem::Text(t) = y {
                lemma_order(s, t, t);
            }
        }
    }
    assert forall|x: KeyItem, y: KeyItem, z: KeyItem| #[trigger]
        f(x, y) <= 0 && #[trigger] f(y, z) <= 0 implies f(x, z) <= 0 by {
        if let KeyItem::Text(s) = x {
            if let KeyItem::Text(t) = y {
                if let KeyItem::Text(u) = z {
                    lemma_order(s, t, u);
                }
            }
        }
    }
}

/// Compare two runs.
fn compare_items(a: &NaturalSortItem, b: &NaturalSortItem) -> (r: Rel)
    ensures
        r.sign() == item_order()(a.deep_view(), b.deep_view()),
{
    match a {
        NaturalSortItem::Text(s) => match b {
            NaturalSortItem::Text(t) => compare_chars(
                &chars_of(s.as_str()),
                &chars_of(t.as_str()),
            ),
            NaturalSortItem::Number(_) => Rel::Less,
        },
        NaturalSortItem::Number(m) => match b {
            NaturalSortItem::Text(_) => Rel::Greater,
            NaturalSortItem::Number(n) => if *m < *n {
                Rel::Less
            } else if *m == *n {
                Rel::Same
            } else {
                Rel::Greater
            },
        },
    }
}

/// Compare two keys.
pub fn compare_keys(a: &Vec<NaturalSortItem>, b: &Vec<NaturalSortItem>) -> (r: Rel)
    ensures
        r.sign() == key_order(a.deep_view(), b.deep_view()),
{
    let mut i: usize = 0;
    let ghost x = a.deep_view();
    let ghost y = b.deep_view();
    proof {
        assert(x.skip(0) =~= x);
        assert(y.skip(0) =~= y);
        lemma_item_order_total();
    }
    while i < a.len() && i < b.len()
        invariant
            i <= a.len(),
            i <= b.len(),
            x == a.deep_view(),
            y == b.deep_view(),
            key_order(x, y) == key_order(x.skip(i as int), y.skip(i as int)),
        decreases a.len() - i,
    {
        proof {
            assert(x.skip(i as int)[0] == a@[i as int].deep_view());
            assert(y.skip(i as int)[0] == b@[i as int].deep_view());
            assert(x.skip(i as int).skip(1) =~= x.skip(i + 1));
            assert(y.skip(i as int).skip(1) =~= y.skip(i + 1));
        }
        let r = compare_items(&a[i], &b[i]);
        if r != Rel::Same {
            return r;
        }
        i = i + 1;
    }
    if i < b.len() {
        Rel::Less
    } else if i < a.len() {
        Rel::Greater
    } else {
        Rel::Same
    }
}

/// An item with the key that it is sorted by.
pub struct Keyed<T> {
    pub key: Vec<NaturalSortItem>,
    pub item: T,
}

impl<T> Ranked for Keyed<T> {
    open spec fn ranks_before(self, other: Self) -> bool {
        key_order(self.key.deep_view(), other.key.deep_view()) <= 0
    }

    proof fn lemma_ranks() {
        lemma_item_order_total();
        assert forall|x: Self, y: Self| true implies #[trigger] x.ranks_before(y) || y.ranks_before(
            x,
        ) by {
            lemma_lex_total(x.key.deep_view(), y.key.deep_view(), y.key.deep_view(), item_order());
        }
        assert forall|x: Self, y: Self, z: Self| #[trigger]
            x.ranks_before(y) && #[trigger] y.ranks_before(z) implies x.ranks_before(z) by {
            lemma_lex_total(x.key.deep_view(), y.key.deep_view(), z.key.deep_view(), item_order());
        }
    }

    fn may_precede(&self, other: &Self) -> (b: bool) {
        proof {
            lemma_item_order_total();
            lemma_lex_total(
                self.key.deep_view(),
                other.key.deep_view(),
                other.key.deep_view(),
                item_order(),
            );
        }
        compare_keys(&self.key, &other.key) != Rel::Greater
    }
}

// ---------------------------------------------------------------------------
// Leaf labels and compaction

/// The index behind the last occurrence of the characters `a`, `b` in a row, or 0.
pub open spec fn after_last_pair(s: Seq<char>, a: char, b: char) -> int
    decreases s.len(),
{
    if s.len() < 2 {
        0
    } else if s[s.len() - 2] == a && s.last() == b {
        s.len() as int
    } else {
        after_last_pair(s.drop_last(), a, b)
    }
}

/// The index behind the last occurrence of `c`, or 0.
pub open spec fn after_last(s: Seq<char>, c: char) -> int
    decreases s.len(),
{
    if s.len() == 0 {
        0
    } else if s.last() == c {
        s.len() as int
    } else {
        after_last(s.drop_last(), c)
    }
}

/// The last part of a name whose parts end at `.` and `__`.
pub open spec fn spec_last_segment(s: Seq<char>) -> Seq<char> {
    let t = s.skip(after_last_pair(s, '_', '_'));
    t.skip(after_last(t, '.'))
}

/// The last path segment of a tensor name, treating `.` and `__` as separators.
pub fn last_segment(name: &str) -> (r: String)
    ensures
        r@ == spec_last_segment(name@),
{
    let v = chars_of(name);
    let n = v.len();
    let mut i: usize = n;
    proof {
        assert(v@.take(n as int) =~= v@);
    }
    while i >= 2 && !(v[i - 2] == '_' && v[i - 1] == '_')
        invariant
            i <= n,
            n == v@.len(),
            after_last_pair(v@, '_', '_') == after_last_pair(v@.take(i as int), '_', '_'),
        decreases i,
    {
        proof {
            assert(v@.take(i as int).drop_last() =~= v@.take(i - 1));
        }
        i = i - 1;
    }
    let start: usize = if i >= 2 { i } else { 0 };
    let ghost t = v@.skip(start as int);
    let mut j: usize = n;
    proof {
        assert(start == after_last_pair(v@, '_', '_'));
        assert(t.take(n - start) =~= t);
    }
    while j > start && v[j - 1] != '.'
        invariant
            start <= j <= n,
            n == v@.len(),
            t == v@.skip(start as int),
            after_last(t, '.') == after_last(t.take(j - start), '.'),
        decreases j,
    {
        proof {
            assert(t.take(j - start).drop_last() =~= t.take(j - 1 - start));
            assert(t.take(j - start).last() == v@[j - 1]);
        }
        j = j - 1;
    }
    proof {
        if j > start {
            assert(t.take(j - start).last() == v@[j - 1]);
        }
        assert(after_last(t, '.') == j - start);
        assert(v@.subrange(j as int, n as int) =~= t.skip(j - start));
    }
    substring(&v, j, n)
}

/// A group `g` whose folded children are `kids`: merged with its only child if that
/// is a group, absorbed by it if that is a tensor.
pub open spec fn folded(g: NodeModel, kids: Seq<NodeModel>) -> NodeModel
    recommends
        g is Group,
{
    let name = g->Group_name;
    if kids.len() == 1 && kids[0] is Tensor {
        NodeModel::Tensor {
            info: kids[0]->Tensor_info,
            label: Some(
                name + "."@ + (match kids[0]->Tensor_label {
                    Some(l) => l,
                    None => spec_last_segment(kids[0]->Tensor_info.name),
                }),
            ),
        }
    } else {
        let merge = kids.len() == 1 && kids[0] is Group;
        NodeModel::Group {
            name: if merge {
                name + "."@ + kids[0]->Group_name
            } else {
                name
            },
            children: if merge {
                kids[0]->Group_children
            } else {
                kids
            },
            expanded: g->expanded,
            tensor_count: g->tensor_count,
            params: g->params,
            total_size: g->total_size,
            stored_size: g->stored_size,
        }
    }
}

/// A node with every chain of single-child groups folded into one row.
pub open spec fn compacted(n: NodeModel) -> NodeModel
    decreases n,
{
    match n {
        NodeModel::Group { children, .. } => folded(n, all_compacted(children)),
        _ => n,
    }
}

/// Every node of a list folded.
pub open spec fn all_compacted(nodes: Seq<NodeModel>) -> Seq<NodeModel>
    decreases nodes,
{
    Seq::new(
        nodes.len(),
        |i: int|
            if 0 <= i < nodes.len() {
                compacted(nodes[i])
            } else {
                arbitrary()
            },
    )
}

/// Collapse chains of single-child groups below each node.
fn compact_nodes(nodes: Vec<TreeNode>) -> (r: Vec<TreeNode>)
    ensures
        models(r@) == all_compacted(models(nodes@)),
    decreases nodes,
{
    let ghost all = nodes@;
    let mut r: Vec<TreeNode> = Vec::new();
    for n in it: nodes
        invariant
            it.seq() == all,
            all == nodes@,
            r.len() == it.index(),
            forall|j: int|
                0 <= j < r.len() ==> (#[trigger] r@[j]).model() == compacted(all[j].model()),
    {
        proof {
            assert(n == nodes@[it.index() as int]);
            assert(decreases_to!(nodes => nodes@));
            assert(decreases_to!(nodes@ => n));
        }
        let c = compact_node(n);
        r.push(c);
    }
    proof {
        assert(models(r@) =~= all_compacted(models(nodes@)));
    }
    r
}

/// Collapse chains of single-child groups so that a lone deeply nested tensor (or
/// middle package) shows on one row: a single sub-group merges its name in, and a
/// single tensor is absorbed into the leaf, whose label becomes the joined path.
fn compact_node(node: TreeNode) -> (r: TreeNode)
    ensures
        r.model() == compacted(node.model()),
    decreases node,
{
    let ghost whole = node.model();
    match node {
        TreeNode::Group {
            name,
            children,
            expanded,
            tensor_count,
            params,
            total_size,
            stored_size,
        } => {
            let ghost old_kids = models(children@);
            let mut kids = compact_nodes(children);
            proof {
                assert(whole->Group_children =~= old_kids);
            }
            let ghost new_kids = models(kids@);
            if kids.len() == 1 {
                match kids.pop() {
                    Some(
                        TreeNode::Group { name: child_name, children: grandchildren, .. },
                    ) => {
                        let joined = name.concat(".").concat(child_name.as_str());
                        let r = TreeNode::Group {
                            name: joined,
                            children: grandchildren,
                            expanded,
                            tensor_count,
                            params,
                            total_size,
                            stored_size,
                        };
                        proof {
                            assert(new_kids[0]->Group_children =~= r.model()->Group_children);
                        }
                        return r;
                    },
                    Some(TreeNode::Tensor { info, label }) => {
                        let seg = match label {
                            Some(l) => l,
                            None => last_segment(info.name.as_str()),
                        };
                        let joined = name.concat(".").concat(seg.as_str());
                        return TreeNode::Tensor { info, label: Some(joined) };
                    },
                    Some(other) => {
                        kids.push(other);
                    },
                    None => {},
                }
            }
            let r = TreeNode::Group {
                name,
                children: kids,
                expanded,
                tensor_count,
                params,
                total_size,
                stored_size,
            };
            proof {
                assert(models(kids@) =~= new_kids);
                assert(r.model()->Group_children =~= new_kids);
            }
            r
        },
        leaf => leaf,
    }
}


// ---------------------------------------------------------------------------
// Building the tree

/// The segments of a tensor's path: `.` and `__` both separate them.
pub open spec fn path_of(name: Seq<char>) -> Seq<Seq<char>> {
    split(fold_double_underscores(name), '.')
}

/// Split a tensor name into its path segments.
fn path_segments(name: &str) -> (r: Vec<String>)
    ensures
        texts(r@) == path_of(name@),
        r.len() > 0,
{
    let v = chars_of(name);
    let d = dotted(&v);
    proof {
        lemma_split_nonempty(d@, '.');
    }
    let r = split_on(&d, '.');
    proof {
        assert(texts(r@).len() == r@.len());
    }
    r
}

/// The top-level group that a tensor falls into. Names without a separator (and
/// those under `_root`) are not grouped.
pub open spec fn root_bucket() -> spec_fn(TensorModel) -> Option<Seq<char>> {
    |t: TensorModel|
        if path_of(t.name).len() > 1 && path_of(t.name)[0] != "_root"@ {
            Some(path_of(t.name)[0])
        } else {
            None
        }
}

/// The group that a tensor falls into below the first `depth` segments of its path.
pub open spec fn bucket_at(depth: nat) -> spec_fn(TensorModel) -> Option<Seq<char>> {
    |t: TensorModel|
        if path_of(t.name).len() > depth + 1 {
            Some(path_of(t.name)[depth as int])
        } else {
            None
        }
}

/// The groups that occur, in the order in which they first do.
pub open spec fn bucket_names(
    ts: Seq<TensorModel>,
    bucket: spec_fn(TensorModel) -> Option<Seq<char>>,
) -> Seq<Seq<char>>
    decreases ts.len(),
{
    if ts.len() == 0 {
        Seq::empty()
    } else {
        let names = bucket_names(ts.drop_last(), bucket);
        match bucket(ts.last()) {
            Some(k) if !names.contains(k) => names.push(k),
            _ => names,
        }
    }
}

/// The tensors that fall into the group `k` (`None`: into no group).
pub open spec fn members(
    ts: Seq<TensorModel>,
    bucket: spec_fn(TensorModel) -> Option<Seq<char>>,
    k: Option<Seq<char>>,
) -> Seq<TensorModel> {
    ts.filter(falls_into(bucket, k))
}

/// Whether a tensor falls into the group `k`.
pub open spec fn falls_into(
    bucket: spec_fn(TensorModel) -> Option<Seq<char>>,
    k: Option<Seq<char>>,
) -> spec_fn(TensorModel) -> bool {
    |t: TensorModel| bucket(t) == k
}

/// The sum of a number over a list of tensors.
pub open spec fn sum_of(ts: Seq<TensorModel>, f: spec_fn(TensorModel) -> usize) -> nat
    decreases ts.len(),
{
    if ts.len() == 0 {
        0
    } else {
        sum_of(ts.drop_last(), f) + f(ts.last()) as nat
    }
}

pub open spec fn elements() -> spec_fn(TensorModel) -> usize {
    |t: TensorModel| t.num_elements
}

pub open spec fn logical_bytes() -> spec_fn(TensorModel) -> usize {
    |t: TensorModel| t.size_bytes
}

pub open spec fn disk_bytes() -> spec_fn(TensorModel) -> usize {
    |t: TensorModel| t.on_disk_size()
}

/// The totals over the tensors can be counted in a `usize`.
pub open spec fn countable(ts: Seq<TensorModel>) -> bool {
    &&& sum_of(ts, elements()) <= usize::MAX
    &&& sum_of(ts, logical_bytes()) <= usize::MAX
    &&& sum_of(ts, disk_bytes()) <= usize::MAX
}

/// The group `name` with what is below it.
pub open spec fn group_node(
    name: Seq<char>,
    ts: Seq<TensorModel>,
    expanded: bool,
    children: Seq<NodeModel>,
) -> NodeModel {
    NodeModel::Group {
        name,
        children,
        expanded,
        tensor_count: ts.len() as usize,
        params: sum_of(ts, elements()) as usize,
        total_size: sum_of(ts, logical_bytes()) as usize,
        stored_size: sum_of(ts, disk_bytes()) as usize,
    }
}

/// A tensor as a row of its own.
pub open spec fn leaf_node() -> spec_fn(TensorModel) -> NodeModel {
    |t: TensorModel| NodeModel::Tensor { info: t, label: None }
}

/// `a` may stand before `b`: in the natural order of their names.
pub open spec fn by_name() -> spec_fn(NodeModel, NodeModel) -> bool {
    |a: NodeModel, b: NodeModel| key_order(natural_key(a.name()), natural_key(b.name())) <= 0
}

/// `a` may stand before `b`: in the natural order of the tensors' names.
pub open spec fn by_tensor_name() -> spec_fn(TensorModel, TensorModel) -> bool {
    |a: TensorModel, b: TensorModel| key_order(natural_key(a.name), natural_key(b.name)) <= 0
}

/// The rows below a group whose tensors share the first `depth` segments of their
/// paths, none of which has more than `depth + levels + 1` segments.
pub open spec fn subtree(ts: Seq<TensorModel>, depth: nat, levels: nat) -> Seq<NodeModel>
    decreases levels, 1nat,
{
    stable_sort(
        members(ts, bucket_at(depth), None).map_values(leaf_node()) + subgroups(ts, depth, levels),
        by_name(),
    )
}

/// The groups among those rows, in the order in which they first occur.
pub open spec fn subgroups(ts: Seq<TensorModel>, depth: nat, levels: nat) -> Seq<NodeModel>
    decreases levels, 0nat,
{
    if levels == 0 {
        Seq::empty()
    } else {
        bucket_names(ts, bucket_at(depth)).map_values(
            |k: Seq<char>|
                {
                    let own = members(ts, bucket_at(depth), Some(k));
                    group_node(k, own, false, subtree(own, depth + 1, (levels - 1) as nat))
                },
        )
    }
}

/// The largest number of segments in any tensor's path.
pub open spec fn deepest(ts: Seq<TensorModel>) -> nat
    decreases ts.len(),
{
    if ts.len() == 0 {
        0
    } else if path_of(ts.last().name).len() > deepest(ts.drop_last()) {
        path_of(ts.last().name).len()
    } else {
        deepest(ts.drop_last())
    }
}

/// The top-level group `k` of the tensors `ts`.
pub open spec fn top_group(ts: Seq<TensorModel>, k: Seq<char>) -> NodeModel {
    let own = stable_sort(members(ts, root_bucket(), Some(k)), by_tensor_name());
    group_node(k, own, true, subtree(own, 1, deepest(ts)))
}

/// The top-level groups, in the order in which they first occur.
pub open spec fn top_groups(ts: Seq<TensorModel>) -> Seq<NodeModel> {
    bucket_names(ts, root_bucket()).map_values(|k: Seq<char>| top_group(ts, k))
}

/// The tree over a list of tensors.
pub open spec fn tensor_tree(ts: Seq<TensorModel>) -> Seq<NodeModel> {
    all_compacted(
        stable_sort(
            members(ts, root_bucket(), None).map_values(leaf_node()) + top_groups(ts),
            by_name(),
        ),
    )
}

pub proof fn lemma_sum_filter(
    ts: Seq<TensorModel>,
    f: spec_fn(TensorModel) -> usize,
    keep: spec_fn(TensorModel) -> bool,
)
    ensures
        sum_of(ts.filter(keep), f) <= sum_of(ts, f),
    decreases ts.len(),
{
    if ts.len() > 0 {
        let t = ts.drop_last();
        let x = ts.last();
        lemma_sum_filter(t, f, keep);
        assert(ts =~= t.push(x));
        t.lemma_filter_push(x, keep);
        if keep(x) {
            assert(t.filter(keep).push(x).drop_last() =~= t.filter(keep));
        }
    } else {
        assert(ts.filter(keep) =~= Seq::empty()) by {
            ts.lemma_filter_len(keep);
        }
    }
}

pub proof fn lemma_sum_insert(
    ts: Seq<TensorModel>,
    f: spec_fn(TensorModel) -> usize,
    p: int,
    x: TensorModel,
)
    requires
        0 <= p <= ts.len(),
    ensures
        sum_of(ts.insert(p, x), f) == sum_of(ts, f) + f(x),
    decreases ts.len(),
{
    let r = ts.insert(p, x);
    if p == ts.len() {
        assert(r.drop_last() =~= ts);
    } else {
        lemma_sum_insert(ts.drop_last(), f, p, x);
        assert(r.drop_last() =~= ts.drop_last().insert(p, x));
        assert(r.last() == ts.last());
    }
}

pub proof fn lemma_sum_sort(
    ts: Seq<TensorModel>,
    f: spec_fn(TensorModel) -> usize,
    le: spec_fn(TensorModel, TensorModel) -> bool,
)
    requires
        total_preorder(le),
    ensures
        sum_of(stable_sort(ts, le), f) == sum_of(ts, f),
    decreases ts.len(),
{
    if ts.len() > 0 {
        let r = stable_sort(ts.drop_last(), le);
        lemma_sum_sort(ts.drop_last(), f, le);
        lemma_stable_sort(ts.drop_last(), le);
        lemma_sorted_position(r, ts.last(), le);
        lemma_sum_insert(r, f, sorted_position(r, ts.last(), le), ts.last());
    }
}

pub proof fn lemma_by_tensor_name()
    ensures
        total_preorder(by_tensor_name()),
{
    let le = by_tensor_name();
    lemma_item_order_total();
    assert forall|x: TensorModel, y: TensorModel| true implies #[trigger] le(x, y) || le(y, x) by {
        lemma_lex_total(natural_key(x.name), natural_key(y.name), natural_key(y.name), item_order());
    }
    assert forall|x: TensorModel, y: TensorModel, z: TensorModel| #[trigger]
        le(x, y) && #[trigger] le(y, z) implies le(x, z) by {
        lemma_lex_total(natural_key(x.name), natural_key(y.name), natural_key(z.name), item_order());
    }
}

pub proof fn lemma_by_name()
    ensures
        total_preorder(by_name()),
{
    let le = by_name();
    lemma_item_order_total();
    assert forall|x: NodeModel, y: NodeModel| true implies #[trigger] le(x, y) || le(y, x) by {
        lemma_lex_total(
            natural_key(x.name()),
            natural_key(y.name()),
            natural_key(y.name()),
            item_order(),
        );
    }
    assert forall|x: NodeModel, y: NodeModel, z: NodeModel| #[trigger]
        le(x, y) && #[trigger] le(y, z) implies le(x, z) by {
        lemma_lex_total(
            natural_key(x.name()),
            natural_key(y.name()),
            natural_key(z.name()),
            item_order(),
        );
    }
}

/// Sort nodes by the natural order of their names.
fn sort_nodes(nodes: Vec<TreeNode>) -> (r: Vec<TreeNode>)
    ensures
        models(r@) == stable_sort(models(nodes@), by_name()),
{
    let ghost all = nodes@;
    let mut keyed: Vec<Keyed<TreeNode>> = Vec::new();
    for n in it: nodes
        invariant
            it.seq() == all,
            keyed.len() == it.index(),
            forall|j: int|
                0 <= j < keyed.len() ==> (#[trigger] keyed@[j]).item == all[j]
                    && keyed@[j].key.deep_view() == natural_key(all[j].model().name()),
    {
        let key = natural_sort_key(n.name());
        keyed.push(Keyed { key, item: n });
    }
    let ghost before = keyed@;
    let keyed = sort_ranked(keyed);
    let ghost f = |k: Keyed<TreeNode>| k.item.model();
    proof {
        lemma_rank_order::<Keyed<TreeNode>>();
        lemma_stable_sort_map(before, rank_order::<Keyed<TreeNode>>(), f, by_name());
        assert(before.map_values(f) =~= models(all));
    }
    let ghost ordered = keyed@;
    let mut r: Vec<TreeNode> = Vec::new();
    for k in it: keyed
        invariant
            it.seq() == ordered,
            r.len() == it.index(),
            forall|j: int| 0 <= j < r.len() ==> #[trigger] r@[j] == ordered[j].item,
    {
        r.push(k.item);
    }
    proof {
        assert(models(r@) =~= ordered.map_values(f));
    }
    r
}

/// The tensors in the natural order of their names.
pub fn sort_tensors(ts: &[TensorInfo]) -> (r: Vec<TensorInfo>)
    ensures
        r.deep_view() == stable_sort(ts.deep_view(), by_tensor_name()),
{
    let ghost all = ts.deep_view();
    let mut keyed: Vec<Keyed<usize>> = Vec::new();
    let mut i: usize = 0;
    while i < ts.len()
        invariant
            i <= ts.len(),
            all == ts.deep_view(),
            keyed.len() == i,
            forall|j: int|
                0 <= j < i ==> (#[trigger] keyed@[j]).item == j && keyed@[j].key.deep_view()
                    == natural_key(all[j].name),
        decreases ts.len() - i,
    {
        let key = natural_sort_key(ts[i].name.as_str());
        keyed.push(Keyed { key, item: i });
        i = i + 1;
    }
    let ghost before = keyed@;
    let keyed = sort_ranked(keyed);
    let ghost f = |k: Keyed<usize>| all[k.item as int];
    let ghost ordered = keyed@;
    proof {
        lemma_rank_order::<Keyed<usize>>();
        lemma_stable_sort_map(before, rank_order::<Keyed<usize>>(), f, by_tensor_name());
        lemma_stable_sort_contains(before, rank_order::<Keyed<usize>>());
        assert(before.map_values(f) =~= all);
        assert forall|j: int| 0 <= j < ordered.len() implies (#[trigger] ordered[j]).item < all.len() by {
            assert(before.contains(ordered[j]));
        }
    }
    let mut r: Vec<TensorInfo> = Vec::new();
    let mut i: usize = 0;
    while i < keyed.len()
        invariant
            i <= keyed.len(),
            all == ts.deep_view(),
            ordered == keyed@,
            forall|j: int| 0 <= j < ordered.len() ==> (#[trigger] ordered[j]).item < all.len(),
            r.len() == i,
            forall|j: int|
                0 <= j < i ==> (#[trigger] r@[j]).deep_view() == all[ordered[j].item as int],
        decreases keyed.len() - i,
    {
        proof {
            assert(ordered[i as int].item < all.len());
        }
        r.push(ts[keyed[i].item].clone());
        i = i + 1;
    }
    proof {
        assert(r.deep_view() =~= ordered.map_values(f));
    }
    r
}

/// The tensors of one group.
struct Bucket {
    name: String,
    items: Vec<TensorInfo>,
}

/// How tensors are grouped at the top (`None`) or below `depth` segments.
pub open spec fn grouping(depth: Option<usize>) -> spec_fn(TensorModel) -> Option<Seq<char>> {
    match depth {
        None => root_bucket(),
        Some(d) => bucket_at(d as nat),
    }
}

/// The group that a tensor falls into.
fn bucket_key(t: &TensorInfo, depth: Option<usize>) -> (k: Option<String>)
    ensures
        (match k {
            Some(s) => Some(s@),
            None => None,
        }) == grouping(depth)(t.deep_view()),
        path_of(t.deep_view().name).len() <= usize::MAX,
{
    let segments = path_segments(t.name.as_str());
    proof {
        assert(texts(segments@).len() == segments@.len());
    }
    match depth {
        None => {
            if segments.len() > 1 {
                proof {
                    assert(texts(segments@)[0] == segments@[0]@);
                }
                if same(segments[0].as_str(), "_root") {
                    None
                } else {
                    Some(segments[0].clone())
                }
            } else {
                None
            }
        },
        Some(d) => {
            if segments.len() - 1 > d {
                proof {
                    assert(texts(segments@)[d as int] == segments@[d as int]@);
                }
                Some(segments[d].clone())
            } else {
                None
            }
        },
    }
}

spec fn bucket_texts(b: Seq<Bucket>) -> Seq<Seq<char>> {
    b.map_values(|x: Bucket| x.name@)
}

spec fn buckets_hold(
    b: Seq<Bucket>,
    ts: Seq<TensorModel>,
    bucket: spec_fn(TensorModel) -> Option<Seq<char>>,
) -> bool {
    &&& bucket_texts(b) == bucket_names(ts, bucket)
    &&& forall|i: int|
        0 <= i < b.len() ==> (#[trigger] b[i]).items.deep_view() == members(
            ts,
            bucket,
            Some(b[i].name@),
        )
}

pub proof fn lemma_bucket_names_distinct(
    ts: Seq<TensorModel>,
    bucket: spec_fn(TensorModel) -> Option<Seq<char>>,
)
    ensures
        bucket_names(ts, bucket).no_duplicates(),
        forall|i: int|
            0 <= i < bucket_names(ts, bucket).len() ==> exists|j: int|
                0 <= j < ts.len() && bucket(#[trigger] ts[j]) == Some(
                    #[trigger] bucket_names(ts, bucket)[i],
                ),
        forall|k: Seq<char>|
            !bucket_names(ts, bucket).contains(k) ==> #[trigger] members(ts, bucket, Some(k)).len()
                == 0,
    decreases ts.len(),
{
    if ts.len() > 0 {
        let t = ts.drop_last();
        let x = ts.last();
        lemma_bucket_names_distinct(t, bucket);
        let names = bucket_names(t, bucket);
        let all = bucket_names(ts, bucket);
        assert(ts =~= t.push(x));
        assert forall|i: int| 0 <= i < all.len() implies exists|j: int|
            0 <= j < ts.len() && bucket(#[trigger] ts[j]) == Some(#[trigger] all[i]) by {
            if i < names.len() {
                assert(all[i] == names[i]);
                let j = choose|j: int|
                    0 <= j < t.len() && bucket(#[trigger] t[j]) == Some(names[i]);
                assert(ts[j] == t[j]);
            } else {
                assert(bucket(ts[ts.len() - 1]) == Some(all[i]));
            }
        }
        assert forall|k: Seq<char>| !all.contains(k) implies #[trigger] members(
            ts,
            bucket,
            Some(k),
        ).len() == 0 by {
            let p = falls_into(bucket, Some(k));
            t.lemma_filter_push(x, p);
            if names.contains(k) {
                let i = choose|i: int| 0 <= i < names.len() && names[i] == k;
                assert(all[i] == k);
            }
            assert(members(t, bucket, Some(k)).len() == 0);
            if bucket(x) == Some(k) {
                assert(all.contains(k)) by {
                    if !names.contains(k) {
                        assert(all[names.len() as int] == k);
                    }
                }
            }
        }
    } else {
        assert forall|k: Seq<char>| #[trigger] members(ts, bucket, Some(k)).len() == 0 by {
            ts.lemma_filter_len(falls_into(bucket, Some(k)));
        }
    }
}

/// Put each tensor into its group.
fn group_tensors(ts: &[TensorInfo], depth: Option<usize>) -> (r: (Vec<TensorInfo>, Vec<Bucket>))
    ensures
        r.0.deep_view() == members(ts.deep_view(), grouping(depth), None),
        buckets_hold(r.1@, ts.deep_view(), grouping(depth)),
        forall|i: int|
            0 <= i < ts.len() ==> path_of((#[trigger] ts@[i]).name@).len() <= usize::MAX,
{
    let ghost all = ts.deep_view();
    let ghost bucket = grouping(depth);
    let mut loose: Vec<TensorInfo> = Vec::new();
    let mut buckets: Vec<Bucket> = Vec::new();
    let mut i: usize = 0;
    proof {
        let none = falls_into(bucket, None::<Seq<char>>);
        all.take(0).lemma_filter_len(none);
        assert(loose.deep_view() =~= members(all.take(0), bucket, None));
        assert(bucket_texts(buckets@) =~= bucket_names(all.take(0), bucket));
    }
    while i < ts.len()
        invariant
            i <= ts.len(),
            all == ts.deep_view(),
            bucket == grouping(depth),
            loose.deep_view() == members(all.take(i as int), bucket, None),
            buckets_hold(buckets@, all.take(i as int), bucket),
            forall|j: int| 0 <= j < i ==> path_of((#[trigger] ts@[j]).name@).len() <= usize::MAX,
        decreases ts.len() - i,
    {
        let t = &ts[i];
        let key = bucket_key(t, depth);
        let ghost done = all.take(i as int);
        let ghost x = t.deep_view();
        let ghost none = falls_into(bucket, None::<Seq<char>>);
        proof {
            assert(all.take(i + 1) =~= done.push(x));
            assert(done.push(x).drop_last() =~= done);
            done.lemma_filter_push(x, none);
            lemma_bucket_names_distinct(done, bucket);
        }
        match key {
            None => {
                let ghost before = loose.deep_view();
                loose.push(t.clone());
                proof {
                    assert(loose.deep_view() =~= before.push(x));
                    assert forall|b: int| 0 <= b < buckets.len() implies (
                    #[trigger] buckets@[b]).items.deep_view() == members(
                        done.push(x),
                        bucket,
                        Some(buckets@[b].name@),
                    ) by {
                        let p = falls_into(bucket, Some(buckets@[b].name@));
                        done.lemma_filter_push(x, p);
                    }
                }
            },
            Some(k) => {
                let mut b: usize = 0;
                let ghost names = bucket_names(done, bucket);
                while b < buckets.len() && buckets[b].name != k
                    invariant
                        b <= buckets.len(),
                        names == bucket_texts(buckets@),
                        forall|j: int| 0 <= j < b ==> #[trigger] names[j] != k@,
                    decreases buckets.len() - b,
                {
                    proof {
                        assert(names[b as int] == buckets@[b as int].name@);
                    }
                    b = b + 1;
                }
                let ghost before = buckets@;
                if b < buckets.len() {
                    proof {
                        assert(names[b as int] == k@);
                        assert(names.contains(k@));
                    }
                    let copy = t.clone();
                    let ghost old_items = buckets@[b as int].items.deep_view();
                    buckets[b].items.push(copy);
                    proof {
                        assert(buckets@[b as int].items.deep_view() =~= old_items.push(x));
                        assert(bucket_texts(buckets@) =~= names);
                        assert forall|j: int| 0 <= j < buckets.len() implies (
                        #[trigger] buckets@[j]).items.deep_view() == members(
                            done.push(x),
                            bucket,
                            Some(buckets@[j].name@),
                        ) by {
                            let p = falls_into(bucket, Some(buckets@[j].name@));
                            done.lemma_filter_push(x, p);
                            if j != b {
                                assert(buckets@[j] == before[j]);
                                assert(names[j] == before[j].name@);
                                assert(names[j] != names[b as int]);
                            }
                        }
                    }
                } else {
                    proof {
                        if names.contains(k@) {
                            let j = choose|j: int| 0 <= j < names.len() && names[j] == k@;
                            assert(names[j] != k@);
                        }
                        assert(members(done, bucket, Some(k@)).len() == 0);
                    }
                    let mut items: Vec<TensorInfo> = Vec::new();
                    items.push(t.clone());
                    let ghost item_models = items.deep_view();
                    buckets.push(Bucket { name: k, items });
                    proof {
                        assert(item_models =~= seq![x]);
                        assert(bucket_texts(buckets@) =~= names.push(k@));
                        assert forall|j: int| 0 <= j < buckets.len() implies (
                        #[trigger] buckets@[j]).items.deep_view() == members(
                            done.push(x),
                            bucket,
                            Some(buckets@[j].name@),
                        ) by {
                            let p = falls_into(bucket, Some(buckets@[j].name@));
                            done.lemma_filter_push(x, p);
                            if j < before.len() {
                                assert(buckets@[j] == before[j]);
                                assert(names[j] == before[j].name@);
                                assert(names.contains(names[j]));
                            } else {
                                assert(members(done, bucket, Some(k@)) =~= Seq::empty());
                                assert(Seq::<TensorModel>::empty().push(x) =~= seq![x]);
                            }
                        }
                    }
                }
            },
        }
        i = i + 1;
    }
    proof {
        assert(all.take(i as int) =~= all);
    }
    (loose, buckets)
}


/// The totals over a list of tensors: elements, logical bytes, bytes on disk.
pub fn totals(ts: &[TensorInfo]) -> (r: (usize, usize, usize))
    requires
        countable(ts.deep_view()),
    ensures
        r.0 == sum_of(ts.deep_view(), elements()),
        r.1 == sum_of(ts.deep_view(), logical_bytes()),
        r.2 == sum_of(ts.deep_view(), disk_bytes()),
{
    let ghost all = ts.deep_view();
    let mut params: usize = 0;
    let mut bytes: usize = 0;
    let mut stored: usize = 0;
    let mut i: usize = 0;
    proof {
        assert(all.take(0) =~= Seq::empty());
    }
    while i < ts.len()
        invariant
            i <= ts.len(),
            all == ts.deep_view(),
            countable(all),
            params == sum_of(all.take(i as int), elements()),
            bytes == sum_of(all.take(i as int), logical_bytes()),
            stored == sum_of(all.take(i as int), disk_bytes()),
        decreases ts.len() - i,
    {
        proof {
            assert(all.take(i + 1).drop_last() =~= all.take(i as int));
            lemma_sum_take(all, elements(), i + 1);
            lemma_sum_take(all, logical_bytes(), i + 1);
            lemma_sum_take(all, disk_bytes(), i + 1);
        }
        params = params + ts[i].num_elements;
        bytes = bytes + ts[i].size_bytes;
        stored = stored + ts[i].on_disk_size();
        i = i + 1;
    }
    proof {
        assert(all.take(i as int) =~= all);
    }
    (params, bytes, stored)
}

pub proof fn lemma_sum_take(ts: Seq<TensorModel>, f: spec_fn(TensorModel) -> usize, n: int)
    requires
        0 <= n <= ts.len(),
    ensures
        sum_of(ts.take(n), f) <= sum_of(ts, f),
    decreases ts.len() - n,
{
    if n < ts.len() {
        lemma_sum_take(ts, f, n + 1);
        assert(ts.take(n + 1).drop_last() =~= ts.take(n));
    } else {
        assert(ts.take(n) =~= ts);
    }
}

pub proof fn lemma_countable_filter(ts: Seq<TensorModel>, keep: spec_fn(TensorModel) -> bool)
    requires
        countable(ts),
    ensures
        countable(ts.filter(keep)),
{
    lemma_sum_filter(ts, elements(), keep);
    lemma_sum_filter(ts, logical_bytes(), keep);
    lemma_sum_filter(ts, disk_bytes(), keep);
}

/// Every tensor that falls into a group is one of the list.
pub proof fn lemma_members_in(
    ts: Seq<TensorModel>,
    bucket: spec_fn(TensorModel) -> Option<Seq<char>>,
    k: Option<Seq<char>>,
)
    ensures
        forall|i: int|
            0 <= i < members(ts, bucket, k).len() ==> ts.contains(#[trigger] members(ts, bucket, k)[i]),
{
    let own = members(ts, bucket, k);
    assert forall|i: int| 0 <= i < own.len() implies ts.contains(#[trigger] own[i]) by {
        assert(own.contains(own[i]));
        ts.lemma_filter_contains_rev(falls_into(bucket, k), own[i]);
    }
}

/// One row per tensor.
fn leaf_rows(ts: Vec<TensorInfo>) -> (r: Vec<TreeNode>)
    ensures
        models(r@) == ts.deep_view().map_values(leaf_node()),
{
    let ghost all = ts@;
    let ghost infos = ts.deep_view();
    let mut r: Vec<TreeNode> = Vec::new();
    for t in it: ts
        invariant
            it.seq() == all,
            r.len() == it.index(),
            forall|j: int|
                0 <= j < r.len() ==> (#[trigger] r@[j]).model() == leaf_node()(all[j].deep_view()),
    {
        r.push(TreeNode::Tensor { info: t, label: None });
    }
    proof {
        assert(models(r@) =~= infos.map_values(leaf_node()));
    }
    r
}

/// The rows below a group whose tensors share the first `depth` segments of their
/// paths.
fn build_subtree(ts: &[TensorInfo], depth: usize, Ghost(levels): Ghost<nat>) -> (r: Vec<TreeNode>)
    requires
        countable(ts.deep_view()),
        forall|i: int|
            0 <= i < ts.len() ==> path_of((#[trigger] ts.deep_view()[i]).name).len() <= depth + levels + 1,
    ensures
        models(r@) == subtree(ts.deep_view(), depth as nat, levels),
    decreases levels,
{
    let ghost all = ts.deep_view();
    let ghost bucket = bucket_at(depth as nat);
    let (loose, buckets) = group_tensors(ts, Some(depth));
    let mut rows = leaf_rows(loose);
    let mut groups: Vec<TreeNode> = Vec::new();
    let ghost bs = buckets@;
    let ghost names = bucket_names(all, bucket);
    proof {
        lemma_bucket_names_distinct(all, bucket);
        if names.len() > 0 {
            let j = choose|j: int| 0 <= j < all.len() && bucket(#[trigger] all[j]) == Some(names[0]);
            assert(all[j].name == ts@[j].name@);
            assert(path_of(all[j].name).len() > depth + 1);
            assert(path_of(ts@[j].name@).len() <= usize::MAX);
            assert(levels > 0);
        }
        assert(bs.len() == names.len());
    }
    for b in it: buckets
        invariant
            it.seq() == bs,
            all == ts.deep_view(),
            bucket == bucket_at(depth as nat),
            names == bucket_names(all, bucket),
            countable(all),
            buckets_hold(bs, all, bucket),
            names.len() > 0 ==> depth + 1 <= usize::MAX && levels > 0,
            forall|i: int|
                0 <= i < all.len() ==> path_of((#[trigger] all[i]).name).len() <= depth + levels + 1,
            groups.len() == it.index(),
            forall|j: int|
                0 <= j < groups.len() ==> (#[trigger] groups@[j]).model() == subgroups(
                    all,
                    depth as nat,
                    levels,
                )[j],
    {
        let ghost n = it.index() as int;
        let ghost k = b.name@;
        proof {
            assert(bs[n] == b);
            assert(bucket_texts(bs)[n] == k);
            assert(names[n] == k);
            lemma_countable_filter(all, falls_into(bucket, Some(k)));
            lemma_members_in(all, bucket, Some(k));
            assert forall|i: int| 0 <= i < b.items.len() implies path_of(
                (#[trigger] b.items.deep_view()[i]).name,
            ).len() <= (depth + 1) + (levels - 1) + 1 by {
                assert(all.contains(members(all, bucket, Some(k))[i]));
            }
        }
        let items = b.items.as_slice();
        proof {
            assert(items.deep_view() =~= b.items.deep_view());
        }
        let (params, total_size, stored_size) = totals(items);
        let tensor_count = b.items.len();
        let children = build_subtree(items, depth + 1, Ghost((levels - 1) as nat));
        let row = TreeNode::Group {
            name: b.name,
            children,
            expanded: false,
            tensor_count,
            params,
            total_size,
            stored_size,
        };
        proof {
            assert(row.model()->Group_children =~= models(children@));
            assert(b.items.deep_view().len() == b.items.len());
        }
        groups.push(row);
    }
    proof {
        assert(models(groups@) =~= subgroups(all, depth as nat, levels));
        assert(models(rows@ + groups@) =~= models(rows@) + models(groups@));
    }
    rows.append(&mut groups);
    sort_nodes(rows)
}


pub proof fn lemma_deepest(ts: Seq<TensorModel>, i: int)
    requires
        0 <= i < ts.len(),
    ensures
        path_of(ts[i].name).len() <= deepest(ts),
    decreases ts.len(),
{
    if i < ts.len() - 1 {
        lemma_deepest(ts.drop_last(), i);
    }
}

/// The group that holds the metadata, above the tensors.
pub open spec fn metadata_group(ms: Seq<MetadataModel>) -> NodeModel {
    NodeModel::Group {
        name: "🔧 Metadata"@,
        children: stable_sort(
            ms.map_values(|m: MetadataModel| NodeModel::Metadata { info: m }),
            by_name(),
        ),
        expanded: false,
        tensor_count: 0,
        params: 0,
        total_size: 0,
        stored_size: 0,
    }
}

/// Builds the tree and changes what of it is shown.
pub struct TreeBuilder;

impl TreeBuilder {
    /// The tree over tensors and metadata: the metadata in a group of its own, first.
    pub fn build_tree_mixed(tensors: &[TensorInfo], metadata: &[MetadataInfo]) -> (r: Vec<TreeNode>)
        requires
            countable(tensors.deep_view()),
        ensures
            metadata.len() == 0 ==> models(r@) == tensor_tree(tensors.deep_view()),
            metadata.len() > 0 ==> models(r@) == seq![metadata_group(metadata.deep_view())]
                + tensor_tree(tensors.deep_view()),
    {
        let mut tree: Vec<TreeNode> = Vec::new();
        if metadata.len() > 0 {
            let ghost wrap = |m: MetadataModel| NodeModel::Metadata { info: m };
            let mut rows: Vec<TreeNode> = Vec::new();
            let mut i: usize = 0;
            while i < metadata.len()
                invariant
                    i <= metadata.len(),
                    rows.len() == i,
                    forall|j: int|
                        0 <= j < i ==> (#[trigger] rows@[j]).model() == (NodeModel::Metadata {
                            info: metadata@[j].deep_view(),
                        }),
                decreases metadata.len() - i,
            {
                rows.push(TreeNode::Metadata { info: metadata[i].clone() });
                i = i + 1;
            }
            proof {
                assert(models(rows@) =~= metadata.deep_view().map_values(wrap));
            }
            let children = sort_nodes(rows);
            let name = "🔧 Metadata".to_owned();
            let group = TreeNode::Group {
                name,
                children,
                expanded: false,
                tensor_count: 0,
                params: 0,
                total_size: 0,
                stored_size: 0,
            };
            proof {
                assert(group.model()->Group_children =~= models(children@));
                assert(metadata_group(metadata.deep_view())->Group_children =~= models(children@));
            }
            tree.push(group);
        }
        let ghost head = models(tree@);
        let mut tensor_rows = Self::build_tree(tensors);
        proof {
            assert(models(tree@ + tensor_rows@) =~= models(tree@) + models(tensor_rows@));
            if metadata.len() > 0 {
                assert(head =~= seq![metadata_group(metadata.deep_view())]);
            } else {
                assert(head + models(tensor_rows@) =~= models(tensor_rows@));
            }
        }
        tree.append(&mut tensor_rows);
        tree
    }

    /// The tree over tensors, grouped by the segments of their names.
    pub fn build_tree(tensors: &[TensorInfo]) -> (r: Vec<TreeNode>)
        requires
            countable(tensors.deep_view()),
        ensures
            models(r@) == tensor_tree(tensors.deep_view()),
    {
        let ghost all = tensors.deep_view();
        let ghost bucket = root_bucket();
        let (loose, buckets) = group_tensors(tensors, None);
        let mut rows = leaf_rows(loose);
        let mut groups: Vec<TreeNode> = Vec::new();
        let ghost bs = buckets@;
        let ghost names = bucket_names(all, bucket);
        proof {
            lemma_by_tensor_name();
        }
        for b in it: buckets
            invariant
                it.seq() == bs,
                all == tensors.deep_view(),
                bucket == root_bucket(),
                names == bucket_names(all, bucket),
                countable(all),
                total_preorder(by_tensor_name()),
                buckets_hold(bs, all, bucket),
                groups.len() == it.index(),
                forall|j: int|
                    0 <= j < groups.len() ==> (#[trigger] groups@[j]).model() == top_groups(all)[j],
        {
            let ghost n = it.index() as int;
            let ghost k = b.name@;
            let ghost own = members(all, bucket, Some(k));
            proof {
                assert(bs[n] == b);
                assert(bucket_texts(bs)[n] == k);
                assert(names[n] == k);
                lemma_countable_filter(all, falls_into(bucket, Some(k)));
                lemma_members_in(all, bucket, Some(k));
                lemma_sum_sort(own, elements(), by_tensor_name());
                lemma_sum_sort(own, logical_bytes(), by_tensor_name());
                lemma_sum_sort(own, disk_bytes(), by_tensor_name());
                lemma_stable_sort_contains(own, by_tensor_name());
            }
            let unsorted = b.items.as_slice();
            proof {
                assert(unsorted.deep_view() =~= own);
            }
            let items = sort_tensors(unsorted);
            let items_slice = items.as_slice();
            proof {
                assert(items_slice.deep_view() =~= items.deep_view());
                let sorted_own = stable_sort(own, by_tensor_name());
                assert forall|i: int| 0 <= i < items.len() implies path_of(
                    (#[trigger] items.deep_view()[i]).name,
                ).len() <= 1 + deepest(all) + 1 by {
                    let x = sorted_own[i];
                    assert(own.contains(x));
                    let m = choose|m: int| 0 <= m < own.len() && own[m] == x;
                    assert(all.contains(own[m]));
                    let a = choose|a: int| 0 <= a < all.len() && all[a] == x;
                    lemma_deepest(all, a);
                }
            }
            let tensor_count = items.len();
            let (params, total_size, stored_size) = totals(items_slice);
            let children = build_subtree(items_slice, 1, Ghost(deepest(all)));
            let row = TreeNode::Group {
                name: b.name,
                children,
                expanded: true,
                tensor_count,
                params,
                total_size,
                stored_size,
            };
            proof {
                assert(row.model()->Group_children =~= models(children@));
                assert(row.model() == top_group(all, k));
            }
            groups.push(row);
        }
        proof {
            assert(models(groups@) =~= top_groups(all));
            assert(models(rows@ + groups@) =~= models(rows@) + models(groups@));
        }
        rows.append(&mut groups);
        let rows = sort_nodes(rows);
        compact_nodes(rows)
    }
}


// ---------------------------------------------------------------------------
// What of the tree is shown

impl NodeModel {
    /// The node with its own `expanded` flag set.
    pub open spec fn with_expanded(self, on: bool) -> NodeModel {
        match self {
            NodeModel::Group {
                name,
                children,
                expanded,
                tensor_count,
                params,
                total_size,
                stored_size,
            } => NodeModel::Group {
                name,
                children,
                expanded: on,
                tensor_count,
                params,
                total_size,
                stored_size,
            },
            _ => self,
        }
    }

    /// The node with its children replaced.
    pub open spec fn with_children(self, kids: Seq<NodeModel>) -> NodeModel {
        match self {
            NodeModel::Group {
                name,
                children,
                expanded,
                tensor_count,
                params,
                total_size,
                stored_size,
            } => NodeModel::Group {
                name,
                children: kids,
                expanded,
                tensor_count,
                params,
                total_size,
                stored_size,
            },
            _ => self,
        }
    }

    /// Whether this is the leaf that is looked for.
    pub open spec fn is_leaf(self, name: Seq<char>, with_metadata: bool) -> bool {
        match self {
            NodeModel::Group { .. } => false,
            NodeModel::Tensor { info, .. } => info.name == name,
            NodeModel::Metadata { info } => with_metadata && info.name == name,
        }
    }
}

/// Every group in the list, however deep, expanded or collapsed.
pub open spec fn all_set(nodes: Seq<NodeModel>, on: bool) -> Seq<NodeModel>
    decreases nodes,
{
    Seq::new(
        nodes.len(),
        |i: int|
            if 0 <= i < nodes.len() {
                node_set(nodes[i], on)
            } else {
                arbitrary()
            },
    )
}

/// The node with every group in it expanded or collapsed.
pub open spec fn node_set(n: NodeModel, on: bool) -> NodeModel
    decreases n,
{
    match n {
        NodeModel::Group { children, .. } => n.with_expanded(on).with_children(
            all_set(children, on),
        ),
        _ => n,
    }
}

/// Whether every group in the list, however deep, is in the given state.
pub open spec fn groups_are(nodes: Seq<NodeModel>, on: bool) -> bool
    decreases nodes,
{
    forall|i: int| 0 <= i < nodes.len() ==> node_groups_are(#[trigger] nodes[i], on)
}

/// Whether every group in the node is in the given state.
pub open spec fn node_groups_are(n: NodeModel, on: bool) -> bool
    decreases n,
{
    match n {
        NodeModel::Group { children, expanded, .. } => expanded == on && groups_are(children, on),
        _ => true,
    }
}

/// Whether the leaf is in the list, however deep.
pub open spec fn holds_leaf(nodes: Seq<NodeModel>, name: Seq<char>, with_metadata: bool) -> bool
    decreases nodes,
{
    exists|i: int| 0 <= i < nodes.len() && node_holds_leaf(#[trigger] nodes[i], name, with_metadata)
}

/// Whether the leaf is the node or below it.
pub open spec fn node_holds_leaf(n: NodeModel, name: Seq<char>, with_metadata: bool) -> bool
    decreases n,
{
    match n {
        NodeModel::Group { children, .. } => holds_leaf(children, name, with_metadata),
        _ => n.is_leaf(name, with_metadata),
    }
}

/// The list with every group on the way to the first such leaf expanded.
pub open spec fn opened(nodes: Seq<NodeModel>, name: Seq<char>, with_metadata: bool) -> Seq<NodeModel>
    decreases nodes, 1nat,
{
    if nodes.len() == 0 {
        nodes
    } else if node_holds_leaf(nodes[0], name, with_metadata) {
        seq![node_opened(nodes[0], name, with_metadata)] + nodes.skip(1)
    } else {
        seq![nodes[0]] + opened(nodes.skip(1), name, with_metadata)
    }
}

/// The node with every group on the way to the first such leaf expanded.
pub open spec fn node_opened(n: NodeModel, name: Seq<char>, with_metadata: bool) -> NodeModel
    decreases n, 0nat,
{
    match n {
        NodeModel::Group { children, .. } if holds_leaf(children, name, with_metadata) =>
            n.with_expanded(true).with_children(opened(children, name, with_metadata)),
        _ => n,
    }
}

/// One level further down.
pub open spec fn deeper(depth: usize) -> usize {
    if depth < usize::MAX {
        (depth + 1) as usize
    } else {
        depth
    }
}

/// The visible rows of a list, each with its depth.
pub open spec fn rows_of(nodes: Seq<NodeModel>, depth: usize) -> Seq<(NodeModel, usize)>
    decreases nodes, 1nat,
{
    if nodes.len() == 0 {
        Seq::empty()
    } else {
        rows_of(nodes.drop_last(), depth) + node_rows(nodes.last(), depth)
    }
}

/// The visible rows of a node: itself, then what is below it if it is expanded.
pub open spec fn node_rows(n: NodeModel, depth: usize) -> Seq<(NodeModel, usize)>
    decreases n, 0nat,
{
    match n {
        NodeModel::Group { children, expanded, .. } if expanded => seq![(n, depth)] + rows_of(
            children,
            deeper(depth),
        ),
        _ => seq![(n, depth)],
    }
}

/// The models of a list of rows.
pub open spec fn row_models(rows: Seq<(TreeNode, usize)>) -> Seq<(NodeModel, usize)> {
    rows.map_values(|r: (TreeNode, usize)| (r.0.model(), r.1))
}

impl TreeBuilder {
    /// Expand or collapse every group in the tree.
    pub fn set_all_expanded(nodes: &mut Vec<TreeNode>, expanded: bool)
        ensures
            models(final(nodes)@) == all_set(models(old(nodes)@), expanded),
        decreases *old(nodes),
    {
        let ghost before = nodes@;
        let mut i: usize = 0;
        while i < nodes.len()
            invariant
                i <= nodes.len(),
                nodes.len() == before.len(),
                before == old(nodes)@,
                forall|j: int|
                    0 <= j < i ==> (#[trigger] nodes@[j]).model() == node_set(before[j].model(), expanded),
                forall|j: int| i <= j < nodes.len() ==> #[trigger] nodes@[j] == before[j],
            decreases nodes.len() - i,
        {
            match &mut nodes[i] {
                TreeNode::Group { children, expanded: flag, .. } => {
                    *flag = expanded;
                    Self::set_all_expanded(children, expanded);
                },
                _ => {},
            }
            proof {
                lemma_children(before[i as int]);
                lemma_children(nodes@[i as int]);
            }
            i = i + 1;
        }
        proof {
            assert(models(nodes@) =~= all_set(models(before), expanded));
        }
    }
}


impl TreeBuilder {
    /// Whether every group in the tree is expanded (or every one collapsed).
    pub fn all_groups(nodes: &Vec<TreeNode>, expanded: bool) -> (r: bool)
        ensures
            r == groups_are(models(nodes@), expanded),
        decreases nodes,
    {
        let ghost all = models(nodes@);
        let mut i: usize = 0;
        while i < nodes.len()
            invariant
                i <= nodes.len(),
                all == models(nodes@),
                forall|j: int| 0 <= j < i ==> node_groups_are(#[trigger] all[j], expanded),
            decreases nodes.len() - i,
        {
            proof {
                lemma_children(nodes@[i as int]);
                assert(all[i as int] == nodes@[i as int].model());
            }
            match &nodes[i] {
                TreeNode::Group { children, expanded: flag, .. } => {
                    if *flag != expanded {
                        return false;
                    }
                    if !Self::all_groups(children, expanded) {
                        return false;
                    }
                },
                _ => {},
            }
            i = i + 1;
        }
        true
    }

    /// Expand every group on the way to the tensor named `name`, so that it becomes
    /// visible. Returns whether there is one.
    pub fn expand_to_tensor(nodes: &mut Vec<TreeNode>, name: &str) -> (found: bool)
        ensures
            found == holds_leaf(models(old(nodes)@), name@, false),
            models(final(nodes)@) == opened(models(old(nodes)@), name@, false),
    {
        expand_to(nodes, name, false)
    }

    /// Expand every group on the way to the tensor or metadata entry named `name`.
    pub fn expand_to_leaf(nodes: &mut Vec<TreeNode>, name: &str) -> (found: bool)
        ensures
            found == holds_leaf(models(old(nodes)@), name@, true),
            models(final(nodes)@) == opened(models(old(nodes)@), name@, true),
    {
        expand_to(nodes, name, true)
    }
}

proof fn lemma_opened_at(nodes: Seq<NodeModel>, name: Seq<char>, with_metadata: bool, i: int)
    requires
        0 <= i < nodes.len(),
        node_holds_leaf(nodes[i], name, with_metadata),
        forall|j: int| 0 <= j < i ==> !node_holds_leaf(#[trigger] nodes[j], name, with_metadata),
    ensures
        opened(nodes, name, with_metadata) == nodes.update(
            i,
            node_opened(nodes[i], name, with_metadata),
        ),
    decreases nodes.len(),
{
    if i == 0 {
        assert(opened(nodes, name, with_metadata) =~= nodes.update(
            0,
            node_opened(nodes[0], name, with_metadata),
        ));
    } else {
        let t = nodes.skip(1);
        assert(t[i - 1] == nodes[i]);
        assert forall|j: int| 0 <= j < i - 1 implies !node_holds_leaf(
            #[trigger] t[j],
            name,
            with_metadata,
        ) by {
            assert(t[j] == nodes[j + 1]);
        }
        lemma_opened_at(t, name, with_metadata, i - 1);
        assert(!node_holds_leaf(nodes[0], name, with_metadata));
        assert(opened(nodes, name, with_metadata) =~= nodes.update(
            i,
            node_opened(nodes[i], name, with_metadata),
        ));
    }
}

proof fn lemma_opened_none(nodes: Seq<NodeModel>, name: Seq<char>, with_metadata: bool)
    requires
        !holds_leaf(nodes, name, with_metadata),
    ensures
        opened(nodes, name, with_metadata) == nodes,
    decreases nodes.len(),
{
    if nodes.len() > 0 {
        let t = nodes.skip(1);
        assert(!node_holds_leaf(nodes[0], name, with_metadata));
        if holds_leaf(t, name, with_metadata) {
            let i = choose|i: int|
                0 <= i < t.len() && node_holds_leaf(#[trigger] t[i], name, with_metadata);
            assert(t[i] == nodes[i + 1]);
        }
        lemma_opened_none(t, name, with_metadata);
        assert(opened(nodes, name, with_metadata) =~= nodes);
    }
}

/// Expand every group on the way to the first leaf named `name`.
fn expand_to(nodes: &mut Vec<TreeNode>, name: &str, with_metadata: bool) -> (found: bool)
    ensures
        found == holds_leaf(models(old(nodes)@), name@, with_metadata),
        models(final(nodes)@) == opened(models(old(nodes)@), name@, with_metadata),
    decreases *old(nodes),
{
    let ghost before = nodes@;
    let ghost all = models(before);
    let mut i: usize = 0;
    while i < nodes.len()
        invariant
            i <= nodes.len(),
            before == old(nodes)@,
            all == models(before),
            models(nodes@) == all,
            nodes.len() == before.len(),
            forall|j: int| i <= j < nodes.len() ==> #[trigger] nodes@[j] == before[j],
            forall|j: int|
                0 <= j < i ==> !node_holds_leaf(#[trigger] all[j], name@, with_metadata),
        decreases nodes.len() - i,
    {
        let ghost n = before[i as int];
        proof {
            lemma_children(n);
            assert(all[i as int] == n.model());
        }
        let hit = match &mut nodes[i] {
            TreeNode::Group { children, expanded: flag, .. } => {
                let hit = expand_to(children, name, with_metadata);
                if hit {
                    *flag = true;
                }
                hit
            },
            TreeNode::Tensor { info, .. } => same(info.name.as_str(), name),
            TreeNode::Metadata { info } => with_metadata && same(info.name.as_str(), name),
        };
        proof {
            lemma_children(nodes@[i as int]);
            if !hit && n is Group {
                lemma_opened_none(n.model()->Group_children, name@, with_metadata);
            }
            assert(hit == node_holds_leaf(n.model(), name@, with_metadata));
            assert(nodes@[i as int].model() == node_opened(n.model(), name@, with_metadata));
        }
        if hit {
            proof {
                lemma_opened_at(all, name@, with_metadata, i as int);
                assert(models(nodes@) =~= all.update(i as int, nodes@[i as int].model()));
            }
            return true;
        }
        proof {
            assert(models(nodes@) =~= all);
        }
        i = i + 1;
    }
    proof {
        assert(!holds_leaf(all, name@, with_metadata));
        lemma_opened_none(all, name@, with_metadata);
    }
    false
}

impl TreeBuilder {
    /// The visible rows, each with its depth.
    pub fn flatten_tree(tree: &Vec<TreeNode>) -> (rows: Vec<(TreeNode, usize)>)
        ensures
            row_models(rows@) == rows_of(models(tree@), 0),
    {
        let mut rows: Vec<(TreeNode, usize)> = Vec::new();
        flatten_into(tree, 0, &mut rows);
        proof {
            assert(row_models(Seq::empty()) =~= Seq::empty());
            assert(Seq::<(NodeModel, usize)>::empty() + rows_of(models(tree@), 0) =~= rows_of(
                models(tree@),
                0,
            ));
        }
        rows
    }
}

fn flatten_into(nodes: &Vec<TreeNode>, depth: usize, rows: &mut Vec<(TreeNode, usize)>)
    ensures
        row_models(final(rows)@) == row_models(old(rows)@) + rows_of(models(nodes@), depth),
    decreases nodes,
{
    let ghost all = models(nodes@);
    let ghost before = row_models(rows@);
    let mut i: usize = 0;
    proof {
        assert(all.take(0) =~= Seq::empty());
        assert(before + Seq::<(NodeModel, usize)>::empty() =~= before);
    }
    while i < nodes.len()
        invariant
            i <= nodes.len(),
            all == models(nodes@),
            row_models(rows@) == before + rows_of(all.take(i as int), depth),
        decreases nodes.len() - i,
    {
        let ghost had = row_models(rows@);
        let ghost n = nodes@[i as int].model();
        proof {
            lemma_children(nodes@[i as int]);
            assert(all.take(i + 1).drop_last() =~= all.take(i as int));
            assert(all.take(i + 1).last() == n);
        }
        rows.push((nodes[i].clone(), depth));
        proof {
            assert(row_models(rows@) =~= had + seq![(n, depth)]);
        }
        match &nodes[i] {
            TreeNode::Group { children, expanded, .. } => {
                if *expanded {
                    let below: usize = if depth < usize::MAX {
                        depth + 1
                    } else {
                        depth
                    };
                    flatten_into(children, below, rows);
                    proof {
                        assert(row_models(rows@) =~= had + (seq![(n, depth)] + rows_of(
                            models(children@),
                            below,
                        )));
                    }
                }
            },
            _ => {},
        }
        proof {
            assert(row_models(rows@) =~= had + node_rows(n, depth));
            assert(before + (rows_of(all.take(i as int), depth) + node_rows(n, depth))
                =~= had + node_rows(n, depth));
        }
        i = i + 1;
    }
    proof {
        assert(all.take(i as int) =~= all);
    }
}


// ---------------------------------------------------------------------------
// Toggling a row

impl NodeModel {
    /// A group turned from expanded to collapsed or back.
    pub open spec fn flipped(self) -> NodeModel {
        match self {
            NodeModel::Group { expanded, .. } => self.with_expanded(!expanded),
            _ => self,
        }
    }
}

/// Passes over `left` visible rows and flips the node that comes next, where it is a
/// group: the list afterwards, how many rows were still to be passed at its end (none
/// where the row was reached), and whether a group was flipped.
pub open spec fn toggled(nodes: Seq<NodeModel>, left: nat) -> (Seq<NodeModel>, Option<nat>, bool)
    decreases nodes, 1nat,
{
    if nodes.len() == 0 {
        (nodes, Some(left), false)
    } else if left == 0 {
        (seq![nodes[0].flipped()] + nodes.skip(1), None, nodes[0] is Group)
    } else {
        let (n, left1, hit) = toggled_below(nodes[0], (left - 1) as nat);
        match left1 {
            None => (seq![n] + nodes.skip(1), None, hit),
            Some(l) => {
                let (rest, left2, hit2) = toggled(nodes.skip(1), l);
                (seq![n] + rest, left2, hit2)
            },
        }
    }
}

/// The same among the rows below a node, which shows none unless it is expanded.
pub open spec fn toggled_below(n: NodeModel, left: nat) -> (NodeModel, Option<nat>, bool)
    decreases n, 0nat,
{
    match n {
        NodeModel::Group { children, expanded, .. } if expanded => {
            let (kids, left1, hit) = toggled(children, left);
            (n.with_children(kids), left1, hit)
        },
        _ => (n, Some(left), false),
    }
}

proof fn lemma_toggled_miss(nodes: Seq<NodeModel>, left: nat)
    ensures
        !toggled(nodes, left).2 ==> toggled(nodes, left).0 == nodes,
        toggled(nodes, left).0.len() == nodes.len(),
        toggled(nodes, left).1 matches Some(l) ==> l <= left && !toggled(nodes, left).2,
    decreases nodes, 1nat,
{
    if nodes.len() > 0 {
        assert(seq![nodes[0]] + nodes.skip(1) =~= nodes);
        if left > 0 {
            lemma_toggled_below_miss(nodes[0], (left - 1) as nat);
            let (n, left1, hit) = toggled_below(nodes[0], (left - 1) as nat);
            if left1 is Some {
                lemma_toggled_miss(nodes.skip(1), left1->0);
            }
        }
    }
}

proof fn lemma_toggled_below_miss(n: NodeModel, left: nat)
    ensures
        !toggled_below(n, left).2 ==> toggled_below(n, left).0 == n,
        toggled_below(n, left).1 matches Some(l) ==> l <= left && !toggled_below(n, left).2,
    decreases n, 0nat,
{
    if n is Group && n->expanded {
        lemma_toggled_miss(n->Group_children, left);
    }
}

/// The rest of `toggled` once the first `i` nodes are passed with `left1` rows to go.
proof fn lemma_toggled_step(nodes: Seq<NodeModel>, i: int, left: nat, left1: nat)
    requires
        0 <= i <= nodes.len(),
        passes(nodes, i, left, left1),
    ensures
        toggled(nodes, left).0 == nodes.take(i) + toggled(nodes.skip(i), left1).0,
        toggled(nodes, left).1 == toggled(nodes.skip(i), left1).1,
        toggled(nodes, left).2 == toggled(nodes.skip(i), left1).2,
    decreases i,
{
    if i == 0 {
        assert(nodes.skip(0) =~= nodes);
        assert(nodes.take(0) + toggled(nodes, left).0 =~= toggled(nodes, left).0);
    } else {
        let below = toggled_below(nodes[0], (left - 1) as nat);
        let t = nodes.skip(1);
        lemma_toggled_below_miss(nodes[0], (left - 1) as nat);
        lemma_toggled_step(t, i - 1, below.1->0, left1);
        assert(t.skip(i - 1) =~= nodes.skip(i));
        assert(seq![nodes[0]] + (t.take(i - 1) + toggled(nodes.skip(i), left1).0) =~= nodes.take(i)
            + toggled(nodes.skip(i), left1).0);
    }
}

/// Passing the first `i` nodes without a hit takes `left` rows down to `left1`.
spec fn passes(nodes: Seq<NodeModel>, i: int, left: nat, left1: nat) -> bool
    decreases i,
{
    if i <= 0 || nodes.len() == 0 {
        i == 0 && left == left1
    } else {
        &&& left > 0
        &&& toggled_below(nodes[0], (left - 1) as nat).1 is Some
        &&& passes(nodes.skip(1), i - 1, toggled_below(nodes[0], (left - 1) as nat).1->0, left1)
    }
}

proof fn lemma_passes_next(nodes: Seq<NodeModel>, i: int, left: nat, left1: nat)
    requires
        0 <= i < nodes.len(),
        passes(nodes, i, left, left1),
        left1 > 0,
        toggled_below(nodes[i], (left1 - 1) as nat).1 is Some,
    ensures
        passes(nodes, i + 1, left, toggled_below(nodes[i], (left1 - 1) as nat).1->0),
    decreases i,
{
    if i > 0 {
        let t = nodes.skip(1);
        assert(t[i - 1] == nodes[i]);
        lemma_passes_next(t, i - 1, toggled_below(nodes[0], (left - 1) as nat).1->0, left1);
    } else {
        let l = toggled_below(nodes[0], (left - 1) as nat).1->0;
        assert(passes(nodes.skip(1), 0, l, l));
    }
}

/// Flip the node in the visible row behind `left` others, where it is a group.
fn toggle_walk(nodes: &mut Vec<TreeNode>, left: usize) -> (r: (Option<usize>, bool))
    ensures
        models(final(nodes)@) == toggled(models(old(nodes)@), left as nat).0,
        (match r.0 {
            Some(l) => Some(l as nat),
            None => None,
        }) == toggled(models(old(nodes)@), left as nat).1,
        r.1 == toggled(models(old(nodes)@), left as nat).2,
    decreases *old(nodes),
{
    let ghost before = nodes@;
    let ghost all = models(before);
    let mut left1: usize = left;
    let mut i: usize = 0;
    while i < nodes.len()
        invariant
            i <= nodes.len(),
            before == old(nodes)@,
            all == models(before),
            models(nodes@) == all,
            nodes.len() == before.len(),
            forall|j: int| i <= j < nodes.len() ==> #[trigger] nodes@[j] == before[j],
            passes(all, i as int, left as nat, left1 as nat),
        decreases nodes.len() - i,
    {
        let ghost n = before[i as int];
        let ghost rest = all.skip(i as int);
        proof {
            lemma_children(n);
            assert(all[i as int] == n.model());
            assert(rest[0] == n.model());
            lemma_toggled_step(all, i as int, left as nat, left1 as nat);
        }
        if left1 == 0 {
            let hit = match &mut nodes[i] {
                TreeNode::Group { expanded, .. } => {
                    *expanded = !*expanded;
                    true
                },
                _ => false,
            };
            proof {
                lemma_children(nodes@[i as int]);
                if hit {
                    assert(nodes@[i as int].model() == n.model().flipped());
                    assert(models(nodes@) =~= all.take(i as int) + (seq![n.model().flipped()]
                        + rest.skip(1)));
                } else {
                    assert(models(nodes@) =~= all.take(i as int) + (seq![n.model()] + rest.skip(1)));
                }
            }
            return (None, hit);
        }
        let (left2, hit) = match &mut nodes[i] {
            TreeNode::Group { children, expanded, .. } => {
                if *expanded {
                    toggle_walk(children, left1 - 1)
                } else {
                    (Some(left1 - 1), false)
                }
            },
            _ => (Some(left1 - 1), false),
        };
        proof {
            lemma_children(nodes@[i as int]);
            lemma_toggled_below_miss(n.model(), (left1 - 1) as nat);
            assert(nodes@[i as int].model() == toggled_below(n.model(), (left1 - 1) as nat).0);
        }
        match left2 {
            None => {
                proof {
                    assert(models(nodes@) =~= all.take(i as int) + (seq![nodes@[i as int].model()]
                        + rest.skip(1)));
                }
                return (None, hit);
            },
            Some(l) => {
                proof {
                    lemma_passes_next(all, i as int, left as nat, left1 as nat);
                    assert(models(nodes@) =~= all);
                }
                left1 = l;
                i = i + 1;
            },
        }
    }
    proof {
        lemma_toggled_step(all, i as int, left as nat, left1 as nat);
        assert(all.take(i as int) + all.skip(i as int) =~= all);
    }
    (Some(left1), false)
}

impl TreeBuilder {
    /// Expand or collapse the group in the visible row `target_idx`. Returns whether
    /// that row is a group; where it is not, nothing changes.
    pub fn toggle_node_by_index(target_idx: usize, nodes: &mut Vec<TreeNode>) -> (hit: bool)
        ensures
            models(final(nodes)@) == toggled(models(old(nodes)@), target_idx as nat).0,
            hit == toggled(models(old(nodes)@), target_idx as nat).2,
            hit == is_group_row(rows_of(models(old(nodes)@), 0), target_idx as nat),
            !hit ==> models(final(nodes)@) == models(old(nodes)@),
    {
        proof {
            lemma_toggled_hit(models(nodes@), 0, target_idx as nat);
            lemma_toggled_miss(models(nodes@), target_idx as nat);
        }
        let (_, hit) = toggle_walk(nodes, target_idx);
        hit
    }
}

pub proof fn lemma_rows_first(nodes: Seq<NodeModel>, depth: usize)
    requires
        nodes.len() > 0,
    ensures
        rows_of(nodes, depth) == node_rows(nodes[0], depth) + rows_of(nodes.skip(1), depth),
    decreases nodes.len(),
{
    if nodes.len() == 1 {
        assert(nodes.drop_last() =~= Seq::empty());
        assert(nodes.skip(1) =~= Seq::empty());
        assert(rows_of(nodes, depth) =~= node_rows(nodes[0], depth) + rows_of(nodes.skip(1), depth));
    } else {
        lemma_rows_first(nodes.drop_last(), depth);
        assert(nodes.skip(1).drop_last() =~= nodes.drop_last().skip(1));
        assert(rows_of(nodes, depth) =~= node_rows(nodes[0], depth) + rows_of(nodes.skip(1), depth));
    }
}

proof fn lemma_passed(n: NodeModel, depth: usize, left: nat)
    requires
        left + 1 >= node_rows(n, depth).len(),
    ensures
        toggled_below(n, left) == (
            n,
            Some((left + 1 - node_rows(n, depth).len()) as nat),
            false,
        ),
    decreases n, 0nat,
{
    if n is Group && n->expanded {
        lemma_passed_all(n->Group_children, deeper(depth), left);
    }
}

proof fn lemma_passed_all(nodes: Seq<NodeModel>, depth: usize, left: nat)
    requires
        left >= rows_of(nodes, depth).len(),
    ensures
        toggled(nodes, left) == (
            nodes,
            Some((left - rows_of(nodes, depth).len()) as nat),
            false,
        ),
    decreases nodes, 1nat,
{
    if nodes.len() > 0 {
        lemma_rows_first(nodes, depth);
        lemma_passed(nodes[0], depth, (left - 1) as nat);
        lemma_passed_all(
            nodes.skip(1),
            depth,
            (left - node_rows(nodes[0], depth).len()) as nat,
        );
        assert(seq![nodes[0]] + nodes.skip(1) =~= nodes);
    }
}

/// Whether a row is there and is that of a group.
pub open spec fn is_group_row(rows: Seq<(NodeModel, usize)>, row: nat) -> bool {
    row < rows.len() && rows[row as int].0 is Group
}

proof fn lemma_toggled_hit(nodes: Seq<NodeModel>, depth: usize, left: nat)
    ensures
        toggled(nodes, left).1 is None <==> left < rows_of(nodes, depth).len(),
        toggled(nodes, left).2 == is_group_row(rows_of(nodes, depth), left),
    decreases nodes, 1nat,
{
    let rows = rows_of(nodes, depth);
    if nodes.len() > 0 {
        lemma_rows_first(nodes, depth);
        let own = node_rows(nodes[0], depth);
        assert(own.len() > 0 && own[0].0 == nodes[0]);
        if left >= own.len() {
            let rest = rows_of(nodes.skip(1), depth);
            let l = (left - own.len()) as nat;
            lemma_passed(nodes[0], depth, (left - 1) as nat);
            lemma_toggled_hit(nodes.skip(1), depth, l);
            assert(toggled(nodes, left).1 == toggled(nodes.skip(1), l).1);
            assert(toggled(nodes, left).2 == toggled(nodes.skip(1), l).2);
            if l < rest.len() {
                assert(rows[left as int] == rest[l as int]);
            }
        } else {
            assert(rows[left as int] == own[left as int]);
            if left > 0 {
                let kids = nodes[0]->Group_children;
                lemma_toggled_hit(kids, deeper(depth), (left - 1) as nat);
                assert(own[left as int] == rows_of(kids, deeper(depth))[left - 1]);
                let below = toggled_below(nodes[0], (left - 1) as nat);
                assert(below.1 == toggled(kids, (left - 1) as nat).1);
                assert(below.2 == toggled(kids, (left - 1) as nat).2);
                assert(below.1 is None);
                assert(toggled(nodes, left).1 == below.1);
                assert(toggled(nodes, left).2 == below.2);
            } else {
                assert(toggled(nodes, left).1 is None);
            }
        }
    } else {
        assert(rows.len() == 0);
        assert(toggled(nodes, left).1 == Some(left));
    }
}

/// Toggling a row that is not a group's, or is not there, changes nothing.
pub proof fn law_toggle_other_row(nodes: Seq<NodeModel>, depth: usize, row: nat)
    requires
        !is_group_row(rows_of(nodes, depth), row),
    ensures
        toggled(nodes, row).0 == nodes,
        !toggled(nodes, row).2,
{
    lemma_toggled_hit(nodes, depth, row);
    lemma_toggled_miss(nodes, row);
}

/// Toggling a visible row that is a group flips that group, in that row, and
/// toggling the same row again brings the tree back.
pub proof fn law_toggle_group_row(nodes: Seq<NodeModel>, depth: usize, row: nat)
    requires
        row < rows_of(nodes, depth).len(),
        rows_of(nodes, depth)[row as int].0 is Group,
    ensures
        toggled(nodes, row).2,
        row < rows_of(toggled(nodes, row).0, depth).len(),
        rows_of(toggled(nodes, row).0, depth)[row as int] == (
            rows_of(nodes, depth)[row as int].0.flipped(),
            rows_of(nodes, depth)[row as int].1,
        ),
        toggled(toggled(nodes, row).0, row).0 == nodes,
        toggled(toggled(nodes, row).0, row).2,
    decreases nodes, 1nat,
{
    lemma_rows_first(nodes, depth);
    let n = nodes[0];
    let t = nodes.skip(1);
    let after = toggled(nodes, row).0;
    let own = node_rows(n, depth);
    if row == 0 {
        assert(after[0] == n.flipped());
        assert(after.skip(1) =~= t);
        lemma_rows_first(after, depth);
        assert(n.flipped().flipped() == n);
        assert(toggled(after, 0).0 =~= nodes);
    } else if row < own.len() {
        let kids = n->Group_children;
        assert(own[row as int] == rows_of(kids, deeper(depth))[row - 1]);
        law_toggle_group_row(kids, deeper(depth), (row - 1) as nat);
        lemma_toggled_hit(kids, deeper(depth), (row - 1) as nat);
        lemma_toggled_hit(toggled(kids, (row - 1) as nat).0, deeper(depth), (row - 1) as nat);
        let n2 = toggled_below(n, (row - 1) as nat).0;
        assert(after[0] == n2);
        assert(after.skip(1) =~= t);
        lemma_rows_first(after, depth);
        let kids2 = toggled(kids, (row - 1) as nat).0;
        assert(n2->Group_children == kids2);
        assert(n2.with_children(kids) == n);
        assert(n2->expanded);
        assert(toggled_below(n2, (row - 1) as nat).0 == n);
        assert(toggled_below(n2, (row - 1) as nat).2);
        assert(toggled_below(after[0], (row - 1) as nat).2);
        assert(toggled(after, row).2);
        assert(toggled(after, row).0 =~= nodes);
    } else {
        lemma_passed(n, depth, (row - 1) as nat);
        let left1 = (row - own.len()) as nat;
        assert(toggled_below(n, (row - 1) as nat).1 == Some(left1));
        lemma_toggled_below_miss(n, (row - 1) as nat);
        law_toggle_group_row(t, depth, left1);
        assert(after[0] == n);
        assert(after.skip(1) =~= toggled(t, left1).0);
        lemma_rows_first(after, depth);
        assert(toggled(after, row).0 =~= nodes);
    }
}

/// Expanding (or collapsing) all groups leaves every group, however deep, expanded (or
/// collapsed).
pub proof fn law_all_set(nodes: Seq<NodeModel>, on: bool)
    ensures
        groups_are(all_set(nodes, on), on),
    decreases nodes,
{
    let after = all_set(nodes, on);
    assert forall|i: int| 0 <= i < after.len() implies node_groups_are(#[trigger] after[i], on) by {
        if nodes[i] is Group {
            law_all_set(nodes[i]->Group_children, on);
        }
    }
}

/// Opening the way to a leaf that is not there changes nothing.
pub proof fn lemma_opened_absent(nodes: Seq<NodeModel>, name: Seq<char>, with_metadata: bool)
    requires
        !holds_leaf(nodes, name, with_metadata),
    ensures
        opened(nodes, name, with_metadata) == nodes,
    decreases nodes.len(),
{
    if nodes.len() > 0 {
        let t = nodes.skip(1);
        assert(!holds_leaf(t, name, with_metadata)) by {
            if holds_leaf(t, name, with_metadata) {
                let i = choose|i: int|
                    0 <= i < t.len() && node_holds_leaf(#[trigger] t[i], name, with_metadata);
                assert(node_holds_leaf(nodes[i + 1], name, with_metadata));
            }
        }
        lemma_opened_absent(t, name, with_metadata);
        assert(seq![nodes[0]] + t =~= nodes);
    }
}

/// Whether a leaf is among the rows.
pub open spec fn shows_leaf(rows: Seq<(NodeModel, usize)>, name: Seq<char>, with_metadata: bool) -> bool {
    exists|i: int|
        0 <= i < rows.len() && (#[trigger] rows[i]).0.is_leaf(name, with_metadata)
}

/// Opening the way to a leaf that is in the tree, however deep, makes it visible.
pub proof fn law_opened_leaf_is_visible(
    nodes: Seq<NodeModel>,
    depth: usize,
    name: Seq<char>,
    with_metadata: bool,
)
    requires
        holds_leaf(nodes, name, with_metadata),
    ensures
        shows_leaf(rows_of(opened(nodes, name, with_metadata), depth), name, with_metadata),
    decreases nodes,
{
    let after = opened(nodes, name, with_metadata);
    let t = nodes.skip(1);
    if node_holds_leaf(nodes[0], name, with_metadata) {
        assert(after[0] == node_opened(nodes[0], name, with_metadata));
        assert(after.skip(1) =~= t);
        lemma_rows_first(after, depth);
        let rows = node_rows(after[0], depth);
        if nodes[0] is Group {
            let kids = nodes[0]->Group_children;
            law_opened_leaf_is_visible(kids, deeper(depth), name, with_metadata);
            let below = rows_of(opened(kids, name, with_metadata), deeper(depth));
            let i = choose|i: int|
                0 <= i < below.len() && (#[trigger] below[i]).0.is_leaf(name, with_metadata);
            assert(rows[i + 1] == below[i]);
            assert(rows_of(after, depth)[i + 1] == below[i]);
        } else {
            assert(rows[0].0.is_leaf(name, with_metadata));
            assert(rows_of(after, depth)[0] == rows[0]);
        }
    } else {
        assert(holds_leaf(t, name, with_metadata)) by {
            let i = choose|i: int|
                0 <= i < nodes.len() && node_holds_leaf(#[trigger] nodes[i], name, with_metadata);
            assert(t[i - 1] == nodes[i]);
        }
        law_opened_leaf_is_visible(t, depth, name, with_metadata);
        assert(after[0] == nodes[0]);
        assert(after.skip(1) =~= opened(t, name, with_metadata));
        lemma_rows_first(after, depth);
        let below = rows_of(after.skip(1), depth);
        let i = choose|i: int|
            0 <= i < below.len() && (#[trigger] below[i]).0.is_leaf(name, with_metadata);
        let k = node_rows(nodes[0], depth).len();
        assert(rows_of(after, depth)[i + k] == below[i]);
    }
}

/// Whether the totals over the tensors can be counted in a `usize`.
pub fn can_count(ts: &[TensorInfo]) -> (b: bool)
    ensures
        b == countable(ts.deep_view()),
{
    let ghost all = ts.deep_view();
    let mut params: u128 = 0;
    let mut bytes: u128 = 0;
    let mut stored: u128 = 0;
    let mut i: usize = 0;
    proof {
        assert(all.take(0) =~= Seq::empty());
    }
    while i < ts.len()
        invariant
            i <= ts.len(),
            all == ts.deep_view(),
            params == sum_of(all.take(i as int), elements()),
            bytes == sum_of(all.take(i as int), logical_bytes()),
            stored == sum_of(all.take(i as int), disk_bytes()),
            params <= i * 0xffff_ffff_ffff_ffff,
            bytes <= i * 0xffff_ffff_ffff_ffff,
            stored <= i * 0xffff_ffff_ffff_ffff,
        decreases ts.len() - i,
    {
        proof {
            assert(all.take(i + 1).drop_last() =~= all.take(i as int));
            assert(all.take(i + 1).last() == ts@[i as int].deep_view());
        }
        params = params + ts[i].num_elements as u128;
        bytes = bytes + ts[i].size_bytes as u128;
        stored = stored + ts[i].on_disk_size() as u128;
        i = i + 1;
    }
    proof {
        assert(all.take(i as int) =~= all);
    }
    params <= usize::MAX as u128 && bytes <= usize::MAX as u128 && stored <= usize::MAX as u128
}

// ---------------------------------------------------------------------------
// The natural order

/// The key of a name that is split between two runs is the key of the first part and then
/// that of the second.
proof fn lemma_key_joins(p: Seq<char>, x: Seq<char>)
    requires
        p.len() == 0 || x.len() == 0 || is_digit(p.last()) != is_digit(x[0]),
    ensures
        natural_key(p + x) == natural_key(p) + natural_key(x),
    decreases p.len(),
{
    if p.len() == 0 {
        assert(p + x =~= x);
        assert(natural_key(p) + natural_key(x) =~= natural_key(x));
    } else {
        let all = p + x;
        let d = is_digit(p[0]);
        assert(all[0] == p[0]);
        lemma_run_length(p, d);
        lemma_run_length(all, d);
        let n = run_length(p, d) as int;
        let m = run_length(all, d) as int;
        if m < n {
            assert(all[m] == p[m]);
        }
        if m > n {
            if n < p.len() {
                assert(all[n] == p[n]);
            } else {
                assert(p[n - 1] == p.last());
                assert(all[n] == x[0]);
            }
        }
        assert(m == n);
        let rest = p.skip(n);
        assert(all.take(n) =~= p.take(n));
        assert(all.skip(n) =~= rest + x);
        if rest.len() > 0 {
            assert(rest.last() == p.last());
        }
        lemma_key_joins(rest, x);
        assert(natural_key(all) =~= natural_key(p) + natural_key(x));
    }
}

/// A number's key is the number.
proof fn lemma_key_of_number(n: u32)
    ensures
        natural_key(decimal(n as nat)) == seq![KeyItem::Number(n)],
{
    let s = decimal(n as nat);
    lemma_decimal_value(n as nat);
    assert(is_digit(s[0]));
    lemma_run_length(s, true);
    let k = run_length(s, true) as int;
    if k < s.len() {
        assert(is_digit(s[k]));
    }
    assert(s.take(k) =~= s);
    assert(s.skip(k) =~= Seq::empty());
    assert(natural_key(s.skip(k)) =~= Seq::empty());
    assert(run_item(s) == KeyItem::Number(n));
    assert(natural_key(s) =~= seq![run_item(s.take(k))] + natural_key(s.skip(k)));
}

/// What two keys begin with does not decide their order.
proof fn lemma_common_start(u: Seq<KeyItem>, v: Seq<KeyItem>, w: Seq<KeyItem>)
    ensures
        key_order(u + v, u + w) == key_order(v, w),
    decreases u.len(),
{
    lemma_item_order_total();
    if u.len() == 0 {
        assert(u + v =~= v);
        assert(u + w =~= w);
    } else {
        let t = u.skip(1);
        lemma_common_start(t, v, w);
        assert((u + v).skip(1) =~= t + v);
        assert((u + w).skip(1) =~= t + w);
        assert((u + v)[0] == u[0] && (u + w)[0] == u[0]);
        assert(item_order()(u[0], u[0]) == 0);
    }
}

/// Of two names that differ in a number only, the one with the smaller number stands
/// first, so `layers.2` stands before `layers.10`.
pub proof fn law_smaller_number_first(p: Seq<char>, q: Seq<char>, a: u32, b: u32)
    requires
        p.len() == 0 || !is_digit(p.last()),
        q.len() == 0 || !is_digit(q[0]),
    ensures
        key_order(
            natural_key(p + decimal(a as nat) + q),
            natural_key(p + decimal(b as nat) + q),
        ) < 0 <==> a < b,
        natural_key(p + decimal(a as nat) + q) == natural_key(p + decimal(b as nat) + q) <==> a
            == b,
{
    let (s, t) = (decimal(a as nat), decimal(b as nat));
    lemma_decimal_value(a as nat);
    lemma_decimal_value(b as nat);
    assert(is_digit(s[0]) && is_digit(t[0]));
    assert(is_digit(s[s.len() - 1]) && is_digit(t[t.len() - 1]));
    assert(p + s + q =~= p + (s + q));
    assert(p + t + q =~= p + (t + q));
    lemma_key_joins(p, s + q);
    lemma_key_joins(p, t + q);
    lemma_key_joins(s, q);
    lemma_key_joins(t, q);
    lemma_key_of_number(a);
    lemma_key_of_number(b);
    let (v, w) = (natural_key(s + q), natural_key(t + q));
    lemma_common_start(natural_key(p), v, w);
    assert(v[0] == KeyItem::Number(a) && w[0] == KeyItem::Number(b));
    assert(v.skip(1) =~= natural_key(q) && w.skip(1) =~= natural_key(q));
    lemma_item_order_total();
    lemma_lex_total(natural_key(q), natural_key(q), natural_key(q), item_order());
    let (x, y) = (natural_key(p) + v, natural_key(p) + w);
    lemma_lex_total(x, y, y, item_order());
}

// ---------------------------------------------------------------------------
// What is listed when everything is expanded, or collapsed

/// All nodes of a list, each before those below it and with its depth, whether or not
/// they are visible.
pub open spec fn forest_of(nodes: Seq<NodeModel>, depth: usize) -> Seq<(NodeModel, usize)>
    decreases nodes, 1nat,
{
    if nodes.len() == 0 {
        Seq::empty()
    } else {
        forest_of(nodes.drop_last(), depth) + node_forest(nodes.last(), depth)
    }
}

/// A node and all nodes below it.
pub open spec fn node_forest(n: NodeModel, depth: usize) -> Seq<(NodeModel, usize)>
    decreases n, 0nat,
{
    match n {
        NodeModel::Group { children, .. } => seq![(n, depth)] + forest_of(children, deeper(depth)),
        _ => seq![(n, depth)],
    }
}

proof fn lemma_all_listed(nodes: Seq<NodeModel>, depth: usize)
    requires
        groups_are(nodes, true),
    ensures
        rows_of(nodes, depth) == forest_of(nodes, depth),
    decreases nodes, 1nat,
{
    if nodes.len() > 0 {
        let t = nodes.drop_last();
        assert forall|i: int| 0 <= i < t.len() implies node_groups_are(#[trigger] t[i], true) by {
            assert(t[i] == nodes[i]);
        }
        lemma_all_listed(t, depth);
        let n = nodes.last();
        assert(node_groups_are(nodes[nodes.len() - 1], true));
        if n is Group {
            lemma_all_listed(n->Group_children, deeper(depth));
        }
        assert(node_rows(n, depth) == node_forest(n, depth));
    }
    assert(rows_of(nodes, depth) =~= forest_of(nodes, depth));
}

proof fn lemma_same_forest(nodes: Seq<NodeModel>, depth: usize, on: bool)
    ensures
        forest_of(all_set(nodes, on), depth) == forest_of(nodes, depth).map_values(
            |r: (NodeModel, usize)| (node_set(r.0, on), r.1),
        ),
    decreases nodes, 1nat,
{
    let set = |r: (NodeModel, usize)| (node_set(r.0, on), r.1);
    let after = all_set(nodes, on);
    if nodes.len() == 0 {
        assert(forest_of(after, depth) =~= forest_of(nodes, depth).map_values(set));
    } else {
        let n = nodes.last();
        lemma_same_forest(nodes.drop_last(), depth, on);
        assert(after.drop_last() =~= all_set(nodes.drop_last(), on));
        assert(after.last() == node_set(n, on));
        assert(node_forest(node_set(n, on), depth) =~= node_forest(n, depth).map_values(set)) by {
            if n is Group {
                lemma_same_forest(n->Group_children, deeper(depth), on);
                let m = node_set(n, on);
                assert(m->Group_children == all_set(n->Group_children, on));
            }
        }
        assert(forest_of(after, depth) =~= forest_of(nodes, depth).map_values(set));
    }
}

/// With all groups expanded every node, however deep, is a row, in order and at its
/// depth; with all collapsed the rows are the top nodes alone.
pub proof fn law_all_set_rows(nodes: Seq<NodeModel>, depth: usize)
    ensures
        rows_of(all_set(nodes, true), depth) == forest_of(nodes, depth).map_values(
            |r: (NodeModel, usize)| (node_set(r.0, true), r.1),
        ),
        rows_of(all_set(nodes, false), depth) == nodes.map_values(
            |n: NodeModel| (node_set(n, false), depth),
        ),
{
    law_all_set(nodes, true);
    lemma_all_listed(all_set(nodes, true), depth);
    lemma_same_forest(nodes, depth, true);
    lemma_top_only(nodes, depth);
}

proof fn lemma_top_only(nodes: Seq<NodeModel>, depth: usize)
    ensures
        rows_of(all_set(nodes, false), depth) == nodes.map_values(
            |n: NodeModel| (node_set(n, false), depth),
        ),
    decreases nodes.len(),
{
    let top = |n: NodeModel| (node_set(n, false), depth);
    let after = all_set(nodes, false);
    if nodes.len() > 0 {
        lemma_top_only(nodes.drop_last(), depth);
        assert(after.drop_last() =~= all_set(nodes.drop_last(), false));
        let last = node_set(nodes.last(), false);
        assert(after.last() == last);
        assert(node_rows(last, depth) =~= seq![(last, depth)]);
        assert(rows_of(after, depth) =~= nodes.drop_last().map_values(top).push((last, depth)));
    }
    assert(rows_of(after, depth) =~= nodes.map_values(top));
}

} // verus!
