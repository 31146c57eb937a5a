//! The tree browser: what is loaded, what is shown, and what each key and click does.
use vstd::prelude::*;

use crate::diff::NoKey;
use crate::inputs::{is_white, white};
use crate::keys::{foreign_letter, wrong_layout_char, KeyCode, KeyEvent};
use crate::leaves::{added, counts_are_true, law_groups_add_up_their_tensors, law_tree_holds_every_tensor};
use crate::leaves::{leaves_of, lemma_added_is_sum, lemma_group_counts, lemma_leaves_with};
use crate::leaves::{node_count_is_true, node_leaves, tensors_below, tensors_in};
use crate::namemap::{has_row, lemma_with_row, NameMap};
use crate::order::{lemma_rank_order, lemma_stable_sort_map, rank_order, sort_ranked, stable_sort};
use crate::order::{lemma_stable_sort_contains, Ranked};
use crate::paths::{common_dir, components, components_of, file_name, final_name, name_in, name_of};
use crate::paths::{parent_of, parent_path, shared_dir};
use crate::prompts::optional;
use crate::schema::{distinct, distinct_strings};
use crate::screens::{Screen, ScreenModel};
use crate::text::{add_line, chars_of, decimal, decimal_string, from_chars, join, joined, same};
use crate::text::texts;
use crate::tree::{all_set, by_tensor_name, countable, disk_bytes, elements, logical_bytes, models};
use crate::tree::{metadata_group, opened, row_models, rows_of, sort_tensors, sum_of, tensor_tree};
use crate::tree::{by_name, lemma_by_name};
use crate::tree::{group_node, lemma_by_tensor_name, lemma_rows_first, lemma_sum_sort};
use crate::tree::{holds_leaf, law_opened_leaf_is_visible, law_toggle_group_row, lemma_opened_absent};
use crate::tree::{lemma_children, toggled, totals, MetadataInfo, MetadataModel, NodeModel};
use crate::tree::{TensorInfo, TensorModel, TreeBuilder, TreeNode};

verus! {

// ---------------------------------------------------------------------------
// Search

/// The matcher of `fuzzy_matcher`.
#[verifier::external_type_specification]
#[verifier::external_body]
pub struct ExSkimMatcherV2(fuzzy_matcher::skim::SkimMatcherV2);

/// What a matcher has been asked so far: each name with its query, in order. The cells that
/// the earlier names leave in its score matrix are all that it keeps from one call to the
/// next.
pub uninterp spec fn asked(matcher: fuzzy_matcher::skim::SkimMatcherV2) -> Seq<
    (Seq<char>, Seq<char>),
>;

/// The score of a name against a query, or `None` where it does not match, from a matcher
/// that was asked `before` already.
pub uninterp spec fn fuzzy_score(
    before: Seq<(Seq<char>, Seq<char>)>,
    name: Seq<char>,
    query: Seq<char>,
) -> Option<i64>;

/// Calls `default` of `fuzzy_matcher::skim::SkimMatcherV2`: a matcher that has been asked
/// nothing.
#[verifier::external_body]
fn new_matcher() -> (m: fuzzy_matcher::skim::SkimMatcherV2)
    ensures
        asked(m) == Seq::<(Seq<char>, Seq<char>)>::empty(),
{
    fuzzy_matcher::skim::SkimMatcherV2::default()
}

/// Calls `fuzzy_match` of `fuzzy_matcher::skim::SkimMatcherV2`. Its score depends on the
/// name, on the query, and on the names that the same matcher was asked before, whose cells
/// are not all cleared; it is named `fuzzy_score`. The cells are kept by thread: a matcher
/// stays on the one that made it.
#[verifier::external_body]
fn score_name(
    matcher: &mut fuzzy_matcher::skim::SkimMatcherV2,
    name: &str,
    query: &str,
) -> (r: Option<i64>)
    ensures
        r == fuzzy_score(asked(*old(matcher)), name@, query@),
        asked(*final(matcher)) == asked(*old(matcher)).push((name@, query@)),
{
    fuzzy_matcher::FuzzyMatcher::fuzzy_match(matcher, name, query)
}

/// Names that are asked with one query.
pub open spec fn questions(names: Seq<Seq<char>>, query: Seq<char>) -> Seq<(Seq<char>, Seq<char>)> {
    names.map_values(|name: Seq<char>| (name, query))
}

/// The scores of names against a query, one after the other from one matcher.
pub open spec fn fuzzy_scores(names: Seq<Seq<char>>, query: Seq<char>) -> Seq<Option<i64>> {
    Seq::new(
        names.len(),
        |i: int| fuzzy_score(questions(names.take(i), query), names[i], query),
    )
}

fn score_names(names: &Vec<String>, query: &str) -> (r: Vec<Option<i64>>)
    ensures
        r@ == fuzzy_scores(texts(names@), query@),
        r.len() == names.len(),
{
    let ghost all = texts(names@);
    let mut matcher = new_matcher();
    let mut r: Vec<Option<i64>> = Vec::new();
    let mut i: usize = 0;
    proof {
        assert(asked(matcher) =~= questions(all.take(0), query@));
    }
    while i < names.len()
        invariant
            i <= names.len(),
            r.len() == i,
            all == texts(names@),
            asked(matcher) == questions(all.take(i as int), query@),
            forall|k: int| 0 <= k < i ==> #[trigger] r@[k] == fuzzy_scores(all, query@)[k],
        decreases names.len() - i,
    {
        r.push(score_name(&mut matcher, names[i].as_str(), query));
        proof {
            assert(all[i as int] == names@[i as int]@);
            assert(asked(matcher) =~= questions(all.take(i + 1), query@));
        }
        i = i + 1;
    }
    proof {
        assert(r@ =~= fuzzy_scores(all, query@));
    }
    r
}

/// A row that was found, with its score.
pub struct Scored {
    pub node: TreeNode,
    pub score: i64,
}

/// The highest score first.
impl Ranked for Scored {
    open spec fn ranks_before(self, other: Scored) -> bool {
        self.score >= other.score
    }

    proof fn lemma_ranks() {
    }

    fn may_precede(&self, other: &Scored) -> (b: bool) {
        self.score >= other.score
    }
}

/// The model of a [`Scored`].
pub open spec fn scored_model() -> spec_fn(Scored) -> (NodeModel, i64) {
    |s: Scored| (s.node.model(), s.score)
}

/// The highest score first.
pub open spec fn by_score() -> spec_fn((NodeModel, i64), (NodeModel, i64)) -> bool {
    |a: (NodeModel, i64), b: (NodeModel, i64)| a.1 >= b.1
}

/// Everything that can be found: each tensor, then each metadata entry.
pub open spec fn candidates(ts: Seq<TensorModel>, ms: Seq<MetadataModel>) -> Seq<NodeModel> {
    ts.map_values(|t: TensorModel| NodeModel::Tensor { info: t, label: None }) + ms.map_values(
        |m: MetadataModel| NodeModel::Metadata { info: m },
    )
}

/// The names of nodes.
pub open spec fn node_names(nodes: Seq<NodeModel>) -> Seq<Seq<char>> {
    nodes.map_values(|n: NodeModel| n.name())
}

/// The nodes that have a score.
pub open spec fn with_scores(nodes: Seq<NodeModel>, scores: Seq<Option<i64>>) -> Seq<(NodeModel, i64)>
    decreases nodes.len(),
{
    if nodes.len() == 0 {
        Seq::empty()
    } else {
        let r = with_scores(nodes.drop_last(), scores.drop_last());
        match scores.last() {
            Some(s) => r.push((nodes.last(), s)),
            None => r,
        }
    }
}

/// The rows of a search whose candidates have these scores: the best first, all at the
/// top level.
pub open spec fn ranked_rows(nodes: Seq<NodeModel>, scores: Seq<Option<i64>>) -> Seq<
    (NodeModel, usize),
> {
    stable_sort(with_scores(nodes, scores), by_score()).map_values(
        |e: (NodeModel, i64)| (e.0, 0usize),
    )
}

/// The rows that a query leaves: all of them where it is empty.
pub open spec fn found_rows(
    ts: Seq<TensorModel>,
    ms: Seq<MetadataModel>,
    rows: Seq<(NodeModel, usize)>,
    query: Seq<char>,
) -> Seq<(NodeModel, usize)> {
    if query.len() == 0 {
        rows
    } else {
        ranked_rows(
            candidates(ts, ms),
            fuzzy_scores(node_names(candidates(ts, ms)), query),
        )
    }
}

/// The candidates of a search: each tensor, then each metadata entry.
pub fn search_candidates(tensors: &Vec<TensorInfo>, metadata: &Vec<MetadataInfo>) -> (r: Vec<TreeNode>)
    ensures
        models(r@) == candidates(tensors.deep_view(), metadata.deep_view()),
{
    let ghost all = candidates(tensors.deep_view(), metadata.deep_view());
    let mut r: Vec<TreeNode> = Vec::new();
    let mut i: usize = 0;
    while i < tensors.len()
        invariant
            i <= tensors.len(),
            all == candidates(tensors.deep_view(), metadata.deep_view()),
            models(r@) =~= all.take(i as int),
        decreases tensors.len() - i,
    {
        let ghost before = models(r@);
        let n = TreeNode::Tensor { info: tensors[i].clone(), label: None };
        r.push(n);
        proof {
            assert(n.model() == all[i as int]);
            assert(models(r@) =~= before.push(n.model()));
        }
        i = i + 1;
    }
    let mut k: usize = 0;
    while k < metadata.len()
        invariant
            k <= metadata.len(),
            all == candidates(tensors.deep_view(), metadata.deep_view()),
            models(r@) =~= all.take(tensors.len() + k),
        decreases metadata.len() - k,
    {
        let ghost before = models(r@);
        let n = TreeNode::Metadata { info: metadata[k].clone() };
        r.push(n);
        proof {
            assert(n.model() == all[tensors.len() + k]);
            assert(models(r@) =~= before.push(n.model()));
        }
        k = k + 1;
    }
    proof {
        assert(all.take(tensors.len() + k) =~= all);
    }
    r
}

/// The rows of a search, given the score of each candidate.
pub fn rank_candidates(nodes: Vec<TreeNode>, scores: &Vec<Option<i64>>) -> (r: Vec<(TreeNode, usize)>)
    requires
        nodes.len() == scores.len(),
    ensures
        row_models(r@) == ranked_rows(models(nodes@), scores@),
{
    let ghost all = models(nodes@);
    let ghost given = nodes@;
    let ghost ss = scores@;
    let mut found: Vec<Scored> = Vec::new();
    let mut i: usize = 0;
    proof {
        assert(found@.map_values(scored_model()) =~= with_scores(all.take(0), ss.take(0)));
    }
    for n in it: nodes
        invariant
            it.seq() == given,
            i == it.index(),
            given.len() == scores.len(),
            all == models(given),
            ss == scores@,
            found@.map_values(scored_model()) == with_scores(all.take(i as int), ss.take(i as int)),
    {
        proof {
            assert(all.take(i + 1).drop_last() =~= all.take(i as int));
            assert(ss.take(i + 1).drop_last() =~= ss.take(i as int));
            assert(all.take(i + 1).last() == n.model());
            assert(ss.take(i + 1).last() == scores@[i as int]);
        }
        if let Some(s) = scores[i] {
            let ghost before = found@.map_values(scored_model());
            let e = Scored { node: n, score: s };
            found.push(e);
            proof {
                assert(found@.map_values(scored_model()) =~= before.push((n.model(), s)));
            }
        }
        i = i + 1;
    }
    proof {
        assert(all.take(all.len() as int) =~= all);
        assert(ss.take(ss.len() as int) =~= ss);
        lemma_rank_order::<Scored>();
        lemma_stable_sort_map(found@, rank_order::<Scored>(), scored_model(), by_score());
    }
    let ordered = sort_ranked(found);
    let ghost om = ordered@.map_values(scored_model());
    let ghost kept = ordered@;
    let mut r: Vec<(TreeNode, usize)> = Vec::new();
    for e in it: ordered
        invariant
            it.seq() == kept,
            om == kept.map_values(scored_model()),
            r.len() == it.index(),
            forall|j: int|
                0 <= j < r.len() ==> (#[trigger] r@[j]).0.model() == om[j].0 && r@[j].1 == 0,
    {
        r.push((e.node, 0));
    }
    proof {
        assert(row_models(r@) =~= ranked_rows(all, ss));
    }
    r
}

fn names_of(nodes: &Vec<TreeNode>) -> (r: Vec<String>)
    ensures
        texts(r@) == node_names(models(nodes@)),
        r.len() == nodes.len(),
{
    let mut r: Vec<String> = Vec::new();
    let mut i: usize = 0;
    while i < nodes.len()
        invariant
            i <= nodes.len(),
            r.len() == i,
            forall|j: int| 0 <= j < i ==> (#[trigger] r@[j])@ == nodes@[j].model().name(),
        decreases nodes.len() - i,
    {
        r.push(nodes[i].name().to_owned());
        i = i + 1;
    }
    proof {
        assert(texts(r@) =~= node_names(models(nodes@)));
    }
    r
}

// ---------------------------------------------------------------------------
// State

/// The browser's state.
pub struct Explorer {
    pub files: Vec<String>,
    pub tensors: Vec<TensorInfo>,
    pub metadata: Vec<MetadataInfo>,
    /// Whether the whole checkpoint has been read.
    pub full_loaded: bool,
    pub tree: Vec<TreeNode>,
    pub selected_idx: usize,
    pub scroll_offset: usize,
    pub flattened_tree: Vec<(TreeNode, usize)>,
    pub total_parameters: usize,
    pub search_query: String,
    /// The caret in the query, in characters.
    pub search_cursor: usize,
    pub search_mode: bool,
    pub filtered_tree: Vec<(TreeNode, usize)>,
}

/// The mathematical content of an [`Explorer`].
pub struct Browsing {
    pub files: Seq<Seq<char>>,
    pub tensors: Seq<TensorModel>,
    pub metadata: Seq<MetadataModel>,
    pub full_loaded: bool,
    pub tree: Seq<NodeModel>,
    pub selected: usize,
    pub scroll: usize,
    pub rows: Seq<(NodeModel, usize)>,
    pub parameters: usize,
    pub query: Seq<char>,
    pub caret: usize,
    pub searching: bool,
    pub found: Seq<(NodeModel, usize)>,
}

impl DeepView for Explorer {
    type V = Browsing;

    open spec fn deep_view(&self) -> Browsing {
        Browsing {
            files: texts(self.files@),
            tensors: self.tensors.deep_view(),
            metadata: self.metadata.deep_view(),
            full_loaded: self.full_loaded,
            tree: models(self.tree@),
            selected: self.selected_idx,
            scroll: self.scroll_offset,
            rows: row_models(self.flattened_tree@),
            parameters: self.total_parameters,
            query: self.search_query@,
            caret: self.search_cursor,
            searching: self.search_mode,
            found: row_models(self.filtered_tree@),
        }
    }
}

impl Browsing {
    /// The rows on screen: what was found while searching, else the tree.
    pub open spec fn visible(self) -> Seq<(NodeModel, usize)> {
        if self.searching {
            self.found
        } else {
            self.rows
        }
    }

    /// The rows agree with the tree and the query, the caret stands in the query, and
    /// the selection is one of the visible rows where there are any.
    pub open spec fn wf(self) -> bool {
        &&& self.rows == rows_of(self.tree, 0)
        &&& self.found == found_rows(self.tensors, self.metadata, self.rows, self.query)
        &&& self.caret <= self.query.len()
        &&& self.visible().len() > 0 ==> self.selected < self.visible().len()
    }

    /// The state with the tree replaced and its rows worked out anew.
    pub open spec fn with_tree(self, tree: Seq<NodeModel>) -> Browsing {
        let rows = rows_of(tree, 0);
        Browsing {
            tree,
            rows,
            found: found_rows(self.tensors, self.metadata, rows, self.query),
            ..self
        }
    }

    /// The state with the query replaced and what it finds worked out anew.
    pub open spec fn with_query(self, query: Seq<char>, caret: usize) -> Browsing {
        Browsing {
            query,
            caret,
            found: found_rows(self.tensors, self.metadata, self.rows, query),
            ..self
        }
    }

    /// The state with the cursor at the top.
    pub open spec fn at_top(self) -> Browsing {
        Browsing { selected: 0, scroll: 0, ..self }
    }

    /// The state with another selection.
    pub open spec fn selecting(self, i: usize) -> Browsing {
        Browsing { selected: i, ..self }
    }
}

fn copy_rows(rows: &Vec<(TreeNode, usize)>) -> (r: Vec<(TreeNode, usize)>)
    ensures
        row_models(r@) == row_models(rows@),
{
    let mut r: Vec<(TreeNode, usize)> = Vec::new();
    let mut i: usize = 0;
    while i < rows.len()
        invariant
            i <= rows.len(),
            r.len() == i,
            forall|j: int|
                0 <= j < i ==> (#[trigger] r@[j]).0.model() == rows@[j].0.model() && r@[j].1
                    == rows@[j].1,
        decreases rows.len() - i,
    {
        r.push((rows[i].0.clone(), rows[i].1));
        i = i + 1;
    }
    proof {
        assert(row_models(r@) =~= row_models(rows@));
    }
    r
}

impl Explorer {
    /// A browser over the given files, with nothing loaded.
    pub fn new(files: Vec<String>) -> (e: Explorer)
        ensures
            e.deep_view() == (Browsing {
                files: texts(files@),
                tensors: Seq::empty(),
                metadata: Seq::empty(),
                full_loaded: false,
                tree: Seq::empty(),
                selected: 0,
                scroll: 0,
                rows: Seq::empty(),
                parameters: 0,
                query: Seq::empty(),
                caret: 0,
                searching: false,
                found: Seq::empty(),
            }),
            e.deep_view().wf(),
    {
        let e = Explorer {
            files,
            tensors: Vec::new(),
            metadata: Vec::new(),
            full_loaded: false,
            tree: Vec::new(),
            selected_idx: 0,
            scroll_offset: 0,
            flattened_tree: Vec::new(),
            total_parameters: 0,
            search_query: String::new(),
            search_cursor: 0,
            search_mode: false,
            filtered_tree: Vec::new(),
        };
        proof {
            let v = e.deep_view();
            assert(v.tensors =~= Seq::empty());
            assert(v.metadata =~= Seq::empty());
            assert(v.tree =~= Seq::empty());
            assert(v.rows =~= Seq::empty());
            assert(v.found =~= Seq::empty());
            assert(v.query =~= Seq::empty());
        }
        e
    }

    /// Work out anew what the query finds among all tensors and metadata.
    pub fn update_filtered_tree(&mut self)
        ensures
            final(self).deep_view() == old(self).deep_view().with_query(
                old(self).search_query@,
                old(self).search_cursor,
            ),
    {
        if self.search_query.as_str().unicode_len() == 0 {
            self.filtered_tree = copy_rows(&self.flattened_tree);
        } else {
            let nodes = search_candidates(&self.tensors, &self.metadata);
            let names = names_of(&nodes);
            let scores = score_names(&names, self.search_query.as_str());
            self.filtered_tree = rank_candidates(nodes, &scores);
        }
    }

    /// Work out the rows of the tree, and what the query finds.
    pub fn flatten_tree(&mut self)
        ensures
            final(self).deep_view() == old(self).deep_view().with_tree(models(old(self).tree@)),
    {
        self.flattened_tree = TreeBuilder::flatten_tree(&self.tree);
        self.update_filtered_tree();
    }

    /// Number of rows in the tree currently shown.
    pub fn current_tree_len(&self) -> (n: usize)
        ensures
            n == self.deep_view().visible().len(),
    {
        if self.search_mode {
            self.filtered_tree.len()
        } else {
            self.flattened_tree.len()
        }
    }

    fn shown(&self) -> (r: &Vec<(TreeNode, usize)>)
        ensures
            row_models(r@) == self.deep_view().visible(),
    {
        if self.search_mode {
            &self.filtered_tree
        } else {
            &self.flattened_tree
        }
    }

    /// Expand or collapse every group, then put the cursor at the top.
    pub fn set_all_expanded(&mut self, expanded: bool)
        ensures
            final(self).deep_view() == old(self).deep_view().with_tree(
                all_set(old(self).deep_view().tree, expanded),
            ).at_top(),
            old(self).deep_view().wf() ==> final(self).deep_view().wf(),
    {
        TreeBuilder::set_all_expanded(&mut self.tree, expanded);
        self.flatten_tree();
        self.selected_idx = 0;
        self.scroll_offset = 0;
    }
}

// ---------------------------------------------------------------------------
// Moving about

/// The nearest of the first `n` rows that is shallower than `depth`.
pub open spec fn last_shallower(rows: Seq<(NodeModel, usize)>, n: int, depth: usize) -> Option<usize>
    decreases n,
{
    if n <= 0 {
        None
    } else if rows[n - 1].1 < depth {
        Some((n - 1) as usize)
    } else {
        last_shallower(rows, n - 1, depth)
    }
}

/// The nearest of the first `n` rows at `depth`, unless a shallower one is nearer.
pub open spec fn sibling_before(rows: Seq<(NodeModel, usize)>, n: int, depth: usize) -> Option<usize>
    decreases n,
{
    if n <= 0 || rows[n - 1].1 < depth {
        None
    } else if rows[n - 1].1 == depth {
        Some((n - 1) as usize)
    } else {
        sibling_before(rows, n - 1, depth)
    }
}

/// The nearest row from `n` on at `depth`, unless a shallower one is nearer.
pub open spec fn sibling_after(rows: Seq<(NodeModel, usize)>, n: int, depth: usize) -> Option<usize>
    decreases rows.len() - n,
{
    if n >= rows.len() || rows[n].1 < depth {
        None
    } else if rows[n].1 == depth {
        Some(n as usize)
    } else {
        sibling_after(rows, n + 1, depth)
    }
}

impl Browsing {
    /// The selection moved by `delta` rows, within the visible ones.
    pub open spec fn moved(self, delta: int) -> Browsing {
        let n = self.visible().len();
        if n == 0 {
            self
        } else if delta < 0 {
            self.selecting(
                if self.selected >= -delta {
                    (self.selected + delta) as usize
                } else {
                    0
                },
            )
        } else {
            self.selecting(
                if self.selected + delta < n {
                    (self.selected + delta) as usize
                } else {
                    (n - 1) as usize
                },
            )
        }
    }

    /// The row of the parent of the selected one.
    pub open spec fn parent_row(self) -> Option<usize> {
        if self.selected < self.visible().len() {
            last_shallower(
                self.visible(),
                self.selected as int,
                self.visible()[self.selected as int].1,
            )
        } else {
            None
        }
    }

    /// The row of the next or previous sibling of the selected one.
    pub open spec fn sibling_row(self, forward: bool) -> Option<usize> {
        if self.selected < self.visible().len() {
            let depth = self.visible()[self.selected as int].1;
            if forward {
                sibling_after(self.visible(), self.selected + 1, depth)
            } else {
                sibling_before(self.visible(), self.selected as int, depth)
            }
        } else {
            None
        }
    }

    /// The selection on a row, where there is one.
    pub open spec fn to_row(self, row: Option<usize>) -> Browsing {
        match row {
            Some(i) => self.selecting(i),
            None => self,
        }
    }

    /// The group in the selected row, expanded or collapsed.
    pub open spec fn with_toggled(self) -> Browsing {
        self.with_tree(toggled(self.tree, self.selected as nat).0)
    }

    /// The first child of the selected group entered, expanding the group first.
    pub open spec fn entered(self) -> Browsing {
        if self.searching || self.selected >= self.rows.len() {
            self
        } else {
            let (node, depth) = self.rows[self.selected as int];
            match node {
                NodeModel::Group { children, expanded, .. } => if children.len() == 0 {
                    self
                } else {
                    let open = if expanded {
                        self
                    } else {
                        self.with_toggled()
                    };
                    if open.selected + 1 < open.rows.len() && open.rows[open.selected + 1].1
                        == depth + 1 {
                        open.selecting((open.selected + 1) as usize)
                    } else {
                        open
                    }
                },
                _ => self,
            }
        }
    }

    /// The first visible row with a name, if there is one.
    pub open spec fn row_named(self, name: Seq<char>) -> Option<usize> {
        first_named(self.visible(), name, 0)
    }

    /// The leaf with a name made visible and selected.
    pub open spec fn revealed(self, name: Seq<char>) -> Browsing {
        let open = if self.searching {
            self
        } else {
            self.with_tree(opened(self.tree, name, true))
        };
        open.to_row(open.row_named(name))
    }

    /// Search mode with a query, the caret behind it.
    pub open spec fn searched(self, query: Seq<char>) -> Browsing {
        Browsing { searching: true, ..self }.with_query(query, query.len() as usize).at_top()
    }

    /// Search mode left.
    pub open spec fn search_left(self) -> Browsing {
        Browsing { searching: false, ..self }.with_query(Seq::empty(), 0).at_top()
    }

    /// A character typed into the query at the caret.
    pub open spec fn typed(self, c: char) -> Browsing {
        self.with_query(
            self.query.insert(self.caret as int, c),
            (self.caret + 1) as usize,
        ).at_top()
    }

    /// The character before the caret taken out of the query.
    pub open spec fn erased(self) -> Browsing {
        if self.caret == 0 {
            self
        } else {
            self.with_query(self.query.remove(self.caret - 1), (self.caret - 1) as usize).at_top()
        }
    }

    /// From a tensor that was found to its place in the tree.
    pub open spec fn found_revealed(self) -> Browsing {
        if self.selected < self.found.len() {
            match self.found[self.selected as int].0 {
                NodeModel::Tensor { info, .. } => self.search_left().revealed(info.name),
                _ => self,
            }
        } else {
            self
        }
    }
}

/// The first row from `i` on with a name.
pub open spec fn first_named(rows: Seq<(NodeModel, usize)>, name: Seq<char>, i: int) -> Option<usize>
    decreases rows.len() - i,
{
    if i >= rows.len() {
        None
    } else if rows[i].0.name() == name {
        Some(i as usize)
    } else {
        first_named(rows, name, i + 1)
    }
}

proof fn lemma_first_named(rows: Seq<(NodeModel, usize)>, name: Seq<char>, i: int)
    requires
        0 <= i,
        rows.len() <= usize::MAX,
    ensures
        first_named(rows, name, i) is Some ==> i <= first_named(rows, name, i)->0 < rows.len()
            && rows[first_named(rows, name, i)->0 as int].0.name() == name,
        first_named(rows, name, i) is None ==> forall|k: int|
            i <= k < rows.len() ==> (#[trigger] rows[k]).0.name() != name,
    decreases rows.len() - i,
{
    if i < rows.len() && rows[i].0.name() != name {
        lemma_first_named(rows, name, i + 1);
    }
}

fn find_named(rows: &Vec<(TreeNode, usize)>, name: &str) -> (r: Option<usize>)
    ensures
        r == first_named(row_models(rows@), name@, 0),
        r is Some ==> r->0 < rows.len(),
{
    let ghost all = row_models(rows@);
    let mut i: usize = 0;
    while i < rows.len()
        invariant
            i <= rows.len(),
            all == row_models(rows@),
            first_named(all, name@, i as int) == first_named(all, name@, 0),
        decreases rows.len() - i,
    {
        proof {
            assert(all[i as int].0 == rows@[i as int].0.model());
        }
        if same(rows[i].0.name(), name) {
            return Some(i);
        }
        i = i + 1;
    }
    None
}

impl Explorer {
    /// Move the selection by some rows, within those that are shown.
    pub fn move_selection(&mut self, delta: i32)
        ensures
            final(self).deep_view() == old(self).deep_view().moved(delta as int),
            old(self).deep_view().wf() ==> final(self).deep_view().wf(),
    {
        let n = self.current_tree_len();
        if n == 0 {
            return;
        }
        let s: i128 = self.selected_idx as i128 + delta as i128;
        self.selected_idx = if s < 0 {
            0
        } else if delta < 0 || s < n as i128 {
            s as usize
        } else {
            n - 1
        };
    }

    /// Move the cursor to the parent of the selected row: the nearest preceding row at a
    /// shallower depth.
    pub fn move_to_parent(&mut self)
        ensures
            final(self).deep_view() == old(self).deep_view().to_row(
                old(self).deep_view().parent_row(),
            ),
            old(self).deep_view().wf() ==> final(self).deep_view().wf(),
    {
        let rows = self.shown();
        let ghost all = row_models(rows@);
        if self.selected_idx >= rows.len() {
            return;
        }
        let depth = rows[self.selected_idx].1;
        let mut n: usize = self.selected_idx;
        proof {
            assert(all[n as int].1 == depth);
        }
        while n > 0 && rows[n - 1].1 >= depth
            invariant
                n <= self.selected_idx < rows.len(),
                all == row_models(rows@),
                last_shallower(all, n as int, depth) == last_shallower(
                    all,
                    self.selected_idx as int,
                    depth,
                ),
            decreases n,
        {
            proof {
                assert(all[n - 1].1 == rows@[n - 1].1);
            }
            n = n - 1;
        }
        if n > 0 {
            proof {
                assert(all[n - 1].1 == rows@[n - 1].1);
            }
            self.selected_idx = n - 1;
        }
    }

    /// Move the cursor to the next or previous sibling: the nearest row at the same
    /// depth, without leaving the parent.
    pub fn move_to_sibling(&mut self, forward: bool)
        ensures
            final(self).deep_view() == old(self).deep_view().to_row(
                old(self).deep_view().sibling_row(forward),
            ),
            old(self).deep_view().wf() ==> final(self).deep_view().wf(),
    {
        let rows = self.shown();
        let ghost all = row_models(rows@);
        let at = self.selected_idx;
        if at >= rows.len() {
            return;
        }
        let depth = rows[at].1;
        proof {
            assert(all[at as int].1 == depth);
        }
        if forward {
            let mut n: usize = at + 1;
            while n < rows.len() && rows[n].1 > depth
                invariant
                    at < n <= rows.len(),
                    all == row_models(rows@),
                    sibling_after(all, n as int, depth) == sibling_after(all, at + 1, depth),
                decreases rows.len() - n,
            {
                proof {
                    assert(all[n as int].1 == rows@[n as int].1);
                }
                n = n + 1;
            }
            if n < rows.len() {
                proof {
                    assert(all[n as int].1 == rows@[n as int].1);
                }
                if rows[n].1 == depth {
                    self.selected_idx = n;
                }
            }
        } else {
            let mut n: usize = at;
            while n > 0 && rows[n - 1].1 > depth
                invariant
                    n <= at < rows.len(),
                    all == row_models(rows@),
                    sibling_before(all, n as int, depth) == sibling_before(all, at as int, depth),
                decreases n,
            {
                proof {
                    assert(all[n - 1].1 == rows@[n - 1].1);
                }
                n = n - 1;
            }
            if n > 0 {
                proof {
                    assert(all[n - 1].1 == rows@[n - 1].1);
                }
                if rows[n - 1].1 == depth {
                    self.selected_idx = n - 1;
                }
            }
        }
    }

    /// Enter the selected group: expand it if collapsed, then move the cursor to its
    /// first child.
    pub fn move_to_first_child(&mut self)
        ensures
            final(self).deep_view() == old(self).deep_view().entered(),
    {
        if self.search_mode || self.selected_idx >= self.flattened_tree.len() {
            return;
        }
        let ghost before = self.deep_view();
        let depth = self.flattened_tree[self.selected_idx].1;
        proof {
            assert(before.rows[before.selected as int].0
                == self.flattened_tree@[self.selected_idx as int].0.model());
            assert(before.rows[before.selected as int].1 == depth);
            lemma_children(self.flattened_tree@[self.selected_idx as int].0);
        }
        let (open, filled) = match &self.flattened_tree[self.selected_idx].0 {
            TreeNode::Group { expanded, children, .. } => (*expanded, children.len() > 0),
            _ => {
                return;
            },
        };
        if !filled {
            return;
        }
        if !open {
            let _ = TreeBuilder::toggle_node_by_index(self.selected_idx, &mut self.tree);
            self.flatten_tree();
        }
        let next: usize = if self.selected_idx < usize::MAX {
            self.selected_idx + 1
        } else {
            return;
        };
        if next < self.flattened_tree.len() {
            proof {
                assert(self.deep_view().rows[next as int].1 == self.flattened_tree@[next as int].1);
            }
            let d = self.flattened_tree[next].1;
            if d > depth && d - 1 == depth {
                self.selected_idx = next;
            }
        }
    }

    /// Move the cursor onto the leaf named `name`, a tensor or a metadata entry,
    /// expanding collapsed groups so that it is visible.
    pub fn reveal_tensor(&mut self, name: &str)
        ensures
            final(self).deep_view() == old(self).deep_view().revealed(name@),
    {
        if !self.search_mode {
            let _ = TreeBuilder::expand_to_leaf(&mut self.tree, name);
            self.flatten_tree();
        }
        let at = find_named(self.shown(), name);
        if let Some(i) = at {
            self.selected_idx = i;
        }
    }

    /// Open the search with an empty query.
    pub fn enter_search_mode(&mut self)
        ensures
            final(self).deep_view() == old(self).deep_view().searched(Seq::empty()),
            old(self).deep_view().wf() ==> final(self).deep_view().wf(),
    {
        self.search_mode = true;
        self.search_query = String::new();
        self.search_cursor = 0;
        proof {
            assert(self.search_query@ =~= Seq::empty());
        }
        self.update_filtered_tree();
        self.selected_idx = 0;
        self.scroll_offset = 0;
    }

    /// Open the search with a query, as if it had just been typed.
    pub fn open_search(&mut self, query: &str)
        ensures
            final(self).deep_view() == old(self).deep_view().searched(query@),
            old(self).deep_view().wf() ==> final(self).deep_view().wf(),
    {
        self.search_mode = true;
        self.search_query = query.to_owned();
        self.search_cursor = query.unicode_len();
        self.update_filtered_tree();
        self.selected_idx = 0;
        self.scroll_offset = 0;
    }

    /// Leave the search and forget the query.
    pub fn exit_search_mode(&mut self)
        ensures
            final(self).deep_view() == old(self).deep_view().search_left(),
            old(self).deep_view().wf() ==> final(self).deep_view().wf(),
    {
        self.search_mode = false;
        self.search_query = String::new();
        self.search_cursor = 0;
        proof {
            assert(self.search_query@ =~= Seq::empty());
        }
        self.update_filtered_tree();
        self.selected_idx = 0;
        self.scroll_offset = 0;
    }

    /// Insert a character into the query at the caret and move past it.
    pub fn search_insert(&mut self, c: char)
        requires
            old(self).search_cursor <= old(self).search_query@.len() < usize::MAX,
        ensures
            final(self).deep_view() == old(self).deep_view().typed(c),
            old(self).deep_view().wf() ==> final(self).deep_view().wf(),
    {
        let mut v = chars_of(self.search_query.as_str());
        v.insert(self.search_cursor, c);
        self.search_query = from_chars(&v);
        self.search_cursor = self.search_cursor + 1;
        self.update_filtered_tree();
        self.selected_idx = 0;
        self.scroll_offset = 0;
    }

    /// Delete the character before the caret and step the caret back.
    pub fn search_backspace(&mut self)
        requires
            old(self).search_cursor <= old(self).search_query@.len(),
        ensures
            final(self).deep_view() == old(self).deep_view().erased(),
            old(self).deep_view().wf() ==> final(self).deep_view().wf(),
    {
        if self.search_cursor == 0 {
            return;
        }
        let mut v = chars_of(self.search_query.as_str());
        let _ = v.remove(self.search_cursor - 1);
        self.search_query = from_chars(&v);
        self.search_cursor = self.search_cursor - 1;
        self.update_filtered_tree();
        self.selected_idx = 0;
        self.scroll_offset = 0;
    }

    /// Jump from the highlighted result to that tensor's place in the tree, leaving the
    /// search. Nothing happens where the result is no tensor.
    pub fn reveal_search_result(&mut self)
        ensures
            final(self).deep_view() == old(self).deep_view().found_revealed(),
    {
        if self.selected_idx >= self.filtered_tree.len() {
            return;
        }
        let ghost before = self.deep_view();
        proof {
            assert(before.found[before.selected as int].0
                == self.filtered_tree@[self.selected_idx as int].0.model());
        }
        let name = match &self.filtered_tree[self.selected_idx].0 {
            TreeNode::Tensor { info, .. } => info.name.clone(),
            _ => {
                return;
            },
        };
        self.exit_search_mode();
        self.reveal_tensor(name.as_str());
    }
}

/// Revealing a leaf keeps the state valid; where the leaf is in the tree (or, while
/// searching, among what was found), the selected row then has its name.
pub proof fn law_revealed_is_selected(b: Browsing, name: Seq<char>)
    requires
        b.wf(),
        b.revealed(name).visible().len() <= usize::MAX,
    ensures
        b.revealed(name).wf(),
        !b.searching && holds_leaf(b.tree, name, true) ==> b.revealed(name).visible()[b.revealed(
            name,
        ).selected as int].0.name() == name,
        b.searching && (exists|i: int|
            0 <= i < b.found.len() && (#[trigger] b.found[i]).0.name() == name)
            ==> b.found[b.revealed(name).selected as int].0.name() == name,
{
    let open = if b.searching {
        b
    } else {
        b.with_tree(opened(b.tree, name, true))
    };
    lemma_first_named(open.visible(), name, 0);
    if !b.searching {
        if holds_leaf(b.tree, name, true) {
            law_opened_leaf_is_visible(b.tree, 0, name, true);
            let i = choose|i: int|
                0 <= i < open.rows.len() && (#[trigger] open.rows[i]).0.is_leaf(name, true);
            assert(open.rows[i].0.name() == name);
        } else {
            lemma_opened_absent(b.tree, name, true);
        }
    }
}

/// Toggling the selected row where it is a group, and entering the selected group, keep
/// the state valid.
pub proof fn law_toggling_and_entering_stay_valid(b: Browsing)
    requires
        b.wf(),
        !b.searching,
        b.selected < b.rows.len(),
        b.rows[b.selected as int].0 is Group,
    ensures
        b.with_toggled().wf(),
        b.with_toggled().selected == b.selected,
        b.with_toggled().with_toggled() == b,
        b.entered().wf(),
{
    law_toggle_group_row(b.tree, 0, b.selected as nat);
    let t = b.with_toggled();
    assert(t.with_toggled().tree == b.tree);
    assert(t.with_toggled() == b);
}

/// Going from a result to its place in the tree keeps the state valid.
pub proof fn law_found_revealed_stays_valid(b: Browsing)
    requires
        b.wf(),
        b.found_revealed().visible().len() <= usize::MAX,
    ensures
        b.found_revealed().wf(),
{
    if b.selected < b.found.len() && b.found[b.selected as int].0 is Tensor {
        let name = b.found[b.selected as int].0.name();
        let left = b.search_left();
        assert(left.wf());
        law_revealed_is_selected(left, name);
    }
}

/// Typing a character and taking it back restores the query and the caret.
pub proof fn law_typing_is_undone(b: Browsing, c: char)
    requires
        b.caret <= b.query.len() < usize::MAX,
    ensures
        b.typed(c).erased().query == b.query,
        b.typed(c).erased().caret == b.caret,
{
    assert(b.query.insert(b.caret as int, c).remove(b.caret as int) =~= b.query);
}

/// Leaving the search brings the whole tree back, with the cursor at the top.
pub proof fn law_search_leaves_tree_alone(b: Browsing, query: Seq<char>)
    requires
        b.wf(),
    ensures
        b.searched(query).search_left().rows == b.rows,
        b.searched(query).search_left().tree == b.tree,
        b.searched(query).search_left().visible() == b.rows,
        b.searched(query).search_left().selected == 0,
{
}

// ---------------------------------------------------------------------------
// Loading

/// The first tensor of each name.
pub open spec fn first_of_each(ts: Seq<TensorModel>) -> Seq<TensorModel>
    decreases ts.len(),
{
    if ts.len() == 0 {
        Seq::empty()
    } else {
        let r = first_of_each(ts.drop_last());
        if named_among(ts.drop_last(), ts.last().name) {
            r
        } else {
            r.push(ts.last())
        }
    }
}

/// Whether a tensor of the list has a name.
pub open spec fn named_among(ts: Seq<TensorModel>, name: Seq<char>) -> bool {
    exists|i: int| 0 <= i < ts.len() && (#[trigger] ts[i]).name == name
}

/// The tensors of a checkpoint: the first of each name, in the natural order of the
/// names.
pub open spec fn loaded_tensors(ts: Seq<TensorModel>) -> Seq<TensorModel> {
    stable_sort(first_of_each(ts), by_tensor_name())
}

fn drop_repeats(tensors: Vec<TensorInfo>) -> (r: Vec<TensorInfo>)
    ensures
        r.deep_view() == first_of_each(tensors.deep_view()),
{
    let ghost all = tensors.deep_view();
    let ghost given = tensors@;
    let n = tensors.len();
    let mut seen: NameMap<NoKey> = NameMap::new();
    let mut r: Vec<TensorInfo> = Vec::new();
    let mut i: usize = 0;
    proof {
        assert(r.deep_view() =~= first_of_each(all.take(0)));
    }
    for t in it: tensors
        invariant
            it.seq() == given,
            i == it.index(),
            all == Seq::new(given.len(), |k: int| given[k].deep_view()),
            i <= given.len(),
            given.len() == n,
            seen.wf(),
            forall|n: Seq<char>|
                #[trigger] has_row(seen.rows(), n) <==> named_among(all.take(i as int), n),
            r.deep_view() == first_of_each(all.take(i as int)),
    {
        let ghost prefix = all.take(i as int);
        let ghost longer = all.take(i + 1);
        let ghost before = seen.rows();
        proof {
            assert(longer.drop_last() =~= prefix);
            assert(longer.last() == t.deep_view());
        }
        if !seen.contains_key(t.name.as_str()) {
            let name = t.name.clone();
            let ghost so_far = r.deep_view();
            let ghost tm = t.deep_view();
            r.push(t);
            seen.insert(name, NoKey);
            proof {
                assert(r.deep_view() =~= so_far.push(tm));
                assert forall|n: Seq<char>| #[trigger] has_row(seen.rows(), n) <==> named_among(
                    longer,
                    n,
                ) by {
                    lemma_with_row(before, name@, (), n);
                    lemma_named_longer(prefix, longer, n);
                }
            }
        } else {
            proof {
                assert forall|n: Seq<char>| #[trigger] has_row(seen.rows(), n) <==> named_among(
                    longer,
                    n,
                ) by {
                    lemma_named_longer(prefix, longer, n);
                }
            }
        }
        i = i + 1;
    }
    proof {
        assert(all.take(i as int) =~= all);
    }
    r
}

proof fn lemma_named_longer(prefix: Seq<TensorModel>, longer: Seq<TensorModel>, n: Seq<char>)
    requires
        longer.len() == prefix.len() + 1,
        longer.drop_last() == prefix,
    ensures
        named_among(longer, n) <==> named_among(prefix, n) || longer.last().name == n,
{
    if named_among(prefix, n) {
        let i = choose|i: int| 0 <= i < prefix.len() && (#[trigger] prefix[i]).name == n;
        assert(longer[i] == prefix[i]);
    }
    if named_among(longer, n) {
        let i = choose|i: int| 0 <= i < longer.len() && (#[trigger] longer[i]).name == n;
        if i < prefix.len() {
            assert(prefix[i] == longer[i]);
        }
    }
    if longer.last().name == n {
        assert(longer[prefix.len() as int].name == n);
    }
}

/// No two tensors of a loaded checkpoint have the same name.
pub proof fn law_loaded_names_are_distinct(ts: Seq<TensorModel>)
    ensures
        forall|i: int, j: int|
            0 <= i < j < first_of_each(ts).len() ==> (#[trigger] first_of_each(ts)[i]).name != (
            #[trigger] first_of_each(ts)[j]).name,
        forall|n: Seq<char>|
            #[trigger] named_among(first_of_each(ts), n) <==> named_among(ts, n),
    decreases ts.len(),
{
    let r = first_of_each(ts);
    if ts.len() > 0 {
        let t = ts.drop_last();
        let p = first_of_each(t);
        law_loaded_names_are_distinct(t);
        assert forall|n: Seq<char>| #[trigger] named_among(r, n) <==> named_among(ts, n) by {
            lemma_named_longer(t, ts, n);
            assert(named_among(p, n) <==> named_among(t, n));
            if !named_among(t, ts.last().name) {
                assert(r.drop_last() =~= p);
                lemma_named_longer(p, r, n);
            }
        }
        assert forall|i: int, j: int| 0 <= i < j < r.len() implies (#[trigger] r[i]).name != (
        #[trigger] r[j]).name by {
            if j < p.len() {
                assert(r[i] == p[i] && r[j] == p[j]);
            } else if r[i].name == r[j].name {
                assert(r[i] == p[i]);
                assert(named_among(p, r[j].name));
            }
        }
    } else {
        assert forall|n: Seq<char>| #[trigger] named_among(r, n) <==> named_among(ts, n) by {}
    }
}

/// The name of the file that a path leads to, or `checkpoint`.
pub open spec fn name_or_checkpoint(path: Seq<char>) -> Seq<char> {
    match name_of(path) {
        Some(s) => s,
        None => "checkpoint"@,
    }
}

/// Whether two paths are in the same directory.
pub open spec fn same_parent(a: Seq<char>, b: Seq<char>) -> bool {
    match (parent_of(a), parent_of(b)) {
        (Some(x), Some(y)) => components_of(x) == components_of(y),
        (None, None) => true,
        _ => false,
    }
}

/// The name of a checkpoint: that of its single file, else that of the directory that
/// its files share.
pub open spec fn label_of(files: Seq<Seq<char>>) -> Seq<char> {
    if files.len() == 0 {
        "checkpoint"@
    } else if files.len() == 1 {
        name_or_checkpoint(files[0])
    } else if parent_of(files[0]) is Some && (forall|i: int|
        0 <= i < files.len() ==> same_parent(#[trigger] files[i], files[0])) {
        name_or_checkpoint(parent_of(files[0])->0)
    } else {
        "checkpoint"@
    }
}

fn base_or_checkpoint(path: &str) -> (r: String)
    ensures
        r@ == name_or_checkpoint(path@),
{
    match name_in(path) {
        Some(s) => s,
        None => "checkpoint".to_owned(),
    }
}

fn in_same_dir(a: &str, b: &str) -> (r: bool)
    ensures
        r == same_parent(a@, b@),
{
    match (parent_path(a), parent_path(b)) {
        (Some(x), Some(y)) => {
            let p = components(x.as_str());
            let q = components(y.as_str());
            same_texts(&p, &q)
        },
        (None, None) => true,
        _ => false,
    }
}

fn same_texts(a: &Vec<String>, b: &Vec<String>) -> (r: bool)
    ensures
        r == (texts(a@) == texts(b@)),
{
    if a.len() != b.len() {
        proof {
            assert(texts(a@).len() != texts(b@).len());
        }
        return false;
    }
    let mut i: usize = 0;
    while i < a.len()
        invariant
            i <= a.len(),
            a.len() == b.len(),
            forall|j: int| 0 <= j < i ==> (#[trigger] a@[j])@ == b@[j]@,
        decreases a.len() - i,
    {
        if a[i] != b[i] {
            proof {
                assert(texts(a@)[i as int] != texts(b@)[i as int]);
            }
            return false;
        }
        i = i + 1;
    }
    proof {
        assert(texts(a@) =~= texts(b@));
    }
    true
}

/// The tree of a checkpoint: one root that sums up everything.
pub open spec fn checkpoint_tree(
    files: Seq<Seq<char>>,
    ts: Seq<TensorModel>,
    ms: Seq<MetadataModel>,
) -> Seq<NodeModel> {
    seq![
        group_node(
            label_of(files),
            ts,
            true,
            if ms.len() == 0 {
                tensor_tree(ts)
            } else {
                seq![metadata_group(ms)] + tensor_tree(ts)
            },
        ),
    ]
}

impl Browsing {
    /// The state after everything has been read.
    pub open spec fn loaded(self, ts: Seq<TensorModel>, ms: Seq<MetadataModel>) -> Browsing {
        let kept = loaded_tensors(ts);
        Browsing {
            tensors: kept,
            metadata: ms,
            parameters: sum_of(kept, elements()) as usize,
            full_loaded: true,
            ..self
        }.with_tree(checkpoint_tree(self.files, kept, ms))
    }
}

impl Explorer {
    /// A concise name for the checkpoint: the file's name for a single file, else the
    /// name of the directory that the files share.
    pub fn root_label(&self) -> (r: String)
        ensures
            r@ == label_of(self.deep_view().files),
    {
        let ghost all = texts(self.files@);
        if self.files.len() == 0 {
            return "checkpoint".to_owned();
        }
        proof {
            assert(all[0] == self.files@[0]@);
        }
        if self.files.len() == 1 {
            return base_or_checkpoint(self.files[0].as_str());
        }
        let dir = match parent_path(self.files[0].as_str()) {
            Some(d) => d,
            None => {
                return "checkpoint".to_owned();
            },
        };
        let mut i: usize = 0;
        while i < self.files.len()
            invariant
                i <= self.files.len(),
                self.files.len() > 1,
                all == texts(self.files@),
                all[0] == self.files@[0]@,
                forall|j: int| 0 <= j < i ==> same_parent(#[trigger] all[j], all[0]),
            decreases self.files.len() - i,
        {
            proof {
                assert(all[i as int] == self.files@[i as int]@);
            }
            if !in_same_dir(self.files[i].as_str(), self.files[0].as_str()) {
                return "checkpoint".to_owned();
            }
            i = i + 1;
        }
        base_or_checkpoint(dir.as_str())
    }

    /// Build the tree: a single root that sums up the whole checkpoint.
    pub fn build_tree(&mut self)
        requires
            countable(old(self).deep_view().tensors),
        ensures
            final(self).deep_view() == old(self).deep_view().with_tree(
                checkpoint_tree(
                    old(self).deep_view().files,
                    old(self).deep_view().tensors,
                    old(self).deep_view().metadata,
                ),
            ),
    {
        let children = if self.metadata.len() == 0 {
            TreeBuilder::build_tree(self.tensors.as_slice())
        } else {
            TreeBuilder::build_tree_mixed(self.tensors.as_slice(), self.metadata.as_slice())
        };
        let (params, total_size, stored_size) = totals(self.tensors.as_slice());
        let root = TreeNode::Group {
            name: self.root_label(),
            children,
            expanded: true,
            tensor_count: self.tensors.len(),
            params,
            total_size,
            stored_size,
        };
        let mut tree: Vec<TreeNode> = Vec::new();
        tree.push(root);
        proof {
            lemma_children(root);
            let b = self.deep_view();
            assert(models(tree@) =~= checkpoint_tree(b.files, b.tensors, b.metadata));
        }
        self.tree = tree;
        self.flatten_tree();
    }

    /// Take over what was read: the first tensor of each name, in natural order, and
    /// the tree over them.
    pub fn finalize_load(&mut self, tensors: Vec<TensorInfo>, metadata: Vec<MetadataInfo>)
        requires
            countable(first_of_each(tensors.deep_view())),
        ensures
            final(self).deep_view() == old(self).deep_view().loaded(
                tensors.deep_view(),
                metadata.deep_view(),
            ),
    {
        let kept = drop_repeats(tensors);
        proof {
            let ts = kept.deep_view();
            lemma_by_tensor_name();
            lemma_sum_sort(ts, elements(), by_tensor_name());
            lemma_sum_sort(ts, logical_bytes(), by_tensor_name());
            lemma_sum_sort(ts, disk_bytes(), by_tensor_name());
        }
        self.tensors = sort_tensors(kept.as_slice());
        self.metadata = metadata;
        let (params, _, _) = totals(self.tensors.as_slice());
        self.total_parameters = params;
        self.full_loaded = true;
        self.build_tree();
    }
}

/// A checkpoint freshly loaded into an empty browser is in a valid state.
pub proof fn law_loaded_is_valid(b: Browsing, ts: Seq<TensorModel>, ms: Seq<MetadataModel>)
    requires
        b.wf(),
        b.selected == 0,
    ensures
        b.loaded(ts, ms).wf(),
{
    let l = b.loaded(ts, ms);
    lemma_rows_first(l.tree, 0);
}

// ---------------------------------------------------------------------------
// The selected row

/// The source files of the tensors in a list of nodes, in order.
pub open spec fn all_paths(nodes: Seq<NodeModel>) -> Seq<Seq<char>>
    decreases nodes, 1nat,
{
    if nodes.len() == 0 {
        Seq::empty()
    } else {
        all_paths(nodes.drop_last()) + paths_under(nodes.last())
    }
}

/// The source files of the tensors in a node.
pub open spec fn paths_under(n: NodeModel) -> Seq<Seq<char>>
    decreases n, 0nat,
{
    match n {
        NodeModel::Tensor { info, .. } => seq![info.source_path],
        NodeModel::Group { children, .. } => all_paths(children),
        NodeModel::Metadata { .. } => Seq::empty(),
    }
}

fn add_paths(nodes: &Vec<TreeNode>, out: &mut Vec<String>)
    ensures
        texts(final(out)@) == texts(old(out)@) + all_paths(models(nodes@)),
    decreases nodes,
{
    let ghost before = texts(out@);
    let ghost all = models(nodes@);
    let mut i: usize = 0;
    proof {
        assert(before + all_paths(all.take(0)) =~= before);
    }
    while i < nodes.len()
        invariant
            i <= nodes.len(),
            all == models(nodes@),
            texts(out@) == before + all_paths(all.take(i as int)),
        decreases nodes.len() - i,
    {
        let ghost so_far = texts(out@);
        let ghost n = nodes@[i as int].model();
        proof {
            assert(all.take(i + 1).drop_last() =~= all.take(i as int));
            assert(all.take(i + 1).last() == n);
            lemma_children(nodes@[i as int]);
        }
        match &nodes[i] {
            TreeNode::Tensor { info, .. } => {
                add_line(out, info.source_path.clone());
                proof {
                    assert(texts(out@) =~= so_far + paths_under(n));
                }
            },
            TreeNode::Group { children, .. } => {
                add_paths(children, out);
            },
            TreeNode::Metadata { .. } => {
                proof {
                    assert(texts(out@) =~= so_far + paths_under(n));
                }
            },
        }
        proof {
            assert(so_far + paths_under(n) =~= before + (all_paths(all.take(i as int))
                + paths_under(n)));
        }
        i = i + 1;
    }
    proof {
        assert(all.take(i as int) =~= all);
    }
}

/// The distinct source files of every tensor under a node, in order.
pub fn collect_source_paths(node: &TreeNode) -> (r: Vec<String>)
    ensures
        texts(r@) == distinct(paths_under(node.model())),
{
    let mut all: Vec<String> = Vec::new();
    proof {
        lemma_children(*node);
        assert(texts(all@) =~= Seq::empty());
    }
    match node {
        TreeNode::Tensor { info, .. } => {
            add_line(&mut all, info.source_path.clone());
            proof {
                assert(texts(all@) =~= paths_under(node.model()));
            }
        },
        TreeNode::Group { children, .. } => {
            add_paths(children, &mut all);
            proof {
                assert(texts(all@) =~= paths_under(node.model()));
            }
        },
        TreeNode::Metadata { .. } => {},
    }
    distinct_strings(&all)
}

/// The words of a string: its pieces between white space.
pub open spec fn words_of(s: Seq<char>) -> Seq<Seq<char>>
    decreases s.len(),
{
    if s.len() == 0 {
        Seq::empty()
    } else if is_white(s.last()) {
        words_of(s.drop_last())
    } else if s.len() > 1 && !is_white(s[s.len() - 2]) {
        let t = words_of(s.drop_last());
        t.drop_last().push(t.last().push(s.last()))
    } else {
        words_of(s.drop_last()).push(seq![s.last()])
    }
}

/// The words of a string.
pub fn split_words(s: &str) -> (r: Vec<String>)
    ensures
        texts(r@) == words_of(s@),
{
    let v = chars_of(s);
    let mut r: Vec<String> = Vec::new();
    let mut part: Vec<char> = Vec::new();
    let mut i: usize = 0;
    proof {
        assert(texts(r@) =~= words_of(v@.take(0)));
    }
    while i < v.len()
        invariant
            i <= v.len(),
            part.len() > 0 ==> texts(r@).push(part@) == words_of(v@.take(i as int)),
            part.len() == 0 ==> texts(r@) == words_of(v@.take(i as int)),
            part.len() > 0 <==> i > 0 && !is_white(v@[i - 1]),
        decreases v.len() - i,
    {
        let ghost before = words_of(v@.take(i as int));
        proof {
            assert(v@.take(i + 1).drop_last() =~= v@.take(i as int));
        }
        let c = v[i];
        if white(c) {
            if part.len() > 0 {
                let word = from_chars(&part);
                add_line(&mut r, word);
                part = Vec::new();
            }
        } else {
            let ghost word = part@;
            part.push(c);
            proof {
                if i > 0 && !is_white(v@[i - 1]) {
                    assert(before == texts(r@).push(word));
                    assert(before.drop_last() =~= texts(r@));
                    assert(before.last() == word);
                } else {
                    assert(part@ =~= seq![c]);
                }
            }
        }
        i = i + 1;
    }
    proof {
        assert(v@.take(i as int) =~= v@);
    }
    if part.len() > 0 {
        let word = from_chars(&part);
        add_line(&mut r, word);
    }
    r
}

/// What the status bar says of a group's files.
pub open spec fn files_status(files: Seq<Seq<char>>) -> (Seq<char>, Seq<char>) {
    if files.len() == 0 {
        (""@, ""@)
    } else if files.len() == 1 {
        ("▪"@, files[0])
    } else {
        match shared_dir(files) {
            Some(dir) => ("▸"@, decimal(files.len()) + " files in "@ + dir),
            None => (
                "▸"@,
                "stored across "@ + decimal(files.len()) + " files: "@ + final_name(files[0]) + " … "@
                    + final_name(files.last()),
            ),
        }
    }
}

/// The status bar for a node: a glyph and two lines.
pub open spec fn node_status(n: NodeModel) -> (Seq<char>, Seq<char>, Seq<char>) {
    match n {
        NodeModel::Tensor { info, .. } => ("▪"@, info.name, info.source_path),
        NodeModel::Group { .. } => {
            let s = files_status(distinct(paths_under(n)));
            (s.0, s.1, ""@)
        },
        NodeModel::Metadata { info } => ("†"@, info.name, join(words_of(info.value), " "@)),
    }
}

impl Browsing {
    /// The node in the selected row.
    pub open spec fn chosen(self) -> Option<NodeModel> {
        if self.selected < self.visible().len() {
            Some(self.visible()[self.selected as int].0)
        } else {
            None
        }
    }

    /// The path that is copied for the selected row of the tree.
    pub open spec fn path_to_copy(self) -> Option<Seq<char>> {
        if self.selected < self.rows.len() {
            let n = self.rows[self.selected as int].0;
            match n {
                NodeModel::Tensor { info, .. } => Some(info.source_path),
                NodeModel::Group { .. } => {
                    let files = distinct(paths_under(n));
                    if files.len() == 0 {
                        None
                    } else if files.len() == 1 {
                        Some(files[0])
                    } else {
                        match shared_dir(files) {
                            Some(dir) => Some(dir),
                            None => Some(files[0]),
                        }
                    }
                },
                NodeModel::Metadata { .. } => None,
            }
        } else {
            None
        }
    }

    /// The name that is copied for the selected row of the tree, and what it is.
    pub open spec fn name_to_copy(self) -> Option<(Seq<char>, Seq<char>)> {
        if self.selected < self.rows.len() && self.rows[self.selected as int].0.name().len() > 0 {
            let n = self.rows[self.selected as int].0;
            Some(
                (
                    n.name(),
                    match n {
                        NodeModel::Tensor { .. } => "the full tensor name"@,
                        NodeModel::Group { .. } => "the group path"@,
                        NodeModel::Metadata { .. } => "the metadata key"@,
                    },
                ),
            )
        } else {
            None
        }
    }
}

impl Explorer {
    /// Two lines and a leading glyph on the row under the cursor: for a tensor its full
    /// name and its file, for a group its files or their directory, for a metadata entry
    /// its name and its value.
    pub fn status_bar(&self) -> (r: (&'static str, String, String))
        ensures
            match self.deep_view().chosen() {
                None => r.0@ == ""@ && r.1@ == ""@ && r.2@ == ""@,
                Some(n) => r.0@ == node_status(n).0 && r.1@ == node_status(n).1 && r.2@
                    == node_status(n).2,
            },
    {
        let rows = self.shown();
        if self.selected_idx >= rows.len() {
            return ("", "".to_owned(), "".to_owned());
        }
        proof {
            assert(self.deep_view().visible()[self.selected_idx as int].0
                == rows@[self.selected_idx as int].0.model());
        }
        match &rows[self.selected_idx].0 {
            TreeNode::Tensor { info, .. } => ("▪", info.name.clone(), info.source_path.clone()),
            TreeNode::Group { .. } => {
                let files = collect_source_paths(&rows[self.selected_idx].0);
                let ghost all = texts(files@);
                if files.len() == 0 {
                    return ("", "".to_owned(), "".to_owned());
                }
                proof {
                    assert(all[0] == files@[0]@);
                    assert(all.last() == files@[files.len() - 1]@);
                }
                if files.len() == 1 {
                    return ("▪", files[0].clone(), "".to_owned());
                }
                let n = decimal_string(files.len() as u128);
                match common_dir(&files) {
                    Some(dir) => ("▸", n.concat(" files in ").concat(dir.as_str()), "".to_owned()),
                    None => {
                        let first = file_name(files[0].as_str());
                        let last = file_name(files[files.len() - 1].as_str());
                        (
                            "▸",
                            "stored across ".to_owned().concat(n.as_str()).concat(
                                " files: ",
                            ).concat(first.as_str()).concat(" … ").concat(last.as_str()),
                            "".to_owned(),
                        )
                    },
                }
            },
            TreeNode::Metadata { info } => (
                "†",
                info.name.clone(),
                joined(&split_words(info.value.as_str()), " "),
            ),
        }
    }

    /// The path to copy for the selected row: a tensor's file, or for a group the single
    /// file that it lives in, else the directory that its files share, else the first.
    pub fn selected_path(&self) -> (r: Option<String>)
        ensures
            optional(r) == self.deep_view().path_to_copy(),
    {
        if self.selected_idx >= self.flattened_tree.len() {
            return None;
        }
        let ghost b = self.deep_view();
        proof {
            assert(b.rows[b.selected as int].0
                == self.flattened_tree@[self.selected_idx as int].0.model());
        }
        match &self.flattened_tree[self.selected_idx].0 {
            TreeNode::Tensor { info, .. } => Some(info.source_path.clone()),
            TreeNode::Group { .. } => {
                let files = collect_source_paths(&self.flattened_tree[self.selected_idx].0);
                let ghost all = texts(files@);
                if files.len() == 0 {
                    return None;
                }
                proof {
                    assert(all[0] == files@[0]@);
                }
                if files.len() == 1 {
                    return Some(files[0].clone());
                }
                match common_dir(&files) {
                    Some(dir) => Some(dir),
                    None => Some(files[0].clone()),
                }
            },
            TreeNode::Metadata { .. } => None,
        }
    }

    /// The full name to copy for the selected row, and what it is the name of.
    pub fn selected_name(&self) -> (r: Option<(String, &'static str)>)
        ensures
            match r {
                Some((name, what)) => self.deep_view().name_to_copy() == Some((name@, what@)),
                None => self.deep_view().name_to_copy() is None,
            },
    {
        if self.selected_idx >= self.flattened_tree.len() {
            return None;
        }
        let ghost b = self.deep_view();
        proof {
            assert(b.rows[b.selected as int].0
                == self.flattened_tree@[self.selected_idx as int].0.model());
        }
        let node = &self.flattened_tree[self.selected_idx].0;
        let name = node.name();
        if name.unicode_len() == 0 {
            return None;
        }
        let what = match node {
            TreeNode::Tensor { .. } => "the full tensor name",
            TreeNode::Group { .. } => "the group path",
            TreeNode::Metadata { .. } => "the metadata key",
        };
        Some((name.to_owned(), what))
    }
}

// ---------------------------------------------------------------------------
// Scrolling

/// Rows that one notch of the mouse wheel scrolls.
pub const WHEEL_STEP: usize = 3;

impl Browsing {
    /// The view scrolled just so far that the selection is among its `body` rows.
    pub open spec fn snapped(self, body: int) -> Browsing {
        Browsing {
            scroll: if self.selected >= self.scroll + body {
                (self.selected - (body - 1)) as usize
            } else if self.selected < self.scroll {
                self.selected
            } else {
                self.scroll
            },
            ..self
        }
    }

    /// The view scrolled back so far that its `body` rows are filled, where there are so
    /// many.
    pub open spec fn clamped(self, body: int) -> Browsing {
        let n = self.visible().len();
        let limit = if n > body {
            n - body
        } else {
            0
        };
        Browsing {
            scroll: if self.scroll < limit {
                self.scroll
            } else {
                limit as usize
            },
            ..self
        }
    }
}

impl Explorer {
    /// Scroll just so far that the selection is among the `body` rows on screen.
    pub fn update_tree_scroll(&mut self, body: usize)
        requires
            body > 0,
        ensures
            final(self).deep_view() == old(self).deep_view().snapped(body as int),
            final(self).scroll_offset <= final(self).selected_idx,
            final(self).selected_idx < final(self).scroll_offset + body,
    {
        let s = self.selected_idx;
        if s >= body && s - body >= self.scroll_offset {
            self.scroll_offset = s - (body - 1);
        } else if s < self.scroll_offset {
            self.scroll_offset = s;
        }
    }

    /// Scroll back where the view would reach beyond the last row.
    pub fn clamp_scroll(&mut self, body: usize)
        ensures
            final(self).deep_view() == old(self).deep_view().clamped(body as int),
    {
        let n = self.current_tree_len();
        let limit: usize = if n > body {
            n - body
        } else {
            0
        };
        if self.scroll_offset >= limit {
            self.scroll_offset = limit;
        }
    }

    /// One notch of the mouse wheel: the view moves, the selection stays.
    pub fn scroll_wheel(&mut self, down: bool)
        ensures
            final(self).deep_view() == (Browsing {
                scroll: if down {
                    if old(self).scroll_offset + WHEEL_STEP <= usize::MAX {
                        (old(self).scroll_offset + WHEEL_STEP) as usize
                    } else {
                        usize::MAX
                    }
                } else {
                    if old(self).scroll_offset >= WHEEL_STEP {
                        (old(self).scroll_offset - WHEEL_STEP) as usize
                    } else {
                        0
                    }
                },
                ..old(self).deep_view()
            }),
    {
        if down {
            self.scroll_offset = if self.scroll_offset <= usize::MAX - WHEEL_STEP {
                self.scroll_offset + WHEEL_STEP
            } else {
                usize::MAX
            };
        } else {
            self.scroll_offset = if self.scroll_offset >= WHEEL_STEP {
                self.scroll_offset - WHEEL_STEP
            } else {
                0
            };
        }
    }
}

// ---------------------------------------------------------------------------
// Keys and clicks

/// What is to be done outside of the browser after a key or a click.
#[derive(Debug)]
pub enum TreeAction {
    /// Nothing.
    Stay,
    Quit,
    Back,
    Forward,
    /// Go to a screen.
    Open(Screen),
    ShowMetadata(MetadataInfo),
    /// Copy the screen's text.
    CopyScreen,
    /// Copy a text, and say what it is.
    CopyText { text: String, what: &'static str },
    /// Show and copy the command that reopens the view.
    ShowCommand,
    ShowHealth,
    ShowLegend,
    Repack,
    /// Hint at a wrong keyboard layout.
    Hint(char),
}

/// What becomes of the memory of the last click, by which a double click is told.
#[derive(Clone, Copy, Debug, PartialEq, Eq, Structural)]
pub enum ClickMemory {
    /// It stays as it is.
    Keep,
    /// It is forgotten.
    Forget,
    /// It is this click.
    Remember,
}

/// The mathematical content of a [`TreeAction`].
pub enum ActionModel {
    Stay,
    Quit,
    Back,
    Forward,
    Open(ScreenModel),
    ShowMetadata(MetadataModel),
    CopyScreen,
    CopyText { text: Seq<char>, what: Seq<char> },
    ShowCommand,
    ShowHealth,
    ShowLegend,
    Repack,
    Hint(char),
}

impl DeepView for TreeAction {
    type V = ActionModel;

    open spec fn deep_view(&self) -> ActionModel {
        match *self {
            TreeAction::Stay => ActionModel::Stay,
            TreeAction::Quit => ActionModel::Quit,
            TreeAction::Back => ActionModel::Back,
            TreeAction::Forward => ActionModel::Forward,
            TreeAction::Open(s) => ActionModel::Open(s.deep_view()),
            TreeAction::ShowMetadata(m) => ActionModel::ShowMetadata(m.deep_view()),
            TreeAction::CopyScreen => ActionModel::CopyScreen,
            TreeAction::CopyText { text, what } => ActionModel::CopyText {
                text: text@,
                what: what@,
            },
            TreeAction::ShowCommand => ActionModel::ShowCommand,
            TreeAction::ShowHealth => ActionModel::ShowHealth,
            TreeAction::ShowLegend => ActionModel::ShowLegend,
            TreeAction::Repack => ActionModel::Repack,
            TreeAction::Hint(c) => ActionModel::Hint(c),
        }
    }
}

impl Browsing {
    /// The selected row acted on: a tensor opens, a group expands or collapses, a
    /// metadata entry is shown.
    pub open spec fn activated(self) -> (Browsing, ActionModel) {
        match self.chosen() {
            None => (self, ActionModel::Stay),
            Some(NodeModel::Group { .. }) => if self.searching {
                (self, ActionModel::Stay)
            } else {
                (self.with_toggled(), ActionModel::Stay)
            },
            Some(NodeModel::Tensor { info, .. }) => (
                self,
                ActionModel::Open(ScreenModel::Detail { tensor: info.name, slice: 0 }),
            ),
            Some(NodeModel::Metadata { info }) => (self, ActionModel::ShowMetadata(info)),
        }
    }

    /// The caret moved within the query.
    pub open spec fn with_caret(self, i: int) -> Browsing {
        Browsing { caret: i as usize, ..self }
    }

    /// What a key does outside of the search.
    pub open spec fn browse_key(self, key: KeyEvent) -> (Browsing, ActionModel) {
        match key.code {
            KeyCode::Char(c) => if c == 'q' {
                (self, ActionModel::Quit)
            } else if c == 'c' {
                if key.modifiers.only_control() {
                    (self, ActionModel::Quit)
                } else {
                    (self, ActionModel::CopyScreen)
                }
            } else if c == 'f' {
                (
                    self,
                    match self.path_to_copy() {
                        Some(p) => ActionModel::CopyText { text: p, what: "the source path"@ },
                        None => ActionModel::Stay,
                    },
                )
            } else if c == 'n' {
                (
                    self,
                    match self.name_to_copy() {
                        Some((n, what)) => ActionModel::CopyText { text: n, what },
                        None => ActionModel::Stay,
                    },
                )
            } else if c == 'y' {
                (self, ActionModel::ShowCommand)
            } else if c == 'h' {
                (self, ActionModel::ShowHealth)
            } else if c == 'l' {
                (self, ActionModel::ShowLegend)
            } else if c == 'E' {
                (self.with_tree(all_set(self.tree, true)).at_top(), ActionModel::Stay)
            } else if c == 'C' {
                (self.with_tree(all_set(self.tree, false)).at_top(), ActionModel::Stay)
            } else if c == 'R' {
                (self, ActionModel::Repack)
            } else if c == '/' {
                (self.searched(Seq::empty()), ActionModel::Stay)
            } else if c == ' ' {
                self.activated()
            } else if c == '\\' {
                (self, ActionModel::Forward)
            } else {
                (self, ActionModel::Stay)
            },
            KeyCode::Up => if key.modifiers.only_shift() {
                (self.to_row(self.sibling_row(false)), ActionModel::Stay)
            } else {
                (self.moved(-1), ActionModel::Stay)
            },
            KeyCode::Down => if key.modifiers.only_shift() {
                (self.to_row(self.sibling_row(true)), ActionModel::Stay)
            } else {
                (self.moved(1), ActionModel::Stay)
            },
            KeyCode::Left => (self.to_row(self.parent_row()), ActionModel::Stay),
            KeyCode::Right => (self.entered(), ActionModel::Stay),
            KeyCode::Enter => self.activated(),
            KeyCode::Backspace => (self, ActionModel::Back),
            _ => (self, ActionModel::Stay),
        }
    }

    /// What a key does in the search.
    pub open spec fn search_key(self, key: KeyEvent, page: int) -> (Browsing, ActionModel) {
        match key.code {
            KeyCode::Char(c) => if c == 'c' && key.modifiers.only_control() {
                (self, ActionModel::Quit)
            } else if c == '/' || c == ' ' {
                (self, ActionModel::Stay)
            } else {
                (self.typed(c), ActionModel::Stay)
            },
            KeyCode::Esc => (self.search_left(), ActionModel::Stay),
            KeyCode::Up => if key.modifiers.only_shift() {
                (self.to_row(self.sibling_row(false)), ActionModel::Stay)
            } else {
                (self.moved(-1), ActionModel::Stay)
            },
            KeyCode::Down => if key.modifiers.only_shift() {
                (self.to_row(self.sibling_row(true)), ActionModel::Stay)
            } else {
                (self.moved(1), ActionModel::Stay)
            },
            KeyCode::Left => (
                self.with_caret(
                    if key.modifiers.only_shift() || self.caret == 0 {
                        0
                    } else {
                        self.caret - 1
                    },
                ),
                ActionModel::Stay,
            ),
            KeyCode::Right => (
                self.with_caret(
                    if key.modifiers.only_shift() || self.caret >= self.query.len() {
                        self.query.len() as int
                    } else {
                        self.caret + 1
                    },
                ),
                ActionModel::Stay,
            ),
            KeyCode::Home => (self.selecting(0), ActionModel::Stay),
            KeyCode::End => (
                self.selecting(
                    if self.found.len() > 0 {
                        (self.found.len() - 1) as usize
                    } else {
                        0
                    },
                ),
                ActionModel::Stay,
            ),
            KeyCode::PageUp => (self.moved(-page), ActionModel::Stay),
            KeyCode::PageDown => (self.moved(page), ActionModel::Stay),
            KeyCode::Tab => (self.found_revealed(), ActionModel::Stay),
            KeyCode::Enter => self.activated(),
            KeyCode::Backspace => (self.erased(), ActionModel::Stay),
            _ => (self, ActionModel::Stay),
        }
    }

    /// What a key does; `page` is the number of rows on screen.
    pub open spec fn after_key(self, key: KeyEvent, page: int) -> (Browsing, ActionModel) {
        if self.searching {
            self.search_key(key, page)
        } else {
            match foreign_letter(key) {
                Some(c) => (self, ActionModel::Hint(c)),
                None => self.browse_key(key),
            }
        }
    }

    /// What a click on a row does: on the arrow of a group it toggles the group; else it
    /// selects the row, and a second click acts on it.
    pub open spec fn after_click(self, row: int, col: int, top: int, bottom: int, again: bool) -> (
        Browsing,
        ActionModel,
        ClickMemory,
    ) {
        let i = self.scroll + (row - top);
        if row < top || row >= bottom || i >= self.visible().len() {
            (self, ActionModel::Stay, ClickMemory::Keep)
        } else {
            let (node, depth) = self.visible()[i];
            let at = self.selecting(i as usize);
            if node is Group && col == 2 * depth {
                (at.activated().0, ActionModel::Stay, ClickMemory::Forget)
            } else if !again {
                (at, ActionModel::Stay, ClickMemory::Remember)
            } else if self.searching {
                (at.found_revealed(), ActionModel::Stay, ClickMemory::Forget)
            } else {
                (at.activated().0, at.activated().1, ClickMemory::Forget)
            }
        }
    }
}

impl Explorer {
    /// Act on the highlighted row: open a tensor, toggle a group, or show a metadata
    /// entry.
    pub fn activate_selection(&mut self) -> (r: TreeAction)
        ensures
            (final(self).deep_view(), r.deep_view()) == old(self).deep_view().activated(),
    {
        let ghost b = self.deep_view();
        let rows = self.shown();
        if self.selected_idx >= rows.len() {
            return TreeAction::Stay;
        }
        proof {
            assert(b.visible()[b.selected as int].0 == rows@[self.selected_idx as int].0.model());
        }
        let action = match &rows[self.selected_idx].0 {
            TreeNode::Group { .. } => None,
            TreeNode::Tensor { info, .. } => Some(
                TreeAction::Open(Screen::Detail { tensor: info.name.clone(), slice: 0 }),
            ),
            TreeNode::Metadata { info } => Some(TreeAction::ShowMetadata(info.clone())),
        };
        match action {
            Some(a) => a,
            None => {
                if !self.search_mode {
                    let _ = TreeBuilder::toggle_node_by_index(self.selected_idx, &mut self.tree);
                    self.flatten_tree();
                }
                TreeAction::Stay
            },
        }
    }

    fn browse_key(&mut self, key: &KeyEvent) -> (r: TreeAction)
        ensures
            (final(self).deep_view(), r.deep_view()) == old(self).deep_view().browse_key(*key),
    {
        match key.code {
            KeyCode::Char(c) => {
                if c == 'q' {
                    TreeAction::Quit
                } else if c == 'c' {
                    if key.modifiers.is_control() {
                        TreeAction::Quit
                    } else {
                        TreeAction::CopyScreen
                    }
                } else if c == 'f' {
                    match self.selected_path() {
                        Some(text) => TreeAction::CopyText { text, what: "the source path" },
                        None => TreeAction::Stay,
                    }
                } else if c == 'n' {
                    match self.selected_name() {
                        Some((text, what)) => TreeAction::CopyText { text, what },
                        None => TreeAction::Stay,
                    }
                } else if c == 'y' {
                    TreeAction::ShowCommand
                } else if c == 'h' {
                    TreeAction::ShowHealth
                } else if c == 'l' {
                    TreeAction::ShowLegend
                } else if c == 'E' {
                    self.set_all_expanded(true);
                    TreeAction::Stay
                } else if c == 'C' {
                    self.set_all_expanded(false);
                    TreeAction::Stay
                } else if c == 'R' {
                    TreeAction::Repack
                } else if c == '/' {
                    self.enter_search_mode();
                    TreeAction::Stay
                } else if c == ' ' {
                    self.activate_selection()
                } else if c == '\\' {
                    TreeAction::Forward
                } else {
                    TreeAction::Stay
                }
            },
            KeyCode::Up => {
                if key.modifiers.is_shift() {
                    self.move_to_sibling(false);
                } else {
                    self.move_selection(-1);
                }
                TreeAction::Stay
            },
            KeyCode::Down => {
                if key.modifiers.is_shift() {
                    self.move_to_sibling(true);
                } else {
                    self.move_selection(1);
                }
                TreeAction::Stay
            },
            KeyCode::Left => {
                self.move_to_parent();
                TreeAction::Stay
            },
            KeyCode::Right => {
                self.move_to_first_child();
                TreeAction::Stay
            },
            KeyCode::Enter => self.activate_selection(),
            KeyCode::Backspace => TreeAction::Back,
            _ => TreeAction::Stay,
        }
    }

    fn search_key(&mut self, key: &KeyEvent, page: u16) -> (r: TreeAction)
        requires
            old(self).search_mode,
            old(self).search_cursor <= old(self).search_query@.len() < usize::MAX,
        ensures
            (final(self).deep_view(), r.deep_view()) == old(self).deep_view().search_key(
                *key,
                page as int,
            ),
    {
        let n = self.search_query.as_str().unicode_len();
        match key.code {
            KeyCode::Char(c) => {
                if c == 'c' && key.modifiers.is_control() {
                    return TreeAction::Quit;
                }
                if c != '/' && c != ' ' {
                    self.search_insert(c);
                }
            },
            KeyCode::Esc => {
                self.exit_search_mode();
            },
            KeyCode::Up => {
                if key.modifiers.is_shift() {
                    self.move_to_sibling(false);
                } else {
                    self.move_selection(-1);
                }
            },
            KeyCode::Down => {
                if key.modifiers.is_shift() {
                    self.move_to_sibling(true);
                } else {
                    self.move_selection(1);
                }
            },
            KeyCode::Left => {
                self.search_cursor = if key.modifiers.is_shift() || self.search_cursor == 0 {
                    0
                } else {
                    self.search_cursor - 1
                };
            },
            KeyCode::Right => {
                self.search_cursor = if key.modifiers.is_shift() || self.search_cursor >= n {
                    n
                } else {
                    self.search_cursor + 1
                };
            },
            KeyCode::Home => {
                self.selected_idx = 0;
            },
            KeyCode::End => {
                self.selected_idx = if self.filtered_tree.len() > 0 {
                    self.filtered_tree.len() - 1
                } else {
                    0
                };
            },
            KeyCode::PageUp => {
                self.move_selection(-(page as i32));
            },
            KeyCode::PageDown => {
                self.move_selection(page as i32);
            },
            KeyCode::Tab => {
                self.reveal_search_result();
            },
            KeyCode::Enter => {
                return self.activate_selection();
            },
            KeyCode::Backspace => {
                self.search_backspace();
            },
            _ => {},
        }
        TreeAction::Stay
    }

    /// A key in the tree browser; `page` is the number of rows on screen. Keys move the
    /// cursor, expand, search and edit the query in place; what is to be done elsewhere
    /// is returned.
    pub fn tree_key(&mut self, key: &KeyEvent, page: u16) -> (r: TreeAction)
        requires
            old(self).search_cursor <= old(self).search_query@.len() < usize::MAX,
        ensures
            (final(self).deep_view(), r.deep_view()) == old(self).deep_view().after_key(
                *key,
                page as int,
            ),
    {
        if self.search_mode {
            self.search_key(key, page)
        } else {
            match wrong_layout_char(key) {
                Some(c) => TreeAction::Hint(c),
                None => self.browse_key(key),
            }
        }
    }

    /// A click at a row and a column of the screen, where the tree takes the rows from
    /// `top` to `bottom`. `again` tells whether the same row was clicked just before.
    /// Returns what is to be done elsewhere, and what to remember of the click.
    pub fn tree_click(&mut self, row: u16, col: u16, top: u16, bottom: u16, again: bool) -> (r: (
        TreeAction,
        ClickMemory,
    ))
        ensures
            (final(self).deep_view(), r.0.deep_view(), r.1) == old(self).deep_view().after_click(
                row as int,
                col as int,
                top as int,
                bottom as int,
                again,
            ),
    {
        let ghost b = self.deep_view();
        if row < top || row >= bottom {
            return (TreeAction::Stay, ClickMemory::Keep);
        }
        let below: usize = (row - top) as usize;
        let rows = self.shown();
        if below >= rows.len() || self.scroll_offset >= rows.len() - below {
            return (TreeAction::Stay, ClickMemory::Keep);
        }
        let i: usize = self.scroll_offset + below;
        proof {
            assert(b.visible()[i as int] == (rows@[i as int].0.model(), rows@[i as int].1));
        }
        let group = match &rows[i].0 {
            TreeNode::Group { .. } => true,
            _ => false,
        };
        let depth = rows[i].1;
        let on_arrow = group && depth <= 32767 && col as usize == 2 * depth;
        self.selected_idx = i;
        if on_arrow {
            let _ = self.activate_selection();
            (TreeAction::Stay, ClickMemory::Forget)
        } else if !again {
            (TreeAction::Stay, ClickMemory::Remember)
        } else if self.search_mode {
            self.reveal_search_result();
            (TreeAction::Stay, ClickMemory::Forget)
        } else {
            (self.activate_selection(), ClickMemory::Forget)
        }
    }
}

/// Every key keeps the browser's state valid.
pub proof fn law_keys_keep_the_browser_valid(b: Browsing, key: KeyEvent, page: int)
    requires
        b.wf(),
        page >= 0,
        b.query.len() < usize::MAX,
        b.rows.len() <= usize::MAX,
        b.found.len() <= usize::MAX,
        b.after_key(key, page).0.visible().len() <= usize::MAX,
    ensures
        b.after_key(key, page).0.wf(),
{
    if b.searching {
        match key.code {
            KeyCode::Tab => law_found_revealed_stays_valid(b),
            KeyCode::Up => lemma_siblings(b),
            KeyCode::Down => lemma_siblings(b),
            _ => {},
        }
    } else if foreign_letter(key) is None {
        lemma_siblings(b);
        if b.selected < b.rows.len() && b.rows[b.selected as int].0 is Group {
            law_toggling_and_entering_stay_valid(b);
        }
    }
}

proof fn lemma_shallower_in(rows: Seq<(NodeModel, usize)>, n: int, depth: usize)
    requires
        0 <= n <= rows.len() <= usize::MAX,
    ensures
        last_shallower(rows, n, depth) is Some ==> last_shallower(rows, n, depth)->0 < rows.len(),
        sibling_before(rows, n, depth) is Some ==> sibling_before(rows, n, depth)->0 < rows.len(),
    decreases n,
{
    if n > 0 {
        lemma_shallower_in(rows, n - 1, depth);
    }
}

proof fn lemma_after_in(rows: Seq<(NodeModel, usize)>, n: int, depth: usize)
    requires
        0 <= n <= rows.len() <= usize::MAX,
    ensures
        sibling_after(rows, n, depth) is Some ==> sibling_after(rows, n, depth)->0 < rows.len(),
    decreases rows.len() - n,
{
    if n < rows.len() {
        lemma_after_in(rows, n + 1, depth);
    }
}

proof fn lemma_siblings(b: Browsing)
    requires
        b.visible().len() <= usize::MAX,
    ensures
        b.sibling_row(true) is Some ==> b.sibling_row(true)->0 < b.visible().len(),
        b.sibling_row(false) is Some ==> b.sibling_row(false)->0 < b.visible().len(),
        b.parent_row() is Some ==> b.parent_row()->0 < b.visible().len(),
{
    if b.selected < b.visible().len() {
        let depth = b.visible()[b.selected as int].1;
        lemma_shallower_in(b.visible(), b.selected as int, depth);
        lemma_after_in(b.visible(), b.selected + 1, depth);
    }
}

proof fn lemma_metadata_below(nodes: Seq<NodeModel>)
    requires
        forall|i: int| 0 <= i < nodes.len() ==> (#[trigger] nodes[i]) is Metadata,
    ensures
        tensors_below(nodes) == Seq::<TensorModel>::empty(),
        leaves_of(nodes) == vstd::multiset::Multiset::<TensorModel>::empty(),
        counts_are_true(nodes),
    decreases nodes.len(),
{
    if nodes.len() > 0 {
        let t = nodes.drop_last();
        assert forall|i: int| 0 <= i < t.len() implies (#[trigger] t[i]) is Metadata by {
            assert(t[i] == nodes[i]);
        }
        lemma_metadata_below(t);
        assert(nodes[nodes.len() - 1] is Metadata);
        assert(tensors_in(nodes.last()) =~= Seq::<TensorModel>::empty());
        assert(node_leaves(nodes.last()) =~= vstd::multiset::Multiset::<TensorModel>::empty());
        assert(tensors_below(nodes) =~= Seq::<TensorModel>::empty());
        assert(leaves_of(nodes) =~= vstd::multiset::Multiset::<TensorModel>::empty());
    }
}

/// What is loaded is shown whole: the tree holds every loaded tensor once, each group gives
/// what the tensors below it add up to, and the parameters of the checkpoint are all
/// elements.
pub proof fn law_loaded_tree_adds_up(b: Browsing, ts: Seq<TensorModel>, ms: Seq<MetadataModel>)
    requires
        countable(loaded_tensors(ts)),
        loaded_tensors(ts).len() <= usize::MAX,
    ensures
        counts_are_true(b.loaded(ts, ms).tree),
        leaves_of(b.loaded(ts, ms).tree) == b.loaded(ts, ms).tensors.to_multiset(),
        b.loaded(ts, ms).parameters == added(
            b.loaded(ts, ms).tensors,
            |t: TensorModel| t.num_elements as nat,
        ),
        b.loaded(ts, ms).metadata == ms,
{
    let kept = loaded_tensors(ts);
    let l = b.loaded(ts, ms);
    let tree = tensor_tree(kept);
    law_groups_add_up_their_tensors(kept);
    law_tree_holds_every_tensor(kept);
    lemma_added_is_sum(kept, |t: TensorModel| t.num_elements as nat, elements());
    let kids = if ms.len() == 0 {
        tree
    } else {
        seq![metadata_group(ms)] + tree
    };
    if ms.len() > 0 {
        let wrap = |m: MetadataModel| NodeModel::Metadata { info: m };
        let rows = ms.map_values(wrap);
        let g = metadata_group(ms);
        let sorted = stable_sort(rows, by_name());
        lemma_by_name();
        lemma_stable_sort_contains(rows, by_name());
        assert forall|i: int| 0 <= i < sorted.len() implies (#[trigger] sorted[i]) is Metadata by {
            assert(sorted.contains(sorted[i]));
            assert(rows.contains(sorted[i]));
        }
        lemma_metadata_below(sorted);
        assert(g->Group_children =~= sorted);
        assert(node_count_is_true(g));
        lemma_leaves_with(g, tree);
        assert(leaves_of(kids) =~= leaves_of(tree));
        assert forall|i: int| 0 <= i < kids.len() implies node_count_is_true(#[trigger] kids[i]) by {
            if i > 0 {
                assert(kids[i] == tree[i - 1]);
            }
        }
    }
    lemma_group_counts(label_of(b.files), kept, true, kids);
    let root = group_node(label_of(b.files), kept, true, kids);
    assert(l.tree =~= seq![root]);
    assert(l.tree.drop_last() =~= Seq::empty());
    assert(leaves_of(l.tree.drop_last()) =~= vstd::multiset::Multiset::empty());
    assert(leaves_of(l.tree) =~= node_leaves(root));
    assert forall|i: int| 0 <= i < l.tree.len() implies node_count_is_true(#[trigger] l.tree[i]) by {
    }
}

} // verus!
