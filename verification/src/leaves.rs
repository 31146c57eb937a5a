//! What a tree holds: no tensor is lost, whatever is folded, opened or closed.
use vstd::multiset::Multiset;
use vstd::prelude::*;

use crate::order::{lemma_sorted_position, lemma_stable_sort, sorted_position, stable_sort};
use crate::order::{lemma_stable_sort_contains, total_preorder};
use crate::tree::{all_compacted, all_set, bucket_at, bucket_names, by_name, by_tensor_name};
use crate::tree::{compacted, deepest, falls_into, leaf_node, lemma_bucket_names_distinct};
use crate::tree::{lemma_by_name, lemma_by_tensor_name, lemma_deepest, lemma_members_in, members, node_opened};
use crate::tree::{opened, path_of, root_bucket, subgroups, subtree, tensor_tree};
use crate::tree::{deeper, groups_are, node_groups_are, node_rows, rows_of, toggled, toggled_below};
use crate::tree::{countable, disk_bytes, elements, group_node, lemma_countable_filter, lemma_sum_sort};
use crate::tree::{lemma_children, models, Storage, TensorInfo, TreeNode};
use crate::tree::{logical_bytes, sum_of, top_groups, NodeModel, StorageModel, TensorModel};

verus! {

/// The tensors below a list of nodes.
pub open spec fn leaves_of(nodes: Seq<NodeModel>) -> Multiset<TensorModel>
    decreases nodes, 1nat,
{
    if nodes.len() == 0 {
        Multiset::empty()
    } else {
        leaves_of(nodes.drop_last()).add(node_leaves(nodes.last()))
    }
}

/// The tensors of a node and below it.
pub open spec fn node_leaves(n: NodeModel) -> Multiset<TensorModel>
    decreases n, 0nat,
{
    match n {
        NodeModel::Group { children, .. } => leaves_of(children),
        NodeModel::Tensor { info, .. } => Multiset::singleton(info),
        NodeModel::Metadata { .. } => Multiset::empty(),
    }
}

proof fn lemma_leaves_join(a: Seq<NodeModel>, b: Seq<NodeModel>)
    ensures
        leaves_of(a + b) == leaves_of(a).add(leaves_of(b)),
    decreases b.len(),
{
    if b.len() == 0 {
        assert(a + b =~= a);
        assert(leaves_of(a).add(Multiset::empty()) =~= leaves_of(a));
    } else {
        assert((a + b).drop_last() =~= a + b.drop_last());
        assert((a + b).last() == b.last());
        lemma_leaves_join(a, b.drop_last());
        assert(leaves_of(a + b) =~= leaves_of(a).add(leaves_of(b)));
    }
}

proof fn lemma_leaves_insert(nodes: Seq<NodeModel>, p: int, x: NodeModel)
    requires
        0 <= p <= nodes.len(),
    ensures
        leaves_of(nodes.insert(p, x)) == leaves_of(nodes).add(node_leaves(x)),
    decreases nodes.len(),
{
    let r = nodes.insert(p, x);
    if p == nodes.len() {
        assert(r.drop_last() =~= nodes);
    } else {
        lemma_leaves_insert(nodes.drop_last(), p, x);
        assert(r.drop_last() =~= nodes.drop_last().insert(p, x));
        assert(r.last() == nodes.last());
        assert(leaves_of(r) =~= leaves_of(nodes).add(node_leaves(x)));
    }
}

pub proof fn lemma_leaves_sort(nodes: Seq<NodeModel>, le: spec_fn(NodeModel, NodeModel) -> bool)
    requires
        total_preorder(le),
    ensures
        leaves_of(stable_sort(nodes, le)) == leaves_of(nodes),
    decreases nodes.len(),
{
    if nodes.len() > 0 {
        let r = stable_sort(nodes.drop_last(), le);
        lemma_leaves_sort(nodes.drop_last(), le);
        lemma_stable_sort(nodes.drop_last(), le);
        lemma_sorted_position(r, nodes.last(), le);
        lemma_leaves_insert(r, sorted_position(r, nodes.last(), le), nodes.last());
    }
}

/// Nodes that hold the same, one for one, hold the same together.
proof fn lemma_leaves_alike(a: Seq<NodeModel>, b: Seq<NodeModel>)
    requires
        a.len() == b.len(),
        forall|i: int| 0 <= i < a.len() ==> node_leaves(#[trigger] a[i]) == node_leaves(b[i]),
    ensures
        leaves_of(a) == leaves_of(b),
    decreases a.len(),
{
    if a.len() > 0 {
        assert forall|i: int| 0 <= i < a.len() - 1 implies node_leaves(
            #[trigger] a.drop_last()[i],
        ) == node_leaves(b.drop_last()[i]) by {
            assert(node_leaves(a[i]) == node_leaves(b[i]));
        }
        lemma_leaves_alike(a.drop_last(), b.drop_last());
        assert(node_leaves(a[a.len() - 1]) == node_leaves(b[a.len() - 1]));
    }
}

proof fn lemma_leaves_rows(ts: Seq<TensorModel>)
    ensures
        leaves_of(ts.map_values(leaf_node())) == ts.to_multiset(),
    decreases ts.len(),
{
    broadcast use vstd::seq_lib::group_to_multiset_ensures;

    let rows = ts.map_values(leaf_node());
    if ts.len() > 0 {
        lemma_leaves_rows(ts.drop_last());
        assert(rows.drop_last() =~= ts.drop_last().map_values(leaf_node()));
        assert(ts =~= ts.drop_last().push(ts.last()));
        assert(rows.last() == leaf_node()(ts.last()));
        assert(node_leaves(rows.last()) == Multiset::singleton(ts.last()));
        assert(leaves_of(rows) =~= ts.drop_last().to_multiset().insert(ts.last()));
    } else {
        assert(ts.to_multiset() =~= Multiset::empty());
    }
}

/// How often a tensor is among those that fall into a group.
proof fn lemma_member_count(
    ts: Seq<TensorModel>,
    bucket: spec_fn(TensorModel) -> Option<Seq<char>>,
    k: Option<Seq<char>>,
    t: TensorModel,
)
    ensures
        members(ts, bucket, k).to_multiset().count(t) == if bucket(t) == k {
            ts.to_multiset().count(t)
        } else {
            0
        },
    decreases ts.len(),
{
    broadcast use vstd::seq_lib::group_to_multiset_ensures;

    let keep = falls_into(bucket, k);
    if ts.len() > 0 {
        let s = ts.drop_last();
        let x = ts.last();
        lemma_member_count(s, bucket, k, t);
        assert(ts =~= s.push(x));
        s.lemma_filter_push(x, keep);
    } else {
        ts.lemma_filter_len(keep);
        assert(ts.filter(keep) =~= Seq::empty());
        assert(ts =~= Seq::empty());
    }
}

/// The tensors that fall into any of some groups.
spec fn in_groups(
    ts: Seq<TensorModel>,
    bucket: spec_fn(TensorModel) -> Option<Seq<char>>,
    names: Seq<Seq<char>>,
) -> Multiset<TensorModel>
    decreases names.len(),
{
    if names.len() == 0 {
        Multiset::empty()
    } else {
        in_groups(ts, bucket, names.drop_last()).add(
            members(ts, bucket, Some(names.last())).to_multiset(),
        )
    }
}

proof fn lemma_group_count(
    ts: Seq<TensorModel>,
    bucket: spec_fn(TensorModel) -> Option<Seq<char>>,
    names: Seq<Seq<char>>,
    t: TensorModel,
)
    requires
        names.no_duplicates(),
    ensures
        in_groups(ts, bucket, names).count(t) == if bucket(t) is Some && names.contains(
            bucket(t)->0,
        ) {
            ts.to_multiset().count(t)
        } else {
            0
        },
    decreases names.len(),
{
    if names.len() > 0 {
        let rest = names.drop_last();
        let k = names.last();
        assert(rest.no_duplicates());
        lemma_group_count(ts, bucket, rest, t);
        lemma_member_count(ts, bucket, Some(k), t);
        if bucket(t) is Some {
            let b = bucket(t)->0;
            if rest.contains(b) {
                let i = choose|i: int| 0 <= i < rest.len() && rest[i] == b;
                assert(names[i] == b);
                assert(names[names.len() - 1] == k);
                assert(b != k);
                assert(names.contains(b));
            } else if b == k {
                assert(names[names.len() - 1] == b);
                assert(names.contains(b));
            } else if names.contains(b) {
                let i = choose|i: int| 0 <= i < names.len() && names[i] == b;
                assert(rest[i] == b);
            }
        }
    }
}

/// Each tensor falls into one group, or into none.
proof fn lemma_groups_part(
    ts: Seq<TensorModel>,
    bucket: spec_fn(TensorModel) -> Option<Seq<char>>,
)
    ensures
        members(ts, bucket, None).to_multiset().add(
            in_groups(ts, bucket, bucket_names(ts, bucket)),
        ) == ts.to_multiset(),
{
    let names = bucket_names(ts, bucket);
    let all = members(ts, bucket, None).to_multiset().add(in_groups(ts, bucket, names));
    lemma_bucket_names_distinct(ts, bucket);
    assert forall|t: TensorModel| all.count(t) == ts.to_multiset().count(t) by {
        lemma_member_count(ts, bucket, None, t);
        lemma_group_count(ts, bucket, names, t);
        if bucket(t) is Some && !names.contains(bucket(t)->0) {
            lemma_member_count(ts, bucket, bucket(t), t);
            let none = members(ts, bucket, Some(bucket(t)->0));
            assert(none.len() == 0);
            assert(none =~= Seq::empty());
            assert(none.to_multiset() =~= Multiset::empty()) by {
                broadcast use vstd::seq_lib::group_to_multiset_ensures;

            }
        }
    }
    assert(all =~= ts.to_multiset());
}

/// Groups whose nodes hold what falls into them hold it together.
proof fn lemma_leaves_groups(
    ts: Seq<TensorModel>,
    bucket: spec_fn(TensorModel) -> Option<Seq<char>>,
    names: Seq<Seq<char>>,
    nodes: Seq<NodeModel>,
)
    requires
        nodes.len() == names.len(),
        forall|i: int|
            0 <= i < names.len() ==> node_leaves(#[trigger] nodes[i]) == members(
                ts,
                bucket,
                Some(names[i]),
            ).to_multiset(),
    ensures
        leaves_of(nodes) == in_groups(ts, bucket, names),
    decreases names.len(),
{
    if names.len() > 0 {
        let rest = nodes.drop_last();
        assert forall|i: int| 0 <= i < rest.len() implies node_leaves(#[trigger] rest[i])
            == members(ts, bucket, Some(names.drop_last()[i])).to_multiset() by {
            assert(node_leaves(nodes[i]) == members(ts, bucket, Some(names[i])).to_multiset());
        }
        lemma_leaves_groups(ts, bucket, names.drop_last(), rest);
        assert(node_leaves(nodes[nodes.len() - 1]) == members(
            ts,
            bucket,
            Some(names[names.len() - 1]),
        ).to_multiset());
    }
}

/// What is below a group holds its tensors.
proof fn lemma_leaves_subtree(ts: Seq<TensorModel>, depth: nat, levels: nat)
    requires
        forall|i: int|
            0 <= i < ts.len() ==> path_of(#[trigger] ts[i].name).len() <= depth + levels + 1,
    ensures
        leaves_of(subtree(ts, depth, levels)) == ts.to_multiset(),
    decreases levels,
{
    let bucket = bucket_at(depth);
    let names = bucket_names(ts, bucket);
    let own = members(ts, bucket, None);
    let rows = own.map_values(leaf_node());
    let groups = subgroups(ts, depth, levels);
    lemma_by_name();
    lemma_leaves_sort(rows + groups, by_name());
    lemma_leaves_join(rows, groups);
    lemma_leaves_rows(own);
    lemma_groups_part(ts, bucket);
    lemma_bucket_names_distinct(ts, bucket);
    if levels == 0 {
        if names.len() > 0 {
            let j = choose|j: int|
                0 <= j < ts.len() && bucket(#[trigger] ts[j]) == Some(names[0]);
            assert(path_of(ts[j].name).len() <= depth + levels + 1);
            assert(false);
        }
        assert(names =~= Seq::empty());
    } else {
        assert(groups.len() == names.len());
        assert forall|i: int| 0 <= i < names.len() implies node_leaves(#[trigger] groups[i])
            == members(ts, bucket, Some(names[i])).to_multiset() by {
            let below = members(ts, bucket, Some(names[i]));
            assert forall|j: int| 0 <= j < below.len() implies path_of(
                #[trigger] below[j].name,
            ).len() <= (depth + 1) + (levels - 1) + 1 by {
                lemma_members_in(ts, bucket, Some(names[i]));
                assert(ts.contains(below[j]));
            }
            lemma_leaves_subtree(below, depth + 1, (levels - 1) as nat);
        }
        lemma_leaves_groups(ts, bucket, names, groups);
    }
}

/// Folding chains of groups loses nothing.
proof fn lemma_leaves_compacted(n: NodeModel)
    ensures
        node_leaves(compacted(n)) == node_leaves(n),
    decreases n,
{
    if let NodeModel::Group { children, .. } = n {
        let kids = all_compacted(children);
        assert forall|i: int| 0 <= i < children.len() implies node_leaves(#[trigger] kids[i])
            == node_leaves(children[i]) by {
            lemma_leaves_compacted(children[i]);
        }
        lemma_leaves_alike(kids, children);
        if kids.len() == 1 {
            assert(kids.drop_last() =~= Seq::empty());
            assert(leaves_of(kids.drop_last()) =~= Multiset::empty());
            assert(leaves_of(kids) =~= node_leaves(kids[0]));
        }
    }
}

/// The tree over a list of tensors holds each of them, as often as the list does, and no
/// other.
pub proof fn law_tree_holds_every_tensor(ts: Seq<TensorModel>)
    ensures
        leaves_of(tensor_tree(ts)) == ts.to_multiset(),
{
    let bucket = root_bucket();
    let names = bucket_names(ts, bucket);
    let own = members(ts, bucket, None);
    let rows = own.map_values(leaf_node());
    let groups = top_groups(ts);
    let nodes = stable_sort(rows + groups, by_name());
    lemma_by_name();
    lemma_by_tensor_name();
    lemma_leaves_sort(rows + groups, by_name());
    lemma_leaves_join(rows, groups);
    lemma_leaves_rows(own);
    lemma_groups_part(ts, bucket);
    assert forall|i: int| 0 <= i < names.len() implies node_leaves(#[trigger] groups[i])
        == members(ts, bucket, Some(names[i])).to_multiset() by {
        let part = members(ts, bucket, Some(names[i]));
        let below = stable_sort(part, by_tensor_name());
        lemma_stable_sort(part, by_tensor_name());
        assert forall|j: int| 0 <= j < below.len() implies path_of(#[trigger] below[j].name).len()
            <= 1 + deepest(ts) + 1 by {
            lemma_stable_sort_contains(part, by_tensor_name());
            assert(part.contains(below[j]));
            let m = choose|m: int| 0 <= m < part.len() && part[m] == below[j];
            lemma_members_in(ts, bucket, Some(names[i]));
            assert(ts.contains(part[m]));
            let o = choose|o: int| 0 <= o < ts.len() && #[trigger] ts[o] == part[m];
            lemma_deepest(ts, o);
        }
        lemma_leaves_subtree(below, 1, deepest(ts));
    }
    lemma_leaves_groups(ts, bucket, names, groups);
    let folded = all_compacted(nodes);
    assert forall|i: int| 0 <= i < nodes.len() implies node_leaves(#[trigger] folded[i])
        == node_leaves(nodes[i]) by {
        lemma_leaves_compacted(nodes[i]);
    }
    lemma_leaves_alike(folded, nodes);
}

proof fn lemma_leaves_first(nodes: Seq<NodeModel>)
    requires
        nodes.len() > 0,
    ensures
        leaves_of(nodes) == node_leaves(nodes[0]).add(leaves_of(nodes.skip(1))),
{
    let one = seq![nodes[0]];
    assert(nodes =~= one + nodes.skip(1));
    lemma_leaves_join(one, nodes.skip(1));
    assert(one.drop_last() =~= Seq::empty());
    assert(leaves_of(one.drop_last()) =~= Multiset::empty());
    assert(leaves_of(one) =~= node_leaves(nodes[0]));
}

pub proof fn lemma_leaves_with(n: NodeModel, nodes: Seq<NodeModel>)
    ensures
        leaves_of(seq![n] + nodes) == node_leaves(n).add(leaves_of(nodes)),
{
    let all = seq![n] + nodes;
    lemma_leaves_first(all);
    assert(all.skip(1) =~= nodes);
}

/// Expanding or collapsing everything keeps what the tree holds.
pub proof fn law_folding_keeps_tensors(nodes: Seq<NodeModel>, on: bool)
    ensures
        leaves_of(all_set(nodes, on)) == leaves_of(nodes),
    decreases nodes,
{
    let after = all_set(nodes, on);
    assert forall|i: int| 0 <= i < after.len() implies node_leaves(#[trigger] after[i])
        == node_leaves(nodes[i]) by {
        if nodes[i] is Group {
            law_folding_keeps_tensors(nodes[i]->Group_children, on);
        }
    }
    lemma_leaves_alike(after, nodes);
}

/// Opening the way to a tensor keeps what the tree holds.
pub proof fn law_opening_keeps_tensors(nodes: Seq<NodeModel>, name: Seq<char>, with_metadata: bool)
    ensures
        leaves_of(opened(nodes, name, with_metadata)) == leaves_of(nodes),
    decreases nodes,
{
    if nodes.len() > 0 {
        lemma_leaves_first(nodes);
        let first = node_opened(nodes[0], name, with_metadata);
        if nodes[0] is Group {
            law_opening_keeps_tensors(nodes[0]->Group_children, name, with_metadata);
        }
        assert(node_leaves(first) == node_leaves(nodes[0]));
        lemma_leaves_with(first, nodes.skip(1));
        law_opening_keeps_tensors(nodes.skip(1), name, with_metadata);
        lemma_leaves_with(nodes[0], opened(nodes.skip(1), name, with_metadata));
    }
}

/// Turning a group keeps what the tree holds.
pub proof fn law_toggling_keeps_tensors(nodes: Seq<NodeModel>, row: nat)
    ensures
        leaves_of(toggled(nodes, row).0) == leaves_of(nodes),
    decreases nodes,
{
    if nodes.len() > 0 {
        lemma_leaves_first(nodes);
        if row == 0 {
            lemma_leaves_with(nodes[0].flipped(), nodes.skip(1));
        } else {
            let below = (row - 1) as nat;
            if nodes[0] is Group {
                law_toggling_keeps_tensors(nodes[0]->Group_children, below);
            }
            let (n, left, hit) = toggled_below(nodes[0], below);
            assert(node_leaves(n) == node_leaves(nodes[0]));
            lemma_leaves_with(n, nodes.skip(1));
            if left is Some {
                law_toggling_keeps_tensors(nodes.skip(1), left->0);
                lemma_leaves_with(n, toggled(nodes.skip(1), left->0).0);
            }
        }
    }
}

/// The tensors among some rows.
pub open spec fn tensors_shown(rows: Seq<(NodeModel, usize)>) -> Multiset<TensorModel>
    decreases rows.len(),
{
    if rows.len() == 0 {
        Multiset::empty()
    } else {
        let before = tensors_shown(rows.drop_last());
        match rows.last().0 {
            NodeModel::Tensor { info, .. } => before.insert(info),
            _ => before,
        }
    }
}

proof fn lemma_shown_join(a: Seq<(NodeModel, usize)>, b: Seq<(NodeModel, usize)>)
    ensures
        tensors_shown(a + b) == tensors_shown(a).add(tensors_shown(b)),
    decreases b.len(),
{
    if b.len() == 0 {
        assert(a + b =~= a);
        assert(tensors_shown(a).add(Multiset::empty()) =~= tensors_shown(a));
    } else {
        assert((a + b).drop_last() =~= a + b.drop_last());
        assert((a + b).last() == b.last());
        lemma_shown_join(a, b.drop_last());
        assert(tensors_shown(a + b) =~= tensors_shown(a).add(tensors_shown(b)));
    }
}

/// With every group expanded, the rows show every tensor of the tree, each as often as the
/// tree holds it.
pub proof fn law_expanded_rows_show_every_tensor(nodes: Seq<NodeModel>, depth: usize)
    requires
        groups_are(nodes, true),
    ensures
        tensors_shown(rows_of(nodes, depth)) == leaves_of(nodes),
    decreases nodes,
{
    if nodes.len() > 0 {
        let n = nodes.last();
        let before = nodes.drop_last();
        assert(node_groups_are(nodes[nodes.len() - 1], true));
        assert forall|i: int| 0 <= i < before.len() implies node_groups_are(
            #[trigger] before[i],
            true,
        ) by {
            assert(node_groups_are(nodes[i], true));
        }
        law_expanded_rows_show_every_tensor(before, depth);
        lemma_shown_join(rows_of(before, depth), node_rows(n, depth));
        let own = seq![(n, depth)];
        assert(own.drop_last() =~= Seq::empty());
        assert(tensors_shown(own.drop_last()) =~= Multiset::empty());
        if n is Group {
            let kids = n->Group_children;
            law_expanded_rows_show_every_tensor(kids, deeper(depth));
            lemma_shown_join(own, rows_of(kids, deeper(depth)));
            assert(tensors_shown(own) =~= Multiset::empty());
        } else {
            assert(tensors_shown(own) =~= node_leaves(n));
        }
        assert(tensors_shown(node_rows(n, depth)) =~= node_leaves(n));
    }
}

// ---------------------------------------------------------------------------
// What a group adds up

/// The tensors below a list of nodes, from first to last.
pub open spec fn tensors_below(nodes: Seq<NodeModel>) -> Seq<TensorModel>
    decreases nodes, 1nat,
{
    if nodes.len() == 0 {
        Seq::empty()
    } else {
        tensors_below(nodes.drop_last()) + tensors_in(nodes.last())
    }
}

/// The tensors of a node and below it, from first to last.
pub open spec fn tensors_in(n: NodeModel) -> Seq<TensorModel>
    decreases n, 0nat,
{
    match n {
        NodeModel::Group { children, .. } => tensors_below(children),
        NodeModel::Tensor { info, .. } => seq![info],
        NodeModel::Metadata { .. } => Seq::empty(),
    }
}

/// A number added up over tensors.
pub open spec fn added(ts: Seq<TensorModel>, f: spec_fn(TensorModel) -> nat) -> nat
    decreases ts.len(),
{
    if ts.len() == 0 {
        0
    } else {
        added(ts.drop_last(), f) + f(ts.last())
    }
}

/// What a tensor takes on disk: what it is compressed to, or else its size.
pub open spec fn taken_on_disk(t: TensorModel) -> nat {
    match t.storage {
        StorageModel::Compressed { stored_bytes, .. } => stored_bytes as nat,
        _ => t.size_bytes as nat,
    }
}

/// Each group, at every depth, gives the number of the tensors below it, and what their
/// elements, their bytes and their bytes on disk add up to.
pub open spec fn counts_are_true(nodes: Seq<NodeModel>) -> bool
    decreases nodes, 1nat,
{
    forall|i: int| 0 <= i < nodes.len() ==> node_count_is_true(#[trigger] nodes[i])
}

/// The same of one node.
pub open spec fn node_count_is_true(n: NodeModel) -> bool
    decreases n, 0nat,
{
    match n {
        NodeModel::Group { children, tensor_count, params, total_size, stored_size, .. } => {
            let below = tensors_below(children);
            &&& tensor_count == below.len()
            &&& params == added(below, |t: TensorModel| t.num_elements as nat)
            &&& total_size == added(below, |t: TensorModel| t.size_bytes as nat)
            &&& stored_size == added(below, |t: TensorModel| taken_on_disk(t))
            &&& counts_are_true(children)
        },
        _ => true,
    }
}

proof fn lemma_below_multiset(nodes: Seq<NodeModel>)
    ensures
        tensors_below(nodes).to_multiset() == leaves_of(nodes),
    decreases nodes, 1nat,
{
    broadcast use vstd::seq_lib::group_to_multiset_ensures;

    if nodes.len() == 0 {
        assert(tensors_below(nodes).to_multiset() =~= Multiset::empty());
    } else {
        lemma_below_multiset(nodes.drop_last());
        lemma_in_multiset(nodes[nodes.len() - 1]);
        vstd::seq_lib::lemma_multiset_commutative(
            tensors_below(nodes.drop_last()),
            tensors_in(nodes.last()),
        );
    }
}

proof fn lemma_in_multiset(n: NodeModel)
    ensures
        tensors_in(n).to_multiset() == node_leaves(n),
    decreases n, 0nat,
{
    broadcast use vstd::seq_lib::group_to_multiset_ensures;

    match n {
        NodeModel::Group { children, .. } => {
            lemma_below_multiset(children);
        },
        NodeModel::Tensor { info, .. } => {
            assert(seq![info] =~= Seq::<TensorModel>::empty().push(info));
            assert(tensors_in(n).to_multiset() =~= Multiset::singleton(info));
        },
        NodeModel::Metadata { .. } => {
            assert(tensors_in(n).to_multiset() =~= Multiset::empty());
        },
    }
}

proof fn lemma_added_without(ts: Seq<TensorModel>, f: spec_fn(TensorModel) -> nat, i: int)
    requires
        0 <= i < ts.len(),
    ensures
        added(ts, f) == added(ts.remove(i), f) + f(ts[i]),
    decreases ts.len(),
{
    if i == ts.len() - 1 {
        assert(ts.remove(i) =~= ts.drop_last());
    } else {
        lemma_added_without(ts.drop_last(), f, i);
        assert(ts.remove(i).drop_last() =~= ts.drop_last().remove(i));
        assert(ts.remove(i).last() == ts.last());
    }
}

proof fn lemma_added_alike(a: Seq<TensorModel>, b: Seq<TensorModel>, f: spec_fn(TensorModel) -> nat)
    requires
        a.to_multiset() == b.to_multiset(),
    ensures
        added(a, f) == added(b, f),
        a.len() == b.len(),
    decreases a.len(),
{
    broadcast use vstd::seq_lib::group_to_multiset_ensures;

    assert(a.to_multiset().len() == a.len() && b.to_multiset().len() == b.len());
    if a.len() > 0 {
        let x = a.last();
        assert(a.to_multiset().count(x) > 0);
        assert(b.contains(x));
        let i = b.index_of(x);
        lemma_added_without(b, f, i);
        assert(a =~= a.drop_last().push(x));
        assert(a.drop_last().to_multiset() =~= a.to_multiset().remove(x));
        assert(b.remove(i).to_multiset() =~= b.to_multiset().remove(x)) by {
            vstd::seq_lib::to_multiset_remove(b, i);
        }
        lemma_added_alike(a.drop_last(), b.remove(i), f);
    }
}

pub proof fn lemma_added_is_sum(
    ts: Seq<TensorModel>,
    f: spec_fn(TensorModel) -> nat,
    g: spec_fn(TensorModel) -> usize,
)
    requires
        forall|t: TensorModel| f(t) == (#[trigger] g(t)) as nat,
    ensures
        added(ts, f) == sum_of(ts, g),
    decreases ts.len(),
{
    if ts.len() > 0 {
        lemma_added_is_sum(ts.drop_last(), f, g);
    }
}

/// A group over tensors whose children hold them counts them.
pub proof fn lemma_group_counts(
    name: Seq<char>,
    ts: Seq<TensorModel>,
    expanded: bool,
    children: Seq<NodeModel>,
)
    requires
        leaves_of(children) == ts.to_multiset(),
        counts_are_true(children),
        countable(ts),
        ts.len() <= usize::MAX,
    ensures
        node_count_is_true(group_node(name, ts, expanded, children)),
{
    let below = tensors_below(children);
    lemma_below_multiset(children);
    let f = |t: TensorModel| t.num_elements as nat;
    let g = |t: TensorModel| t.size_bytes as nat;
    let h = |t: TensorModel| taken_on_disk(t);
    lemma_added_alike(below, ts, f);
    lemma_added_alike(below, ts, g);
    lemma_added_alike(below, ts, h);
    lemma_added_is_sum(ts, f, elements());
    lemma_added_is_sum(ts, g, logical_bytes());
    lemma_added_is_sum(ts, h, disk_bytes());
}

pub proof fn lemma_counts_sort(nodes: Seq<NodeModel>)
    requires
        counts_are_true(nodes),
    ensures
        counts_are_true(stable_sort(nodes, by_name())),
{
    let r = stable_sort(nodes, by_name());
    lemma_by_name();
    lemma_stable_sort_contains(nodes, by_name());
    assert forall|i: int| 0 <= i < r.len() implies node_count_is_true(#[trigger] r[i]) by {
        assert(r.contains(r[i]));
        assert(nodes.contains(r[i]));
        let k = nodes.index_of(r[i]);
        assert(node_count_is_true(nodes[k]));
    }
}

proof fn lemma_counts_rows(own: Seq<TensorModel>, groups: Seq<NodeModel>)
    requires
        counts_are_true(groups),
    ensures
        counts_are_true(own.map_values(leaf_node()) + groups),
{
    let all = own.map_values(leaf_node()) + groups;
    assert forall|i: int| 0 <= i < all.len() implies node_count_is_true(#[trigger] all[i]) by {
        if i >= own.len() {
            assert(all[i] == groups[i - own.len()]);
        }
    }
}

proof fn lemma_counts_subtree(ts: Seq<TensorModel>, depth: nat, levels: nat)
    requires
        forall|i: int|
            0 <= i < ts.len() ==> path_of(#[trigger] ts[i].name).len() <= depth + levels + 1,
        countable(ts),
        ts.len() <= usize::MAX,
    ensures
        counts_are_true(subtree(ts, depth, levels)),
    decreases levels,
{
    let bucket = bucket_at(depth);
    let names = bucket_names(ts, bucket);
    let groups = subgroups(ts, depth, levels);
    assert forall|i: int| 0 <= i < groups.len() implies node_count_is_true(#[trigger] groups[i]) by {
        let own = members(ts, bucket, Some(names[i]));
        assert forall|j: int| 0 <= j < own.len() implies path_of(#[trigger] own[j].name).len()
            <= (depth + 1) + (levels - 1) + 1 by {
            lemma_members_in(ts, bucket, Some(names[i]));
            assert(ts.contains(own[j]));
        }
        lemma_countable_filter(ts, falls_into(bucket, Some(names[i])));
        ts.lemma_filter_len(falls_into(bucket, Some(names[i])));
        let below = subtree(own, depth + 1, (levels - 1) as nat);
        lemma_leaves_subtree(own, depth + 1, (levels - 1) as nat);
        lemma_counts_subtree(own, depth + 1, (levels - 1) as nat);
        lemma_group_counts(names[i], own, false, below);
        assert(groups[i] == group_node(names[i], own, false, below));
    }
    let own = members(ts, bucket, None);
    lemma_counts_rows(own, groups);
    lemma_counts_sort(own.map_values(leaf_node()) + groups);
}

proof fn lemma_counts_compacted(n: NodeModel)
    requires
        node_count_is_true(n),
    ensures
        node_count_is_true(compacted(n)),
        tensors_in(compacted(n)) == tensors_in(n),
    decreases n,
{
    if let NodeModel::Group { children, .. } = n {
        let kids = all_compacted(children);
        assert forall|i: int| 0 <= i < children.len() implies node_count_is_true(
            #[trigger] kids[i],
        ) && tensors_in(kids[i]) == tensors_in(children[i]) by {
            assert(node_count_is_true(children[i]));
            lemma_counts_compacted(children[i]);
        }
        lemma_below_alike(kids, children);
        if kids.len() == 1 {
            assert(kids.drop_last() =~= Seq::empty());
            assert(tensors_below(kids.drop_last()) =~= Seq::empty());
            assert(kids.last() == kids[0]);
            assert(tensors_below(kids) == tensors_below(kids.drop_last()) + tensors_in(kids.last()));
            assert(tensors_below(kids) =~= tensors_in(kids[0]));
            assert(node_count_is_true(kids[0]));
        }
    }
}

proof fn lemma_below_alike(a: Seq<NodeModel>, b: Seq<NodeModel>)
    requires
        a.len() == b.len(),
        forall|i: int| 0 <= i < a.len() ==> tensors_in(#[trigger] a[i]) == tensors_in(b[i]),
    ensures
        tensors_below(a) == tensors_below(b),
    decreases a.len(),
{
    if a.len() > 0 {
        let (x, y) = (a.drop_last(), b.drop_last());
        assert forall|i: int| 0 <= i < x.len() implies tensors_in(#[trigger] x[i]) == tensors_in(
            y[i],
        ) by {
            assert(x[i] == a[i] && y[i] == b[i]);
        }
        lemma_below_alike(x, y);
        assert(tensors_in(a[a.len() - 1]) == tensors_in(b[a.len() - 1]));
    }
}

/// In the tree over a list of tensors every group, at every depth, gives the number of the
/// tensors below it, as its parameters what their elements add up to, and as its sizes
/// what their bytes and their bytes on disk do.
pub proof fn law_groups_add_up_their_tensors(ts: Seq<TensorModel>)
    requires
        countable(ts),
        ts.len() <= usize::MAX,
    ensures
        counts_are_true(tensor_tree(ts)),
{
    let bucket = root_bucket();
    let names = bucket_names(ts, bucket);
    let groups = top_groups(ts);
    lemma_by_tensor_name();
    assert forall|i: int| 0 <= i < groups.len() implies node_count_is_true(#[trigger] groups[i]) by {
        let part = members(ts, bucket, Some(names[i]));
        let own = stable_sort(part, by_tensor_name());
        lemma_stable_sort(part, by_tensor_name());
        lemma_countable_filter(ts, falls_into(bucket, Some(names[i])));
        ts.lemma_filter_len(falls_into(bucket, Some(names[i])));
        lemma_sum_sort(part, elements(), by_tensor_name());
        lemma_sum_sort(part, logical_bytes(), by_tensor_name());
        lemma_sum_sort(part, disk_bytes(), by_tensor_name());
        assert forall|j: int| 0 <= j < own.len() implies path_of(#[trigger] own[j].name).len()
            <= 1 + deepest(ts) + 1 by {
            lemma_stable_sort_contains(part, by_tensor_name());
            assert(own.contains(own[j]));
            assert(part.contains(own[j]));
            lemma_members_in(ts, bucket, Some(names[i]));
            let m = part.index_of(own[j]);
            assert(ts.contains(part[m]));
            let o = ts.index_of(part[m]);
            lemma_deepest(ts, o);
        }
        let below = subtree(own, 1, deepest(ts));
        lemma_leaves_subtree(own, 1, deepest(ts));
        lemma_counts_subtree(own, 1, deepest(ts));
        lemma_group_counts(names[i], own, true, below);
        assert(groups[i] == group_node(names[i], own, true, below));
    }
    let own = members(ts, bucket, None);
    let rows = own.map_values(leaf_node()) + groups;
    lemma_counts_rows(own, groups);
    lemma_counts_sort(rows);
    let nodes = stable_sort(rows, by_name());
    let all = tensor_tree(ts);
    assert forall|i: int| 0 <= i < all.len() implies node_count_is_true(#[trigger] all[i]) by {
        assert(node_count_is_true(nodes[i]));
        lemma_counts_compacted(nodes[i]);
    }
}

/// Expanding or collapsing everything changes no count.
pub proof fn law_folding_keeps_counts(nodes: Seq<NodeModel>, on: bool)
    requires
        counts_are_true(nodes),
    ensures
        counts_are_true(all_set(nodes, on)),
        tensors_below(all_set(nodes, on)) == tensors_below(nodes),
    decreases nodes,
{
    let r = all_set(nodes, on);
    assert forall|i: int| 0 <= i < nodes.len() implies node_count_is_true(#[trigger] r[i])
        && tensors_in(r[i]) == tensors_in(nodes[i]) by {
        assert(node_count_is_true(nodes[i]));
        if nodes[i] is Group {
            law_folding_keeps_counts(nodes[i]->Group_children, on);
        }
    }
    lemma_below_alike(r, nodes);
}

/// The tensors that rows hold, from first to last.
pub open spec fn infos_below(nodes: Seq<TreeNode>) -> Seq<TensorInfo>
    decreases nodes, 1nat,
{
    if nodes.len() == 0 {
        Seq::empty()
    } else {
        infos_below(nodes.drop_last()) + infos_in(nodes.last())
    }
}

/// The tensors that a row holds, from first to last.
pub open spec fn infos_in(n: TreeNode) -> Seq<TensorInfo>
    decreases n, 0nat,
{
    match n {
        TreeNode::Group { children, .. } => infos_below(children@),
        TreeNode::Tensor { info, .. } => seq![info],
        TreeNode::Metadata { .. } => Seq::empty(),
    }
}

/// A number added up over tensors.
pub open spec fn summed(ts: Seq<TensorInfo>, f: spec_fn(TensorInfo) -> nat) -> nat
    decreases ts.len(),
{
    if ts.len() == 0 {
        0
    } else {
        summed(ts.drop_last(), f) + f(ts.last())
    }
}

/// A row's numbers are those of the tensors that it holds, and so are those of every row
/// below it.
pub open spec fn adds_up(n: TreeNode) -> bool
    decreases n,
{
    match n {
        TreeNode::Group { children, tensor_count, params, total_size, stored_size, .. } => {
            let below = infos_below(children@);
            &&& tensor_count == below.len()
            &&& params == summed(below, |t: TensorInfo| t.num_elements as nat)
            &&& total_size == summed(below, |t: TensorInfo| t.size_bytes as nat)
            &&& stored_size == summed(
                below,
                |t: TensorInfo|
                    match t.storage {
                        Storage::Compressed { stored_bytes, .. } => stored_bytes as nat,
                        _ => t.size_bytes as nat,
                    },
            )
            &&& forall|i: int| 0 <= i < children@.len() ==> adds_up(#[trigger] children@[i])
        },
        _ => true,
    }
}

proof fn lemma_infos_below(nodes: Seq<TreeNode>)
    ensures
        infos_below(nodes).map_values(|t: TensorInfo| t.deep_view()) == tensors_below(
            models(nodes),
        ),
    decreases nodes, 1nat,
{
    let view = |t: TensorInfo| t.deep_view();
    if nodes.len() == 0 {
        assert(infos_below(nodes).map_values(view) =~= tensors_below(models(nodes)));
    } else {
        lemma_infos_below(nodes.drop_last());
        lemma_infos_in(nodes[nodes.len() - 1]);
        assert(models(nodes).drop_last() =~= models(nodes.drop_last()));
        assert(models(nodes).last() == nodes.last().model());
        assert(infos_below(nodes).map_values(view) =~= infos_below(nodes.drop_last()).map_values(
            view,
        ) + infos_in(nodes.last()).map_values(view));
    }
}

proof fn lemma_infos_in(n: TreeNode)
    ensures
        infos_in(n).map_values(|t: TensorInfo| t.deep_view()) == tensors_in(n.model()),
    decreases n, 0nat,
{
    let view = |t: TensorInfo| t.deep_view();
    match n {
        TreeNode::Group { children, .. } => {
            lemma_children(n);
            lemma_infos_below(children@);
        },
        TreeNode::Tensor { info, .. } => {
            assert(infos_in(n).map_values(view) =~= seq![info.deep_view()]);
        },
        TreeNode::Metadata { .. } => {
            assert(infos_in(n).map_values(view) =~= Seq::empty());
        },
    }
}

proof fn lemma_summed(
    ts: Seq<TensorInfo>,
    f: spec_fn(TensorInfo) -> nat,
    g: spec_fn(TensorModel) -> nat,
)
    requires
        forall|t: TensorInfo| #[trigger] f(t) == g(t.deep_view()),
    ensures
        summed(ts, f) == added(ts.map_values(|t: TensorInfo| t.deep_view()), g),
    decreases ts.len(),
{
    let all = ts.map_values(|t: TensorInfo| t.deep_view());
    if ts.len() > 0 {
        lemma_summed(ts.drop_last(), f, g);
        assert(all.drop_last() =~= ts.drop_last().map_values(|t: TensorInfo| t.deep_view()));
        assert(all.last() == ts.last().deep_view());
        assert(f(ts.last()) == g(ts.last().deep_view()));
    }
}

proof fn lemma_adds_up(n: TreeNode)
    requires
        node_count_is_true(n.model()),
    ensures
        adds_up(n),
    decreases n,
{
    if let TreeNode::Group { children, .. } = n {
        lemma_children(n);
        lemma_infos_below(children@);
        let below = infos_below(children@);
        let f = |t: TensorInfo| t.num_elements as nat;
        let g = |t: TensorInfo| t.size_bytes as nat;
        let h = |t: TensorInfo|
            match t.storage {
                Storage::Compressed { stored_bytes, .. } => stored_bytes as nat,
                _ => t.size_bytes as nat,
            };
        lemma_summed(below, f, |t: TensorModel| t.num_elements as nat);
        lemma_summed(below, g, |t: TensorModel| t.size_bytes as nat);
        lemma_summed(below, h, |t: TensorModel| taken_on_disk(t));
        assert(tensors_below(models(children@)).len() == below.len());
        assert forall|i: int| 0 <= i < children@.len() implies adds_up(#[trigger] children@[i]) by {
            assert(models(children@)[i] == children@[i].model());
            assert(node_count_is_true(models(children@)[i]));
            lemma_adds_up(children@[i]);
        }
    }
}

/// In a tree built over a list of tensors, every row's numbers are those of the tensors
/// that it holds: how many there are, their elements, their bytes and their bytes on disk.
pub proof fn law_built_rows_add_up(nodes: Seq<TreeNode>, ts: Seq<TensorModel>)
    requires
        models(nodes) == tensor_tree(ts),
        countable(ts),
        ts.len() <= usize::MAX,
    ensures
        forall|i: int| 0 <= i < nodes.len() ==> adds_up(#[trigger] nodes[i]),
        infos_below(nodes).map_values(|t: TensorInfo| t.deep_view()).to_multiset()
            == ts.to_multiset(),
{
    law_groups_add_up_their_tensors(ts);
    law_tree_holds_every_tensor(ts);
    lemma_infos_below(nodes);
    lemma_below_multiset(models(nodes));
    assert forall|i: int| 0 <= i < nodes.len() implies adds_up(#[trigger] nodes[i]) by {
        assert(models(nodes)[i] == nodes[i].model());
        assert(node_count_is_true(models(nodes)[i]));
        lemma_adds_up(nodes[i]);
    }
}

} // verus!
