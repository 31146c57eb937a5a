//! Where the tree puts the tensors.
use vstd::prelude::*;

use crate::order::{lemma_stable_sort, lemma_stable_sort_contains, stable_sort};
use crate::text::{fold_double_underscores, law_joined_parts_split_again};
use crate::text::{law_parts_join_to_the_text, law_split_at_a_separator, split};
use crate::tree::{all_compacted, bucket_at, bucket_names, by_name, by_tensor_name, compacted};
use crate::tree::{deepest, falls_into, group_node, key_order, leaf_node, lemma_by_name};
use crate::tree::{lemma_by_tensor_name, members, natural_key, path_of, root_bucket, subgroups, subtree};
use crate::tree::{metadata_group, tensor_tree, top_group, top_groups, MetadataModel, NodeModel};
use crate::tree::TensorModel;

verus! {

/// A tensor stands below a path: its own path begins with it.
pub open spec fn is_below(t: TensorModel, path: Seq<Seq<char>>) -> bool {
    path.len() <= path_of(t.name).len() && path_of(t.name).take(path.len() as int) == path
}

/// Each tensor among some rows that stand below a path, and in the groups among them, has a
/// path that begins with it, followed by the names of the groups that it is in.
pub open spec fn placed(nodes: Seq<NodeModel>, path: Seq<Seq<char>>) -> bool
    decreases nodes, 1nat,
{
    forall|i: int| 0 <= i < nodes.len() ==> node_placed(#[trigger] nodes[i], path)
}

/// The same of one row.
pub open spec fn node_placed(n: NodeModel, path: Seq<Seq<char>>) -> bool
    decreases n, 0nat,
{
    match n {
        NodeModel::Group { name, children, .. } => placed(children, path + split(name, '.')),
        NodeModel::Tensor { info, .. } => is_below(info, path),
        NodeModel::Metadata { .. } => true,
    }
}

proof fn lemma_segment(t: TensorModel, i: int)
    requires
        0 <= i < path_of(t.name).len(),
    ensures
        split(path_of(t.name)[i], '.') == seq![path_of(t.name)[i]],
{
    let seg = path_of(t.name)[i];
    law_parts_join_to_the_text(fold_double_underscores(t.name), '.');
    assert(!seg.contains('.'));
    law_joined_parts_split_again(seq![seg], '.');
}

proof fn lemma_placed_sort(nodes: Seq<NodeModel>, path: Seq<Seq<char>>)
    requires
        placed(nodes, path),
    ensures
        placed(stable_sort(nodes, by_name()), path),
{
    let r = stable_sort(nodes, by_name());
    lemma_by_name();
    lemma_stable_sort_contains(nodes, by_name());
    assert forall|i: int| 0 <= i < r.len() implies node_placed(#[trigger] r[i], path) by {
        assert(r.contains(r[i]));
        assert(nodes.contains(r[i]));
        let k = nodes.index_of(r[i]);
        assert(node_placed(nodes[k], path));
    }
}

proof fn lemma_own(
    ts: Seq<TensorModel>,
    bucket: spec_fn(TensorModel) -> Option<Seq<char>>,
    k: Option<Seq<char>>,
    i: int,
)
    requires
        0 <= i < members(ts, bucket, k).len(),
    ensures
        bucket(members(ts, bucket, k)[i]) == k,
        ts.contains(members(ts, bucket, k)[i]),
{
    let keep = falls_into(bucket, k);
    let own = members(ts, bucket, k);
    ts.lemma_filter_pred(keep, i);
    assert(own.contains(own[i]));
    ts.lemma_filter_contains_rev(keep, own[i]);
}

proof fn lemma_subtree_placed(
    ts: Seq<TensorModel>,
    depth: nat,
    levels: nat,
    path: Seq<Seq<char>>,
)
    requires
        path.len() == depth,
        forall|i: int| 0 <= i < ts.len() ==> is_below(#[trigger] ts[i], path),
    ensures
        placed(subtree(ts, depth, levels), path),
        placed(subgroups(ts, depth, levels), path),
    decreases levels,
{
    let bucket = bucket_at(depth);
    let loose = members(ts, bucket, None);
    let groups = subgroups(ts, depth, levels);
    assert forall|g: int| 0 <= g < groups.len() implies node_placed(#[trigger] groups[g], path) by {
        let k = bucket_names(ts, bucket)[g];
        let own = members(ts, bucket, Some(k));
        let rows = subtree(own, depth + 1, (levels - 1) as nat);
        assert(groups[g] == group_node(k, own, false, rows));
        assert forall|i: int| 0 <= i < own.len() implies is_below(#[trigger] own[i], path.push(k)) by {
            lemma_own(ts, bucket, Some(k), i);
            let at = ts.index_of(own[i]);
            assert(is_below(ts[at], path));
            assert(path_of(own[i].name).take(depth as int + 1) =~= path.push(k));
        }
        lemma_subtree_placed(own, depth + 1, (levels - 1) as nat, path.push(k));
        if own.len() > 0 {
            lemma_own(ts, bucket, Some(k), 0);
            lemma_segment(own[0], depth as int);
            assert(path + split(k, '.') =~= path.push(k));
        } else {
            crate::tree::lemma_bucket_names_distinct(ts, bucket);
            let j = choose|j: int|
                0 <= j < ts.len() && bucket(#[trigger] ts[j]) == Some(bucket_names(ts, bucket)[g]);
            lemma_segment(ts[j], depth as int);
            assert(path + split(k, '.') =~= path.push(k));
        }
    }
    let rows = loose.map_values(leaf_node()) + groups;
    assert forall|i: int| 0 <= i < rows.len() implies node_placed(#[trigger] rows[i], path) by {
        if i < loose.len() {
            lemma_own(ts, bucket, None, i);
            let at = ts.index_of(loose[i]);
            assert(is_below(ts[at], path));
        } else {
            assert(rows[i] == groups[i - loose.len()]);
        }
    }
    lemma_placed_sort(rows, path);
}

proof fn lemma_below_less(t: TensorModel, path: Seq<Seq<char>>, more: Seq<Seq<char>>)
    requires
        is_below(t, path + more),
    ensures
        is_below(t, path),
{
    let p = path_of(t.name);
    assert(p.take(path.len() as int) =~= p.take((path + more).len() as int).take(
        path.len() as int,
    ));
    assert((path + more).take(path.len() as int) =~= path);
}

proof fn lemma_compacted_placed(n: NodeModel, path: Seq<Seq<char>>)
    requires
        node_placed(n, path),
    ensures
        node_placed(compacted(n), path),
    decreases n, 0nat,
{
    if n is Group {
        let kids = n->Group_children;
        let name = n->Group_name;
        let under = path + split(name, '.');
        let done = all_compacted(kids);
        lemma_all_compacted_placed(kids, under);
        if done.len() == 1 && done[0] is Tensor {
            assert(node_placed(done[0], under));
            lemma_below_less(done[0]->Tensor_info, path, split(name, '.'));
        } else if done.len() == 1 && done[0] is Group {
            assert(node_placed(done[0], under));
            let inner = done[0]->Group_name;
            reveal_strlit(".");
            assert("."@ =~= seq!['.']);
            law_split_at_a_separator(name, inner, '.');
            assert(path + split(name + "."@ + inner, '.') =~= under + split(inner, '.'));
        }
    }
}

proof fn lemma_all_compacted_placed(nodes: Seq<NodeModel>, path: Seq<Seq<char>>)
    requires
        placed(nodes, path),
    ensures
        placed(all_compacted(nodes), path),
    decreases nodes, 1nat,
{
    let done = all_compacted(nodes);
    assert forall|i: int| 0 <= i < done.len() implies node_placed(#[trigger] done[i], path) by {
        assert(node_placed(nodes[i], path));
        lemma_compacted_placed(nodes[i], path);
    }
}

/// Every tensor stands in the groups that its path names: going down to it, the names of the
/// groups are, one after another, the segments that its name begins with.
pub proof fn law_tensors_stand_under_their_segments(ts: Seq<TensorModel>)
    ensures
        placed(tensor_tree(ts), Seq::empty()),
{
    let bucket = root_bucket();
    let loose = members(ts, bucket, None);
    let groups = top_groups(ts);
    let root = Seq::<Seq<char>>::empty();
    lemma_by_tensor_name();
    assert forall|g: int| 0 <= g < groups.len() implies node_placed(#[trigger] groups[g], root) by {
        let k = bucket_names(ts, bucket)[g];
        let found = members(ts, bucket, Some(k));
        let own = stable_sort(found, by_tensor_name());
        lemma_stable_sort_contains(found, by_tensor_name());
        assert(groups[g] == top_group(ts, k));
        assert forall|i: int| 0 <= i < own.len() implies is_below(#[trigger] own[i], seq![k]) by {
            assert(own.contains(own[i]));
            assert(found.contains(own[i]));
            let at = found.index_of(own[i]);
            lemma_own(ts, bucket, Some(k), at);
            assert(path_of(own[i].name).take(1) =~= seq![k]);
        }
        lemma_subtree_placed(own, 1, deepest(ts), seq![k]);
        crate::tree::lemma_bucket_names_distinct(ts, bucket);
        let j = choose|j: int|
            0 <= j < ts.len() && bucket(#[trigger] ts[j]) == Some(bucket_names(ts, bucket)[g]);
        lemma_segment(ts[j], 0);
        assert(root + split(k, '.') =~= seq![k]);
    }
    let rows = loose.map_values(leaf_node()) + groups;
    assert forall|i: int| 0 <= i < rows.len() implies node_placed(#[trigger] rows[i], root) by {
        if i < loose.len() {
            assert(path_of(loose[i].name).take(0) =~= root);
        } else {
            assert(rows[i] == groups[i - loose.len()]);
        }
    }
    lemma_placed_sort(rows, root);
    lemma_all_compacted_placed(stable_sort(rows, by_name()), root);
}

/// Before chains of groups are folded, the rows below a group stand in the natural
/// order of their names.
pub proof fn law_rows_are_in_natural_order(ts: Seq<TensorModel>, depth: nat, levels: nat, i: int, j: int)
    requires
        0 <= i < j < subtree(ts, depth, levels).len(),
    ensures
        ({
            let rows = subtree(ts, depth, levels);
            key_order(natural_key(rows[i].name()), natural_key(rows[j].name())) <= 0
        }),
{
    lemma_by_name();
    let rows = members(ts, bucket_at(depth), None).map_values(leaf_node()) + subgroups(
        ts,
        depth,
        levels,
    );
    lemma_stable_sort(rows, by_name());
    let r = subtree(ts, depth, levels);
    assert(by_name()(r[i], r[j]));
}

/// Two underscores in a name separate segments as a dot does.
pub proof fn law_underscores_separate(a: Seq<char>, b: Seq<char>)
    requires
        a.len() > 0 ==> a.last() != '_',
    ensures
        path_of(a + "__"@ + b) == path_of(a + "."@ + b),
        path_of(a + "."@ + b) == path_of(a) + path_of(b),
{
    reveal_strlit("__");
    reveal_strlit(".");
    lemma_folded_join(a, "__"@ + b);
    lemma_folded_join(a, "."@ + b);
    assert(a + ("__"@ + b) =~= a + "__"@ + b);
    assert(a + ("."@ + b) =~= a + "."@ + b);
    assert(("__"@ + b).skip(2) =~= b);
    assert(("."@ + b).skip(1) =~= b);
    let (x, y) = (fold_double_underscores(a), fold_double_underscores(b));
    assert(fold_double_underscores("__"@ + b) =~= seq!['.'] + y);
    assert(fold_double_underscores("."@ + b) =~= seq!['.'] + y);
    assert("."@ =~= seq!['.']);
    assert(x + (seq!['.'] + y) =~= x + "."@ + y);
    law_split_at_a_separator(x, y, '.');
}

proof fn lemma_folded_join(a: Seq<char>, b: Seq<char>)
    requires
        a.len() > 0 ==> a.last() != '_',
    ensures
        fold_double_underscores(a + b) == fold_double_underscores(a) + fold_double_underscores(b),
    decreases a.len(),
{
    if a.len() == 0 {
        assert(a + b =~= b);
        assert(fold_double_underscores(a) =~= Seq::empty());
        assert(Seq::<char>::empty() + fold_double_underscores(b) =~= fold_double_underscores(b));
    } else if a.len() >= 2 && a[0] == '_' && a[1] == '_' {
        assert((a + b).skip(2) =~= a.skip(2) + b);
        if a.len() > 2 {
            assert(a.skip(2).last() == a.last());
        }
        lemma_folded_join(a.skip(2), b);
        assert(fold_double_underscores(a + b) =~= fold_double_underscores(a)
            + fold_double_underscores(b));
    } else {
        assert((a + b).skip(1) =~= a.skip(1) + b);
        if a.len() > 1 {
            assert(a.skip(1).last() == a.last());
        }
        lemma_folded_join(a.skip(1), b);
        assert(fold_double_underscores(a + b) =~= fold_double_underscores(a)
            + fold_double_underscores(b));
    }
}

/// At the top each first segment is one group: the groups have distinct names, and every tensor
/// with more than one segment, the first of them not `_root`, has its first segment among
/// them.
pub proof fn law_each_segment_is_one_group(ts: Seq<TensorModel>)
    ensures
        forall|i: int, j: int|
            #![trigger top_groups(ts)[i], top_groups(ts)[j]]
            0 <= i < j < top_groups(ts).len() ==> top_groups(ts)[i].name() != top_groups(ts)[j].name(),
        forall|k: int|
            0 <= k < ts.len() && path_of((#[trigger] ts[k]).name).len() > 1 && path_of(ts[k].name)[0]
                != "_root"@ ==> exists|i: int|
                0 <= i < top_groups(ts).len() && (#[trigger] top_groups(ts)[i]).name() == path_of(
                    ts[k].name,
                )[0],
{
    let bucket = root_bucket();
    let names = bucket_names(ts, bucket);
    let groups = top_groups(ts);
    crate::tree::lemma_bucket_names_distinct(ts, bucket);
    assert forall|i: int, j: int|
        #![trigger groups[i], groups[j]]
        0 <= i < j < groups.len() implies groups[i].name() != groups[j].name() by {
        assert(groups[i] == top_group(ts, names[i]));
        assert(groups[j] == top_group(ts, names[j]));
        assert(names[i] != names[j]);
    }
    assert forall|k: int|
        0 <= k < ts.len() && path_of((#[trigger] ts[k]).name).len() > 1 && path_of(ts[k].name)[0]
            != "_root"@ implies exists|i: int|
        0 <= i < groups.len() && (#[trigger] groups[i]).name() == path_of(ts[k].name)[0] by {
        let seg = path_of(ts[k].name)[0];
        let keep = falls_into(bucket, Some(seg));
        assert(keep(ts[k]));
        ts.lemma_filter_contains(keep, k);
        assert(members(ts, bucket, Some(seg)).len() > 0);
        assert(names.contains(seg));
        let i = names.index_of(seg);
        assert(groups[i] == top_group(ts, names[i]));
    }
}

/// The group of the metadata holds each entry once, in the natural order of the names, and
/// counts no tensor.
pub proof fn law_metadata_stands_in_one_group(ms: Seq<MetadataModel>)
    ensures
        ({
            let g = metadata_group(ms);
            &&& g is Group
            &&& g->tensor_count == 0 && g->params == 0 && g->total_size == 0 && g->stored_size == 0
            &&& g->Group_children.len() == ms.len()
            &&& forall|i: int|
                0 <= i < ms.len() ==> g->Group_children.contains(
                    NodeModel::Metadata { info: #[trigger] ms[i] },
                )
            &&& forall|i: int, j: int|
                #![trigger g->Group_children[i], g->Group_children[j]]
                0 <= i < j < ms.len() ==> key_order(
                    natural_key(g->Group_children[i].name()),
                    natural_key(g->Group_children[j].name()),
                ) <= 0
        }),
{
    broadcast use vstd::seq_lib::group_to_multiset_ensures;

    let g = metadata_group(ms);
    let rows = ms.map_values(|m: MetadataModel| NodeModel::Metadata { info: m });
    let kids = g->Group_children;
    lemma_by_name();
    lemma_stable_sort(rows, by_name());
    assert forall|i: int| 0 <= i < ms.len() implies kids.contains(
        NodeModel::Metadata { info: #[trigger] ms[i] },
    ) by {
        assert(rows[i] == NodeModel::Metadata { info: ms[i] });
        assert(rows.contains(rows[i]));
        assert(kids.to_multiset().count(rows[i]) > 0);
    }
    assert forall|i: int, j: int|
        #![trigger kids[i], kids[j]]
        0 <= i < j < ms.len() implies key_order(
        natural_key(kids[i].name()),
        natural_key(kids[j].name()),
    ) <= 0 by {
        assert(by_name()(kids[i], kids[j]));
    }
}

} // verus!
