//! What the tree browser finds, and where its keys lead.
use vstd::prelude::*;

use crate::explorer::{by_score, first_of_each, last_shallower, loaded_tensors, ranked_rows};
use crate::explorer::{sibling_after, sibling_before, with_scores, ActionModel, Browsing, ClickMemory};
use crate::explorer::{named_among, node_status};
use crate::keys::{foreign_letter, KeyCode, KeyEvent};
use crate::order::{law_sorting_keeps_equals_in_order, lemma_stable_sort, lemma_stable_sort_contains};
use crate::order::{stable_sort, total_preorder};
use crate::tree::{by_tensor_name, groups_are, key_order, law_all_set, lemma_by_tensor_name};
use crate::tree::{natural_key, NodeModel, TensorModel};

verus! {

// ---------------------------------------------------------------------------
// Searching

/// A candidate without a score is not found; one with a score is, once.
pub proof fn law_scored_candidates_are_found(
    nodes: Seq<NodeModel>,
    scores: Seq<Option<i64>>,
    n: NodeModel,
    s: i64,
)
    requires
        nodes.len() == scores.len(),
    ensures
        with_scores(nodes.push(n), scores.push(None)) == with_scores(nodes, scores),
        with_scores(nodes.push(n), scores.push(Some(s))) == with_scores(nodes, scores).push((n, s)),
        with_scores(Seq::empty(), Seq::empty()).len() == 0,
{
    assert(nodes.push(n).drop_last() =~= nodes);
    assert(scores.push(None).drop_last() =~= scores);
    assert(scores.push(Some(s)).drop_last() =~= scores);
}

/// Of a score.
pub open spec fn scored(s: i64) -> spec_fn((NodeModel, i64)) -> bool {
    |e: (NodeModel, i64)| e.1 == s
}

/// What is found stands at the top level, a higher score before a lower; of equal scores
/// the candidate that was first stays first; nothing is lost and nothing added.
pub proof fn law_best_matches_come_first(nodes: Seq<NodeModel>, scores: Seq<Option<i64>>)
    ensures
        exists|found: Seq<(NodeModel, i64)>|
            {
                &&& #[trigger] found.len() == ranked_rows(nodes, scores).len()
                &&& found.to_multiset() == with_scores(nodes, scores).to_multiset()
                &&& forall|i: int|
                    0 <= i < found.len() ==> #[trigger] ranked_rows(nodes, scores)[i] == (
                        found[i].0,
                        0usize,
                    )
                &&& forall|i: int, j: int|
                    #![trigger found[i], found[j]]
                    0 <= i < j < found.len() ==> found[i].1 >= found[j].1
                &&& forall|s: i64|
                    found.filter(#[trigger] scored(s)) == with_scores(nodes, scores).filter(
                        scored(s),
                    )
            },
{
    let le = by_score();
    let all = with_scores(nodes, scores);
    let found = stable_sort(all, le);
    assert(total_preorder(le));
    lemma_stable_sort(all, le);
    assert forall|s: i64| found.filter(#[trigger] scored(s)) == all.filter(scored(s)) by {
        law_sorting_keeps_equals_in_order(all, le, scored(s));
    }
    assert forall|i: int, j: int|
        #![trigger found[i], found[j]]
        0 <= i < j < found.len() implies found[i].1 >= found[j].1 by {
        assert(le(found[i], found[j]));
    }
    assert(found.len() == ranked_rows(nodes, scores).len());
}

// ---------------------------------------------------------------------------
// Loading

/// Whether a tensor is the first of its name.
pub open spec fn is_first(ts: Seq<TensorModel>, i: int) -> bool {
    0 <= i < ts.len() && forall|j: int| 0 <= j < i ==> (#[trigger] ts[j]).name != ts[i].name
}

/// Of the tensors of a name the first is loaded; nothing else is; they stand in the natural
/// order of their names.
pub proof fn law_first_of_each_name_is_loaded(ts: Seq<TensorModel>)
    ensures
        forall|i: int| #[trigger] is_first(ts, i) ==> loaded_tensors(ts).contains(ts[i]),
        forall|k: int|
            0 <= k < loaded_tensors(ts).len() ==> ts.contains(#[trigger] loaded_tensors(ts)[k]),
        forall|i: int, j: int|
            #![trigger loaded_tensors(ts)[i], loaded_tensors(ts)[j]]
            0 <= i < j < loaded_tensors(ts).len() ==> key_order(
                natural_key(loaded_tensors(ts)[i].name),
                natural_key(loaded_tensors(ts)[j].name),
            ) <= 0,
{
    broadcast use vstd::seq_lib::group_to_multiset_ensures;

    let first = first_of_each(ts);
    let le = by_tensor_name();
    let r = loaded_tensors(ts);
    lemma_by_tensor_name();
    lemma_stable_sort(first, le);
    lemma_stable_sort_contains(first, le);
    assert forall|i: int| #[trigger] is_first(ts, i) implies r.contains(ts[i]) by {
        lemma_first_kept(ts, i);
        assert(first.to_multiset().count(ts[i]) > 0);
        assert(r.to_multiset().count(ts[i]) > 0);
    }
    assert forall|i: int, j: int|
        #![trigger r[i], r[j]]
        0 <= i < j < r.len() implies key_order(natural_key(r[i].name), natural_key(r[j].name))
        <= 0 by {
        assert(le(r[i], r[j]));
    }
    assert forall|k: int| 0 <= k < r.len() implies ts.contains(#[trigger] r[k]) by {
        assert(first.contains(r[k]));
        lemma_kept_is_given(ts, first.index_of(r[k]));
    }
}

proof fn lemma_first_kept(ts: Seq<TensorModel>, i: int)
    requires
        is_first(ts, i),
    ensures
        first_of_each(ts).contains(ts[i]),
    decreases ts.len(),
{
    let t = ts.drop_last();
    let had = first_of_each(t);
    let r = first_of_each(ts);
    if i < t.len() {
        assert(t[i] == ts[i]);
        assert forall|j: int| 0 <= j < i implies (#[trigger] t[j]).name != t[i].name by {
            assert(t[j] == ts[j]);
        }
        lemma_first_kept(t, i);
        let k = had.index_of(t[i]);
        assert(r[k] == ts[i]);
    } else {
        assert forall|j: int| 0 <= j < t.len() implies (#[trigger] t[j]).name != ts.last().name by {
            assert(t[j] == ts[j]);
        }
        assert(!named_among(t, ts.last().name));
        assert(r.last() == ts[i]);
    }
}

proof fn lemma_kept_is_given(ts: Seq<TensorModel>, k: int)
    requires
        0 <= k < first_of_each(ts).len(),
    ensures
        ts.contains(first_of_each(ts)[k]),
    decreases ts.len(),
{
    if ts.len() > 0 {
        let t = ts.drop_last();
        let had = first_of_each(t);
        let r = first_of_each(ts);
        if k < had.len() {
            assert(r[k] == had[k]);
            lemma_kept_is_given(t, k);
            let j = t.index_of(had[k]);
            assert(ts[j] == r[k]);
        } else {
            assert(ts[ts.len() - 1] == r[k]);
        }
    }
}

// ---------------------------------------------------------------------------
// Moving about

/// The parent of a row is the nearest row above it that is shallower; a row without one has
/// none.
pub proof fn law_parent_is_the_nearest_shallower(b: Browsing)
    requires
        b.selected < b.visible().len() <= usize::MAX,
    ensures
        ({
            let rows = b.visible();
            let depth = rows[b.selected as int].1;
            match b.parent_row() {
                Some(p) => p < b.selected && rows[p as int].1 < depth && forall|i: int|
                    p < i < b.selected ==> (#[trigger] rows[i]).1 >= depth,
                None => forall|i: int| 0 <= i < b.selected ==> (#[trigger] rows[i]).1 >= depth,
            }
        }),
{
    lemma_last_shallower(b.visible(), b.selected as int, b.visible()[b.selected as int].1);
}

proof fn lemma_last_shallower(rows: Seq<(NodeModel, usize)>, n: int, depth: usize)
    requires
        0 <= n <= rows.len() <= usize::MAX,
    ensures
        match last_shallower(rows, n, depth) {
            Some(p) => p < n && rows[p as int].1 < depth && forall|i: int|
                p < i < n ==> (#[trigger] rows[i]).1 >= depth,
            None => forall|i: int| 0 <= i < n ==> (#[trigger] rows[i]).1 >= depth,
        },
    decreases n,
{
    if n > 0 && rows[n - 1].1 >= depth {
        lemma_last_shallower(rows, n - 1, depth);
    }
}

/// The next and the previous sibling of a row are the nearest rows at its depth, with
/// nothing shallower between.
pub proof fn law_siblings_are_the_nearest(b: Browsing)
    requires
        b.selected < b.visible().len() <= usize::MAX,
    ensures
        ({
            let rows = b.visible();
            let depth = rows[b.selected as int].1;
            &&& b.sibling_row(true) matches Some(p) ==> b.selected < p < rows.len()
                && rows[p as int].1 == depth && forall|i: int|
                b.selected < i < p ==> (#[trigger] rows[i]).1 > depth
            &&& b.sibling_row(false) matches Some(p) ==> p < b.selected && rows[p as int].1 == depth
                && forall|i: int| p < i < b.selected ==> (#[trigger] rows[i]).1 > depth
            &&& b.sibling_row(true) is None ==> forall|i: int|
                b.selected < i < rows.len() && (#[trigger] rows[i]).1 == depth ==> exists|j: int|
                    b.selected < j < i && (#[trigger] rows[j]).1 < depth
            &&& b.sibling_row(false) is None ==> forall|i: int|
                0 <= i < b.selected && (#[trigger] rows[i]).1 == depth ==> exists|j: int|
                    i < j < b.selected && (#[trigger] rows[j]).1 < depth
        }),
{
    let rows = b.visible();
    let depth = rows[b.selected as int].1;
    lemma_sibling_after(rows, b.selected + 1, depth);
    lemma_sibling_before(rows, b.selected as int, depth);
}

proof fn lemma_sibling_after(rows: Seq<(NodeModel, usize)>, n: int, depth: usize)
    requires
        0 <= n,
        rows.len() <= usize::MAX,
    ensures
        match sibling_after(rows, n, depth) {
            Some(p) => n <= p < rows.len() && rows[p as int].1 == depth && forall|i: int|
                n <= i < p ==> (#[trigger] rows[i]).1 > depth,
            None => forall|i: int|
                n <= i < rows.len() && (#[trigger] rows[i]).1 == depth ==> exists|j: int|
                    n <= j < i && (#[trigger] rows[j]).1 < depth,
        },
    decreases rows.len() - n,
{
    if n < rows.len() {
        if rows[n].1 > depth {
            lemma_sibling_after(rows, n + 1, depth);
        } else if rows[n].1 < depth {
            assert forall|i: int| n <= i < rows.len() && (#[trigger] rows[i]).1 == depth implies exists|
                j: int,
            |
                n <= j < i && (#[trigger] rows[j]).1 < depth by {
                assert(n <= n < i && rows[n].1 < depth);
            }
        }
    }
}

proof fn lemma_sibling_before(rows: Seq<(NodeModel, usize)>, n: int, depth: usize)
    requires
        0 <= n <= rows.len() <= usize::MAX,
    ensures
        match sibling_before(rows, n, depth) {
            Some(p) => p < n && rows[p as int].1 == depth && forall|i: int|
                p < i < n ==> (#[trigger] rows[i]).1 > depth,
            None => forall|i: int|
                0 <= i < n && (#[trigger] rows[i]).1 == depth ==> exists|j: int|
                    i < j < n && (#[trigger] rows[j]).1 < depth,
        },
    decreases n,
{
    if n > 0 {
        if rows[n - 1].1 > depth {
            lemma_sibling_before(rows, n - 1, depth);
        } else if rows[n - 1].1 < depth {
            assert forall|i: int| 0 <= i < n && (#[trigger] rows[i]).1 == depth implies exists|j: int|
                i < j < n && (#[trigger] rows[j]).1 < depth by {
                assert(i < n - 1 < n && rows[n - 1].1 < depth);
            }
        }
    }
}

/// The selection moves by as many rows as asked, up or down, and stops at the first and the
/// last; nothing else changes.
pub proof fn law_moving_stops_at_the_ends(b: Browsing, delta: int)
    requires
        b.selected < b.visible().len() <= usize::MAX,
    ensures
        ({
            let n = b.visible().len();
            let to = b.selected + delta;
            let after = b.moved(delta);
            &&& 0 <= to < n ==> after.selected == to
            &&& to < 0 ==> after.selected == 0
            &&& to >= n ==> after.selected == n - 1
            &&& after == Browsing { selected: after.selected, ..b }
        }),
{
}

/// After the view is scrolled to the selection it shows it; a view that showed it is left
/// alone; and it is scrolled no further than that takes.
pub proof fn law_selection_is_on_screen(b: Browsing, body: int)
    requires
        0 < body <= usize::MAX,
    ensures
        ({
            let after = b.snapped(body);
            &&& after.scroll <= b.selected < after.scroll + body
            &&& b.scroll <= b.selected < b.scroll + body ==> after.scroll == b.scroll
            &&& b.selected < b.scroll ==> after.scroll == b.selected
            &&& b.selected >= b.scroll + body ==> after.scroll + body == b.selected + 1
            &&& after == Browsing { scroll: after.scroll, ..b }
        }),
{
}

/// A view is not scrolled past its end: its rows are filled where there are so many.
pub proof fn law_view_is_filled(b: Browsing, body: int)
    requires
        0 < body,
        b.visible().len() <= usize::MAX,
    ensures
        ({
            let n = b.visible().len();
            let after = b.clamped(body);
            &&& n >= body ==> after.scroll + body <= n
            &&& n < body ==> after.scroll == 0
            &&& after.scroll <= b.scroll
            &&& b.scroll + body <= n ==> after.scroll == b.scroll
            &&& after == Browsing { scroll: after.scroll, ..b }
        }),
{
}

// ---------------------------------------------------------------------------
// Keys

/// Outside of the search `E` leaves every group expanded and `C` every group collapsed; `/`
/// begins a search for nothing; the arrows move the selection by one row; no key changes
/// what is loaded.
pub proof fn law_keys_in_the_tree(b: Browsing, key: KeyEvent, page: int)
    requires
        !b.searching,
    ensures
        key.code == KeyCode::Char('E') ==> groups_are(b.after_key(key, page).0.tree, true),
        key.code == KeyCode::Char('C') ==> groups_are(b.after_key(key, page).0.tree, false),
        key.code == KeyCode::Char('E') || key.code == KeyCode::Char('C') ==> b.after_key(
            key,
            page,
        ).0.selected == 0 && b.after_key(key, page).0.scroll == 0,
        key.code == KeyCode::Char('/') ==> b.after_key(key, page).0.searching && b.after_key(
            key,
            page,
        ).0.query.len() == 0,
        key.code == KeyCode::Char('q') ==> b.after_key(key, page).1 == ActionModel::Quit,
        key.code == KeyCode::Char('y') ==> b.after_key(key, page).1 == ActionModel::ShowCommand,
        key.code == KeyCode::Char('h') ==> b.after_key(key, page).1 == ActionModel::ShowHealth,
        key.code == KeyCode::Char('l') ==> b.after_key(key, page).1 == ActionModel::ShowLegend,
        key.code == KeyCode::Char('R') ==> b.after_key(key, page).1 == ActionModel::Repack,
        key.code == KeyCode::Backspace ==> b.after_key(key, page).1 == ActionModel::Back,
        key.code == KeyCode::Char('\\') ==> b.after_key(key, page).1 == ActionModel::Forward,
        key.code == KeyCode::Char('c') && key.modifiers.control && !key.modifiers.shift
            && !key.modifiers.alt && !key.modifiers.other ==> b.after_key(key, page).1
            == ActionModel::Quit,
        key.code == KeyCode::Char('c') && !key.modifiers.control ==> b.after_key(key, page).1
            == ActionModel::CopyScreen,
        key.code == KeyCode::Up && !key.modifiers.shift && 0 < b.selected < b.rows.len()
            ==> b.after_key(key, page).0.selected == b.selected - 1,
        key.code == KeyCode::Down && !key.modifiers.shift && b.selected + 1 < b.rows.len()
            <= usize::MAX ==> b.after_key(key, page).0.selected == b.selected + 1,
        b.after_key(key, page).0.tensors == b.tensors,
        b.after_key(key, page).0.metadata == b.metadata,
        b.after_key(key, page).0.files == b.files,
{
    law_all_set(b.tree, true);
    law_all_set(b.tree, false);
    assert(foreign_letter(key) is Some ==> key.code is Char && key.code->Char_0 as int >= 128);
}

/// In the search a letter is typed at the caret and Backspace takes the one before it; Escape
/// leaves the search; Home and End go to the first and the last row found; the caret moves
/// within the query.
pub proof fn law_keys_in_the_search(b: Browsing, key: KeyEvent, page: int, c: char)
    requires
        b.searching,
        b.caret <= b.query.len() < usize::MAX,
        b.found.len() <= usize::MAX,
    ensures
        key.code == KeyCode::Char(c) && c != '/' && c != ' ' && !key.modifiers.control ==> ({
            let after = b.after_key(key, page).0;
            &&& after.query == b.query.take(b.caret as int).push(c) + b.query.skip(b.caret as int)
            &&& after.caret == b.caret + 1
            &&& after.searching
        }),
        key.code == KeyCode::Char('/') || key.code == KeyCode::Char(' ') ==> b.after_key(key, page)
            == (b, ActionModel::Stay),
        key.code == KeyCode::Backspace && b.caret > 0 ==> ({
            let after = b.after_key(key, page).0;
            &&& after.query == b.query.take(b.caret - 1) + b.query.skip(b.caret as int)
            &&& after.caret == b.caret - 1
            &&& after.searching
        }),
        key.code == KeyCode::Backspace && b.caret == 0 ==> b.after_key(key, page).0 == b,
        key.code == KeyCode::Esc ==> !b.after_key(key, page).0.searching && b.after_key(
            key,
            page,
        ).0.query.len() == 0,
        key.code == KeyCode::Home ==> b.after_key(key, page).0.selected == 0,
        key.code == KeyCode::End && b.found.len() > 0 ==> b.after_key(key, page).0.selected
            == b.found.len() - 1,
        key.code == KeyCode::Left && !key.modifiers.shift && b.caret > 0 ==> b.after_key(
            key,
            page,
        ).0.caret == b.caret - 1,
        key.code == KeyCode::Right && !key.modifiers.shift && b.caret < b.query.len()
            ==> b.after_key(key, page).0.caret == b.caret + 1,
        key.code == KeyCode::PageDown && 0 <= page && b.selected + page < b.found.len() ==> b.after_key(
            key,
            page,
        ).0.selected == b.selected + page,
        key.code == KeyCode::PageUp && 0 <= page <= b.selected < b.found.len() ==> b.after_key(
            key,
            page,
        ).0.selected == b.selected - page,
        b.after_key(key, page).0.tensors == b.tensors,
        b.after_key(key, page).0.metadata == b.metadata,
{
    if b.caret > 0 {
        assert(b.query.remove(b.caret - 1) =~= b.query.take(b.caret - 1) + b.query.skip(
            b.caret as int,
        ));
    }
    assert(b.query.insert(b.caret as int, c) =~= b.query.take(b.caret as int).push(c) + b.query.skip(
        b.caret as int,
    ));
}

/// Acting on a row opens a tensor, shows a metadata entry, and in the tree turns a group.
pub proof fn law_rows_are_acted_on(b: Browsing)
    requires
        b.selected < b.visible().len(),
    ensures
        ({
            let n = b.visible()[b.selected as int].0;
            &&& n is Tensor ==> b.activated().0 == b && b.activated().1 is Open && (
            b.activated().1->Open_0) == (crate::screens::ScreenModel::Detail {
                tensor: n->Tensor_info.name,
                slice: 0,
            })
            &&& n is Metadata ==> b.activated() == (b, ActionModel::ShowMetadata(n->Metadata_info))
            &&& n is Group && !b.searching ==> b.activated() == (b.with_toggled(), ActionModel::Stay)
        }),
{
}

/// A click on a row selects the row under it; a click outside of the rows does nothing; a
/// click on the arrow of a group turns it.
pub proof fn law_clicks_select_the_row(b: Browsing, row: int, col: int, top: int, bottom: int)
    requires
        top <= row < bottom,
        b.scroll + (row - top) < b.visible().len() <= usize::MAX,
    ensures
        ({
            let i = b.scroll + (row - top);
            let (node, depth) = b.visible()[i];
            let first = b.after_click(row, col, top, bottom, false);
            &&& !(node is Group && col == 2 * depth) ==> first.0 == (Browsing {
                selected: i as usize,
                ..b
            }) && first.1 == ActionModel::Stay && first.2 == ClickMemory::Remember
            &&& !b.searching && node is Group && col == 2 * depth ==> first.0 == (Browsing {
                selected: i as usize,
                ..b
            }).with_toggled() && first.2 == ClickMemory::Forget
        }),
        forall|out: int| #![trigger b.after_click(out, col, top, bottom, false)]
            out < top || out >= bottom ==> b.after_click(out, col, top, bottom, false) == (
                b,
                ActionModel::Stay,
                ClickMemory::Keep,
            ),
{
}

/// What is copied for a tensor is its full name, or the path of its file; the status bar
/// shows both.
pub proof fn law_tensor_rows_tell_name_and_file(b: Browsing)
    requires
        b.selected < b.rows.len(),
        b.rows[b.selected as int].0 is Tensor,
    ensures
        ({
            let info = b.rows[b.selected as int].0->Tensor_info;
            &&& b.path_to_copy() == Some(info.source_path)
            &&& info.name.len() > 0 ==> b.name_to_copy() == Some(
                (info.name, "the full tensor name"@),
            )
            &&& node_status(b.rows[b.selected as int].0).1 == info.name
            &&& node_status(b.rows[b.selected as int].0).2 == info.source_path
        }),
{
}

} // verus!
