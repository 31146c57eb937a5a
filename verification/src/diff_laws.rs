//! What holds of comparisons as a whole.
use vstd::prelude::*;

use crate::diff::{changes, difference, law_same_checkpoint, lemma_filter_all};
use crate::diff::{lemma_names_distinct, meta_changes, no_extras, only_in};
use crate::diff::{row_in, row_names, shared, ChangeModel, ExtrasModel, MetaModel, SigModel};
use crate::diff::{changed_side, coloured_dims, painted, GREEN, RED, RESET};
use crate::diff::{all_change_lines, change_lines, entry_groups, meta_change_line, meta_line, quoted};
use crate::diff::{change_entries, counts_of, shift_line, tensor_line, values_line};
use crate::diff::{delta_text, focus_lines, metadata_rows, tensor_rows, value_text};
use crate::diff::{DiffOpts, DiffReport, GroupCounts, HistBins, HistogramDiff, NoteModel, ReportModel};
use crate::diff::{common_names, CheckpointSummary, TensorSig, ValueCmp, ValueDiff};
use crate::namemap::{has_row, lemma_unique, lemma_with_row, lemma_with_row_ascends, names_ascend, row_value};
use crate::order::{lemma_order, text_order};
use crate::schema::{entry_models, signed};
use crate::schema::{law_each_name_is_a_group, law_single_shows_its_name, shown_name, singles, GroupModel};
use crate::text::{decimal, join, pad_left};
use crate::tree::{MetadataModel, TensorModel};
use crate::units::{number_texts, shape_text};

verus! {

// ---------------------------------------------------------------------------
// Names in order

/// The names ascend strictly.
spec fn ascend(names: Seq<Seq<char>>) -> bool {
    forall|i: int, j: int|
        #![trigger names[i], names[j]]
        0 <= i < j < names.len() ==> text_order(names[i], names[j]) < 0
}

/// Two ascending lists of the same names are the same list.
proof fn lemma_same_names(x: Seq<Seq<char>>, y: Seq<Seq<char>>)
    requires
        ascend(x),
        ascend(y),
        forall|n: Seq<char>| x.contains(n) <==> y.contains(n),
    ensures
        x == y,
    decreases x.len(),
{
    if x.len() == 0 {
        if y.len() > 0 {
            assert(y.contains(y[0]));
            assert(x.contains(y[0]));
        }
        assert(x =~= y);
    } else {
        let (p, q) = (x.last(), y.last());
        assert(x.contains(x[x.len() - 1]));
        assert(y.contains(p));
        let i = choose|i: int| 0 <= i < y.len() && y[i] == p;
        assert(y.contains(y[y.len() - 1]));
        assert(x.contains(q));
        let j = choose|j: int| 0 <= j < x.len() && x[j] == q;
        lemma_order(p, q, p);
        lemma_order(p, p, p);
        if i < y.len() - 1 {
            assert(text_order(y[i], y[y.len() - 1]) < 0);
            if j < x.len() - 1 {
                assert(text_order(x[j], x[x.len() - 1]) < 0);
            }
            assert(false);
        }
        assert(p == q);
        let (s, t) = (x.drop_last(), y.drop_last());
        assert(ascend(s)) by {
            assert forall|i: int, j: int| #![trigger s[i], s[j]] 0 <= i < j < s.len() implies text_order(
                s[i],
                s[j],
            ) < 0 by {
                assert(s[i] == x[i] && s[j] == x[j]);
            }
        }
        assert(ascend(t)) by {
            assert forall|i: int, j: int| #![trigger t[i], t[j]] 0 <= i < j < t.len() implies text_order(
                t[i],
                t[j],
            ) < 0 by {
                assert(t[i] == y[i] && t[j] == y[j]);
            }
        }
        assert forall|n: Seq<char>| s.contains(n) <==> t.contains(n) by {
            if s.contains(n) {
                lemma_before_last(x, y, n);
            }
            if t.contains(n) {
                lemma_before_last(y, x, n);
            }
        }
        lemma_same_names(s, t);
        assert(x =~= s.push(p));
        assert(y =~= t.push(q));
    }
}

/// A name before the last of an ascending list is before the last of another that holds
/// it and has the same last.
proof fn lemma_before_last(x: Seq<Seq<char>>, y: Seq<Seq<char>>, n: Seq<char>)
    requires
        ascend(x),
        x.len() > 0,
        y.len() > 0,
        x.last() == y.last(),
        forall|m: Seq<char>| x.contains(m) <==> y.contains(m),
        x.drop_last().contains(n),
    ensures
        y.drop_last().contains(n),
{
    let s = x.drop_last();
    let i = choose|i: int| 0 <= i < s.len() && s[i] == n;
    assert(x[i] == n);
    assert(text_order(x[i], x[x.len() - 1]) < 0);
    lemma_order(n, n, n);
    assert(n != x.last());
    assert(x.contains(n));
    assert(y.contains(n));
    let j = choose|j: int| 0 <= j < y.len() && y[j] == n;
    assert(y.drop_last()[j] == n);
}

/// Filtering keeps the order of the names.
pub proof fn lemma_filter_ascends<T>(
    rows: Seq<(Seq<char>, T)>,
    keep: spec_fn((Seq<char>, T)) -> bool,
)
    requires
        names_ascend(rows),
    ensures
        names_ascend(rows.filter(keep)),
    decreases rows.len(),
{
    reveal(Seq::filter);
    if rows.len() > 0 {
        let t = rows.drop_last();
        let e = rows.last();
        assert(names_ascend(t)) by {
            assert forall|i: int, j: int| #![trigger t[i], t[j]] 0 <= i < j < t.len() implies text_order(
                t[i].0,
                t[j].0,
            ) < 0 by {
                assert(t[i] == rows[i] && t[j] == rows[j]);
            }
        }
        lemma_filter_ascends(t, keep);
        let f = t.filter(keep);
        let r = rows.filter(keep);
        if keep(e) {
            assert(r == f.push(e));
            assert forall|i: int, j: int| #![trigger r[i], r[j]] 0 <= i < j < r.len() implies text_order(
                r[i].0,
                r[j].0,
            ) < 0 by {
                if j < f.len() {
                    assert(r[i] == f[i] && r[j] == f[j]);
                } else {
                    assert(f.contains(f[i]));
                    t.lemma_filter_contains_rev(keep, f[i]);
                    let k = choose|k: int| 0 <= k < t.len() && t[k] == f[i];
                    assert(rows[k] == f[i]);
                    assert(text_order(rows[k].0, rows[rows.len() - 1].0) < 0);
                }
            }
        } else {
            assert(r == f);
        }
    }
}

/// What is in both lists stands in the same order in each, and what one list has under a
/// name is found there.
proof fn lemma_shared_pairs<T>(a: Seq<(Seq<char>, T)>, b: Seq<(Seq<char>, T)>)
    requires
        names_ascend(a),
        names_ascend(b),
    ensures
        shared(a, b).len() == shared(b, a).len(),
        forall|i: int|
            #![trigger shared(a, b)[i]]
            #![trigger shared(b, a)[i]]
            0 <= i < shared(a, b).len() ==> shared(a, b)[i].0 == shared(b, a)[i].0 && row_value(
                b,
                shared(a, b)[i].0,
            ) == shared(b, a)[i].1 && row_value(a, shared(a, b)[i].0) == shared(a, b)[i].1,
{
    let (x, y) = (shared(a, b), shared(b, a));
    lemma_filter_ascends(a, row_in(b, true));
    lemma_filter_ascends(b, row_in(a, true));
    lemma_names_distinct(a, b);
    lemma_names_distinct(b, a);
    let (p, q) = (row_names(x), row_names(y));
    assert(ascend(p)) by {
        assert forall|i: int, j: int| #![trigger p[i], p[j]] 0 <= i < j < p.len() implies text_order(
            p[i],
            p[j],
        ) < 0 by {
            assert(p[i] == x[i].0 && p[j] == x[j].0);
        }
    }
    assert(ascend(q)) by {
        assert forall|i: int, j: int| #![trigger q[i], q[j]] 0 <= i < j < q.len() implies text_order(
            q[i],
            q[j],
        ) < 0 by {
            assert(q[i] == y[i].0 && q[j] == y[j].0);
        }
    }
    lemma_same_names(p, q);
    assert(x.len() == p.len() && y.len() == q.len());
    assert forall|i: int| 0 <= i < x.len() implies #[trigger] x[i].0 == y[i].0 && row_value(
        b,
        x[i].0,
    ) == y[i].1 && row_value(a, x[i].0) == x[i].1 by {
        assert(p[i] == x[i].0 && q[i] == y[i].0);
        lemma_from(a, row_in(b, true), i);
        lemma_from(b, row_in(a, true), i);
    }
    assert forall|i: int| 0 <= i < x.len() implies x[i].0 == (#[trigger] y[i]).0 && row_value(
        b,
        x[i].0,
    ) == y[i].1 && row_value(a, x[i].0) == x[i].1 by {
        assert(x[i].0 == y[i].0);
    }
}

/// A filtered row is what the list has under its name.
proof fn lemma_from<T>(rows: Seq<(Seq<char>, T)>, keep: spec_fn((Seq<char>, T)) -> bool, i: int)
    requires
        names_ascend(rows),
        0 <= i < rows.filter(keep).len(),
    ensures
        row_value(rows, rows.filter(keep)[i].0) == rows.filter(keep)[i].1,
{
    let f = rows.filter(keep);
    assert(f.contains(f[i]));
    rows.lemma_filter_contains_rev(keep, f[i]);
    let k = choose|k: int| 0 <= k < rows.len() && rows[k] == f[i];
    lemma_unique(rows, f[i].0, k);
}

// ---------------------------------------------------------------------------
// The other order

/// A change seen from the other side.
pub open spec fn mirrored(c: ChangeModel) -> ChangeModel {
    ChangeModel { old_sig: c.new_sig, new_sig: c.old_sig, ..c }
}

/// A metadata change seen from the other side.
pub open spec fn meta_mirrored(c: (Seq<char>, (MetaModel, MetaModel))) -> (
    Seq<char>,
    (MetaModel, MetaModel),
) {
    (c.0, (c.1.1, c.1.0))
}

proof fn lemma_changes_mirror(
    a: Seq<(Seq<char>, SigModel)>,
    b: Seq<(Seq<char>, SigModel)>,
    extras: Seq<ExtrasModel>,
    n: int,
)
    requires
        names_ascend(a),
        names_ascend(b),
        0 <= n <= shared(a, b).len(),
    ensures
        shared(a, b).len() == shared(b, a).len(),
        changes(shared(b, a).take(n), a, extras) == changes(
            shared(a, b).take(n),
            b,
            extras,
        ).map_values(|c: ChangeModel| mirrored(c)),
    decreases n,
{
    lemma_shared_pairs(a, b);
    let (x, y) = (shared(a, b), shared(b, a));
    let flip = |c: ChangeModel| mirrored(c);
    if n == 0 {
        assert(changes(y.take(0), a, extras) =~= changes(x.take(0), b, extras).map_values(flip));
    } else {
        let e = extras.drop_last();
        lemma_changes_mirror(a, b, e, n - 1);
        assert(x.take(n).drop_last() =~= x.take(n - 1));
        assert(y.take(n).drop_last() =~= y.take(n - 1));
        assert(x.take(n).last() == x[n - 1]);
        assert(y.take(n).last() == y[n - 1]);
        assert(changes(y.take(n), a, extras) =~= changes(x.take(n), b, extras).map_values(flip));
    }
}

proof fn lemma_meta_changes_mirror(
    a: Seq<(Seq<char>, MetaModel)>,
    b: Seq<(Seq<char>, MetaModel)>,
    n: int,
)
    requires
        names_ascend(a),
        names_ascend(b),
        0 <= n <= shared(a, b).len(),
    ensures
        shared(a, b).len() == shared(b, a).len(),
        meta_changes(shared(b, a).take(n), a) == meta_changes(shared(a, b).take(n), b).map_values(
            |c: (Seq<char>, (MetaModel, MetaModel))| meta_mirrored(c),
        ),
    decreases n,
{
    lemma_shared_pairs(a, b);
    let (x, y) = (shared(a, b), shared(b, a));
    let flip = |c: (Seq<char>, (MetaModel, MetaModel))| meta_mirrored(c);
    if n == 0 {
        assert(meta_changes(y.take(0), a) =~= meta_changes(x.take(0), b).map_values(flip));
    } else {
        lemma_meta_changes_mirror(a, b, n - 1);
        assert(x.take(n).drop_last() =~= x.take(n - 1));
        assert(y.take(n).drop_last() =~= y.take(n - 1));
        assert(x.take(n).last() == x[n - 1]);
        assert(y.take(n).last() == y[n - 1]);
        assert(meta_changes(y.take(n), a) =~= meta_changes(x.take(n), b).map_values(flip));
    }
}

/// Comparing in the other order mirrors the comparison: what was added is removed and the
/// other way round, each change has its sides swapped, in the same order, and as much is
/// unchanged.
pub proof fn law_other_order_mirrors(
    old_t: Seq<(Seq<char>, SigModel)>,
    new_t: Seq<(Seq<char>, SigModel)>,
    old_m: Seq<(Seq<char>, MetaModel)>,
    new_m: Seq<(Seq<char>, MetaModel)>,
    extras: Seq<ExtrasModel>,
)
    requires
        names_ascend(old_t),
        names_ascend(new_t),
        names_ascend(old_m),
        names_ascend(new_m),
    ensures
        ({
            let d = difference(old_t, new_t, old_m, new_m, extras);
            let s = difference(new_t, old_t, new_m, old_m, extras);
            &&& s.tensors_added == d.tensors_removed
            &&& s.tensors_removed == d.tensors_added
            &&& s.tensors_changed == d.tensors_changed.map_values(|c: ChangeModel| mirrored(c))
            &&& s.tensors_unchanged == d.tensors_unchanged
            &&& s.meta_added == d.meta_removed
            &&& s.meta_removed == d.meta_added
            &&& s.meta_changed == d.meta_changed.map_values(
                |c: (Seq<char>, (MetaModel, MetaModel))| meta_mirrored(c),
            )
            &&& s.meta_unchanged == d.meta_unchanged
        }),
        shared(old_t, new_t).len() == shared(new_t, old_t).len(),
{
    let n = shared(old_t, new_t).len() as int;
    lemma_changes_mirror(old_t, new_t, extras, n);
    assert(shared(old_t, new_t).take(n) =~= shared(old_t, new_t));
    assert(shared(new_t, old_t).take(n) =~= shared(new_t, old_t));
    let m = shared(old_m, new_m).len() as int;
    lemma_meta_changes_mirror(old_m, new_m, m);
    assert(shared(old_m, new_m).take(m) =~= shared(old_m, new_m));
    assert(shared(new_m, old_m).take(m) =~= shared(new_m, old_m));
}

// ---------------------------------------------------------------------------
// No difference

proof fn lemma_none_only<T>(a: Seq<(Seq<char>, T)>, b: Seq<(Seq<char>, T)>)
    requires
        only_in(a, b).len() == 0,
    ensures
        shared(a, b) == a,
{
    assert forall|i: int| 0 <= i < a.len() implies row_in(b, true)(#[trigger] a[i]) by {
        if !has_row(b, a[i].0) {
            assert(row_in(b, false)(a[i]));
            a.lemma_filter_contains(row_in(b, false), i);
            assert(only_in(a, b).contains(a[i]));
        }
    }
    lemma_filter_all(a, row_in(b, true));
}

proof fn lemma_unchanged(
    both: Seq<(Seq<char>, SigModel)>,
    new_rows: Seq<(Seq<char>, SigModel)>,
    extras: Seq<ExtrasModel>,
    i: int,
)
    requires
        changes(both, new_rows, extras).len() == 0,
        0 <= i < both.len(),
    ensures
        row_value(new_rows, both[i].0) == both[i].1,
    decreases both.len(),
{
    if i < both.len() - 1 {
        lemma_unchanged(both.drop_last(), new_rows, extras.drop_last(), i);
    }
}

proof fn lemma_meta_unchanged(
    both: Seq<(Seq<char>, MetaModel)>,
    new_rows: Seq<(Seq<char>, MetaModel)>,
    i: int,
)
    requires
        meta_changes(both, new_rows).len() == 0,
        0 <= i < both.len(),
    ensures
        row_value(new_rows, both[i].0) == both[i].1,
    decreases both.len(),
{
    if i < both.len() - 1 {
        lemma_meta_unchanged(both.drop_last(), new_rows, i);
    }
}

/// Where nothing differs, whatever was found about the tensors, both sides hold the same.
pub proof fn law_no_difference_is_sameness(
    old_t: Seq<(Seq<char>, SigModel)>,
    new_t: Seq<(Seq<char>, SigModel)>,
    old_m: Seq<(Seq<char>, MetaModel)>,
    new_m: Seq<(Seq<char>, MetaModel)>,
    extras: Seq<ExtrasModel>,
)
    requires
        names_ascend(old_t),
        names_ascend(new_t),
        names_ascend(old_m),
        names_ascend(new_m),
        !difference(old_t, new_t, old_m, new_m, extras).any(),
    ensures
        old_t == new_t,
        old_m == new_m,
{
    lemma_none_only(old_t, new_t);
    lemma_none_only(new_t, old_t);
    lemma_shared_pairs(old_t, new_t);
    assert forall|i: int| 0 <= i < old_t.len() implies #[trigger] old_t[i] == new_t[i] by {
        lemma_unchanged(shared(old_t, new_t), new_t, extras, i);
        assert(shared(old_t, new_t)[i] == old_t[i]);
    }
    assert(old_t =~= new_t);
    lemma_none_only(old_m, new_m);
    lemma_none_only(new_m, old_m);
    lemma_shared_pairs(old_m, new_m);
    assert forall|i: int| 0 <= i < old_m.len() implies #[trigger] old_m[i] == new_m[i] by {
        lemma_meta_unchanged(shared(old_m, new_m), new_m, i);
        assert(shared(old_m, new_m)[i] == old_m[i]);
    }
    assert(old_m =~= new_m);
}

/// A structural comparison shows a difference exactly where the checkpoints are not the
/// same, in tensors or in metadata.
pub proof fn law_differences_show(
    old_t: Seq<(Seq<char>, SigModel)>,
    new_t: Seq<(Seq<char>, SigModel)>,
    old_m: Seq<(Seq<char>, MetaModel)>,
    new_m: Seq<(Seq<char>, MetaModel)>,
)
    requires
        names_ascend(old_t),
        names_ascend(new_t),
        names_ascend(old_m),
        names_ascend(new_m),
    ensures
        difference(
            old_t,
            new_t,
            old_m,
            new_m,
            no_extras(shared(old_t, new_t).len()),
        ).any() <==> old_t != new_t || old_m != new_m,
{
    let extras = no_extras(shared(old_t, new_t).len());
    if !difference(old_t, new_t, old_m, new_m, extras).any() {
        law_no_difference_is_sameness(old_t, new_t, old_m, new_m, extras);
    }
    if old_t == new_t && old_m == new_m {
        assert forall|i: int| 0 <= i < old_t.len() implies row_in(old_t, true)(#[trigger] old_t[i]) by {
            assert(has_row(old_t, old_t[i].0));
        }
        lemma_filter_all(old_t, row_in(old_t, true));
        law_same_checkpoint(old_t, old_m, extras);
    }
}

// ---------------------------------------------------------------------------
// A narrower comparison

proof fn lemma_changes_push(
    both: Seq<(Seq<char>, SigModel)>,
    e: (Seq<char>, SigModel),
    rows: Seq<(Seq<char>, SigModel)>,
)
    ensures
        changes(both.push(e), rows, no_extras(both.len() + 1)) == if row_value(rows, e.0) != e.1 {
            changes(both, rows, no_extras(both.len())).push(
                ChangeModel {
                    name: e.0,
                    old_sig: e.1,
                    new_sig: row_value(rows, e.0),
                    values: None,
                    histogram: None,
                },
            )
        } else {
            changes(both, rows, no_extras(both.len()))
        },
{
    let extras = no_extras(both.len() + 1);
    assert(both.push(e).drop_last() =~= both);
    assert(extras.drop_last() =~= no_extras(both.len()));
    assert(!extras.last().differ());
}

/// The changes among the kept tensors are the kept changes.
pub proof fn lemma_changes_narrow(
    both: Seq<(Seq<char>, SigModel)>,
    keep: spec_fn((Seq<char>, SigModel)) -> bool,
    keep_change: spec_fn(ChangeModel) -> bool,
    rows: Seq<(Seq<char>, SigModel)>,
    kept_rows: Seq<(Seq<char>, SigModel)>,
)
    requires
        forall|e: (Seq<char>, SigModel), c: ChangeModel|
            e.0 == c.name ==> #[trigger] keep(e) == #[trigger] keep_change(c),
        forall|e: (Seq<char>, SigModel)|
            #[trigger] both.contains(e) && keep(e) ==> row_value(kept_rows, e.0) == row_value(
                rows,
                e.0,
            ),
    ensures
        changes(both.filter(keep), kept_rows, no_extras(both.filter(keep).len())) == changes(
            both,
            rows,
            no_extras(both.len()),
        ).filter(keep_change),
    decreases both.len(),
{
    if both.len() == 0 {
        both.lemma_filter_len(keep);
        assert(both.filter(keep) =~= both);
        let none = changes(both, rows, no_extras(0));
        none.lemma_filter_len(keep_change);
        assert(none.filter(keep_change) =~= none);
    } else {
        let t = both.drop_last();
        let e = both.last();
        assert(both =~= t.push(e));
        assert forall|x: (Seq<char>, SigModel)| #[trigger] t.contains(x) && keep(x) implies row_value(
            kept_rows,
            x.0,
        ) == row_value(rows, x.0) by {
            let i = choose|i: int| 0 <= i < t.len() && t[i] == x;
            assert(both[i] == x);
            assert(both.contains(x));
        }
        lemma_changes_narrow(t, keep, keep_change, rows, kept_rows);
        t.lemma_filter_push(e, keep);
        lemma_changes_push(t, e, rows);
        let before = changes(t, rows, no_extras(t.len()));
        let c = ChangeModel {
            name: e.0,
            old_sig: e.1,
            new_sig: row_value(rows, e.0),
            values: None,
            histogram: None,
        };
        before.lemma_filter_push(c, keep_change);
        assert(keep(e) == keep_change(c));
        assert(both[both.len() - 1] == e);
        assert(both.contains(e));
        if keep(e) {
            lemma_changes_push(t.filter(keep), e, kept_rows);
        }
    }
}

// ---------------------------------------------------------------------------
// Colour

/// A text without the codes that colour it red or green and end the colour.
pub open spec fn uncoloured(s: Seq<char>) -> Seq<char>
    decreases s.len(),
{
    if s.len() == 0 {
        s
    } else if RED@.len() == 5 && RED@.is_prefix_of(s) {
        uncoloured(s.skip(5))
    } else if GREEN@.len() == 5 && GREEN@.is_prefix_of(s) {
        uncoloured(s.skip(5))
    } else if RESET@.len() == 4 && RESET@.is_prefix_of(s) {
        uncoloured(s.skip(4))
    } else {
        seq![s[0]] + uncoloured(s.skip(1))
    }
}

/// No character starts a control sequence.
pub open spec fn without_escapes(s: Seq<char>) -> bool {
    forall|i: int| 0 <= i < s.len() ==> #[trigger] s[i] != '\x1b'
}

proof fn lemma_codes()
    ensures
        RED@.len() == 5,
        GREEN@.len() == 5,
        RESET@.len() == 4,
        RED@[0] == '\x1b',
        GREEN@[0] == '\x1b',
        RESET@[0] == '\x1b',
        RED@[2] == '3',
        GREEN@[2] == '3',
        RESET@[2] == '0',
        RED@[3] == '1',
        GREEN@[3] == '2',
{
    reveal_strlit("\x1b[31m");
    reveal_strlit("\x1b[32m");
    reveal_strlit("\x1b[0m");
}

/// A text without control sequences stays as it is.
proof fn lemma_plain_stays(s: Seq<char>, rest: Seq<char>)
    requires
        without_escapes(s),
    ensures
        uncoloured(s + rest) == s + uncoloured(rest),
    decreases s.len(),
{
    lemma_codes();
    if s.len() == 0 {
        assert(s + rest =~= rest);
        assert(s + uncoloured(rest) =~= uncoloured(rest));
    } else {
        let all = s + rest;
        let t = s.skip(1);
        assert(all[0] == s[0]);
        assert(all.skip(1) =~= t + rest);
        assert(without_escapes(t)) by {
            assert forall|i: int| 0 <= i < t.len() implies #[trigger] t[i] != '\x1b' by {
                assert(t[i] == s[i + 1]);
            }
        }
        lemma_plain_stays(t, rest);
        assert(!RED@.is_prefix_of(all) && !GREEN@.is_prefix_of(all) && !RESET@.is_prefix_of(all));
        assert(seq![s[0]] + (t + uncoloured(rest)) =~= s + uncoloured(rest));
    }
}

/// A code is taken out.
proof fn lemma_code_goes(code: Seq<char>, rest: Seq<char>)
    requires
        code == RED@ || code == GREEN@ || code == RESET@,
    ensures
        uncoloured(code + rest) == uncoloured(rest),
{
    lemma_codes();
    let all = code + rest;
    assert(code.is_prefix_of(all)) by {
        assert(all.subrange(0, code.len() as int) =~= code);
    }
    assert(all[2] == code[2] && all[3] == code[3]);
    assert(all.skip(code.len() as int) =~= rest);
    if code != RED@ {
        assert(!RED@.is_prefix_of(all)) by {
            if RED@.is_prefix_of(all) {
                assert(RED@[2] == all[2] && RED@[3] == all[3]);
            }
        }
    }
    if code == RESET@ {
        assert(!GREEN@.is_prefix_of(all)) by {
            if GREEN@.is_prefix_of(all) {
                assert(GREEN@[2] == all[2]);
            }
        }
    }
}

/// What is painted shows its text.
proof fn lemma_painted_shows(text: Seq<char>, on: bool, code: Seq<char>, rest: Seq<char>)
    requires
        without_escapes(text),
        code == RED@ || code == GREEN@,
    ensures
        uncoloured(painted(text, on, code) + rest) == text + uncoloured(rest),
{
    if on {
        assert(painted(text, on, code) + rest =~= code + (text + (RESET@ + rest)));
        lemma_code_goes(code, text + (RESET@ + rest));
        lemma_plain_stays(text, RESET@ + rest);
        lemma_code_goes(RESET@, rest);
    } else {
        lemma_plain_stays(text, rest);
    }
}

proof fn lemma_decimal_plain(n: nat)
    ensures
        without_escapes(decimal(n)),
    decreases n,
{
    if n >= 10 {
        lemma_decimal_plain(n / 10);
    }
}

proof fn lemma_join_plain(parts: Seq<Seq<char>>, sep: Seq<char>)
    requires
        forall|i: int| 0 <= i < parts.len() ==> without_escapes(#[trigger] parts[i]),
        without_escapes(sep),
    ensures
        without_escapes(join(parts, sep)),
    decreases parts.len(),
{
    if parts.len() > 1 {
        let t = parts.drop_last();
        assert forall|i: int| 0 <= i < t.len() implies without_escapes(#[trigger] t[i]) by {
            assert(t[i] == parts[i]);
        }
        lemma_join_plain(t, sep);
        assert(without_escapes(parts[parts.len() - 1]));
    } else if parts.len() == 1 {
        assert(without_escapes(parts[0]));
    }
}

proof fn lemma_dims_plain(shape: Seq<usize>)
    ensures
        forall|i: int|
            0 <= i < number_texts(shape).len() ==> without_escapes(#[trigger] number_texts(shape)[i]),
        without_escapes(join(number_texts(shape), ", "@)),
        without_escapes(shape_text(shape)),
{
    reveal_strlit(", ");
    reveal_strlit("(");
    reveal_strlit(")");
    let v = number_texts(shape);
    assert forall|i: int| 0 <= i < v.len() implies without_escapes(#[trigger] v[i]) by {
        lemma_decimal_plain(shape[i] as nat);
    }
    lemma_join_plain(v, ", "@);
}

/// The coloured dimensions show the dimensions.
proof fn lemma_dims_show(own: Seq<usize>, other: Seq<usize>, code: Seq<char>, rest: Seq<char>)
    requires
        own.len() == other.len(),
        code == RED@ || code == GREEN@,
    ensures
        uncoloured(join(coloured_dims(own, other, code), ", "@) + rest) == join(
            number_texts(own),
            ", "@,
        ) + uncoloured(rest),
    decreases own.len(),
{
    let dims = coloured_dims(own, other, code);
    let plain = number_texts(own);
    let sep = ", "@;
    if own.len() == 0 {
        assert(join(dims, sep) + rest =~= rest);
        assert(join(plain, sep) + uncoloured(rest) =~= uncoloured(rest));
    } else {
        let k = own.len() - 1;
        let last = decimal(own[k] as nat);
        lemma_decimal_plain(own[k] as nat);
        assert(dims[k] == painted(last, own[k] != other[k], code));
        assert(plain[k] == last);
        lemma_painted_shows(last, own[k] != other[k], code, rest);
        if own.len() > 1 {
            reveal_strlit(", ");
            let (a, b) = (own.drop_last(), other.drop_last());
            assert(dims.drop_last() =~= coloured_dims(a, b, code));
            assert(plain.drop_last() =~= number_texts(a));
            let tail = sep + (dims[k] + rest);
            lemma_dims_show(a, b, code, tail);
            lemma_plain_stays(sep, dims[k] + rest);
            assert(join(dims, sep) + rest =~= join(dims.drop_last(), sep) + tail);
            assert(join(plain, sep) + uncoloured(rest) =~= join(plain.drop_last(), sep) + (sep + (
            last + uncoloured(rest))));
        }
    }
}

/// Colour changes no visible text of a changed signature: without the codes the coloured
/// side is the plain one, which holds none.
pub proof fn law_colour_changes_no_text(own: SigModel, other: SigModel, code: Seq<char>)
    requires
        without_escapes(own.dtype),
        code == RED@ || code == GREEN@,
    ensures
        uncoloured(changed_side(own, other, true, code)) == changed_side(own, other, false, code),
        without_escapes(changed_side(own, other, false, code)),
{
    reveal_strlit(" ");
    reveal_strlit("(");
    reveal_strlit(")");
    lemma_dims_plain(own.shape);
    let changed = own.dtype != other.dtype;
    let none = Seq::<char>::empty();
    let shape = shape_text(own.shape);
    let shown = if own.shape.len() != other.shape.len() {
        painted(shape, true, code)
    } else {
        "("@ + join(coloured_dims(own.shape, other.shape, code), ", "@) + ")"@
    };
    assert(changed_side(own, other, true, code) =~= painted(own.dtype, changed, code) + (" "@
        + shown));
    lemma_painted_shows(own.dtype, changed, code, " "@ + shown);
    lemma_plain_stays(" "@, shown);
    assert(uncoloured(shown) == shape) by {
        if own.shape.len() != other.shape.len() {
            assert(shown =~= shown + none);
            lemma_painted_shows(shape, true, code, none);
            assert(shape + none =~= shape);
        } else {
            let dims = join(coloured_dims(own.shape, other.shape, code), ", "@);
            assert(shown =~= "("@ + (dims + ")"@));
            lemma_plain_stays("("@, dims + ")"@);
            lemma_dims_show(own.shape, other.shape, code, ")"@);
            lemma_plain_stays(")"@, none);
            assert(")"@ + none =~= ")"@);
            assert("("@ + (join(number_texts(own.shape), ", "@) + ")"@) =~= shape);
        }
    }
    assert(own.dtype + (" "@ + shape) =~= changed_side(own, other, false, code));
}

// ---------------------------------------------------------------------------
// What a rendered comparison lists

/// A name stands in the rows.
pub open spec fn listed<T>(rows: Seq<(Seq<char>, T)>, name: Seq<char>) -> bool {
    exists|i: int| 0 <= i < rows.len() && (#[trigger] rows[i]).0 == name
}

/// A line of text behind two spaces, all but the spaces in a colour where `on`.
pub open spec fn in_colour(on: bool, code: Seq<char>, text: Seq<char>) -> Seq<char> {
    if on {
        "  "@ + (code + text + "\x1b[0m"@)
    } else {
        "  "@ + text
    }
}

/// A tensor behind a mark, with its dtype and shape in brackets.
pub open spec fn marked_tensor(mark: Seq<char>, row: (Seq<char>, SigModel)) -> Seq<char> {
    mark + row.0 + "  ["@ + (row.1.dtype + " "@ + shape_text(row.1.shape)) + "]"@
}

/// A metadata entry behind a mark, with its value.
pub open spec fn marked_entry(mark: Seq<char>, row: (Seq<char>, MetaModel)) -> Seq<char> {
    mark + row.0 + " = "@ + quoted(row.1.value)
}

proof fn lemma_only_in<T>(a: Seq<(Seq<char>, T)>, b: Seq<(Seq<char>, T)>)
    ensures
        forall|i: int|
            0 <= i < a.len() && !listed(b, (#[trigger] a[i]).0) ==> only_in(a, b).contains(a[i]),
        forall|i: int|
            0 <= i < only_in(a, b).len() ==> a.contains(#[trigger] only_in(a, b)[i]) && !listed(
                b,
                only_in(a, b)[i].0,
            ),
{
    let keep = row_in(b, false);
    assert forall|n: Seq<char>| listed(b, n) == has_row(b, n) by {}
    assert forall|i: int| 0 <= i < a.len() && !listed(b, (#[trigger] a[i]).0) implies only_in(
        a,
        b,
    ).contains(a[i]) by {
        assert(keep(a[i]));
        a.lemma_filter_contains(keep, i);
    }
    assert forall|i: int| 0 <= i < only_in(a, b).len() implies a.contains(
        #[trigger] only_in(a, b)[i],
    ) && !listed(b, only_in(a, b)[i].0) by {
        let x = only_in(a, b)[i];
        assert(a.filter(keep).contains(x));
        a.lemma_filter_contains_rev(keep, x);
        lemma_filter_keeps(a, keep, i);
    }
}

proof fn lemma_filter_keeps<T>(s: Seq<T>, keep: spec_fn(T) -> bool, i: int)
    requires
        0 <= i < s.filter(keep).len(),
    ensures
        keep(s.filter(keep)[i]),
{
    s.lemma_filter_pred(keep, i);
}

proof fn lemma_single_tensor_line(
    rows: Seq<(Seq<char>, SigModel)>,
    i: int,
    mark: Seq<char>,
    code: Seq<char>,
    color: bool,
)
    requires
        0 <= i < rows.len(),
    ensures
        entry_groups(rows, false).map_values(tensor_line(mark, code, color)).len() == rows.len(),
        entry_groups(rows, false).map_values(tensor_line(mark, code, color))[i] == in_colour(
            color,
            code,
            marked_tensor(mark, rows[i]),
        ),
{
    law_single_shows_its_name(rows, i);
    reveal_strlit("");
    let g = singles(rows)[i];
    let l = tensor_line(mark, code, color)(g);
    assert(l =~= in_colour(color, code, marked_tensor(mark, rows[i])));
}

proof fn lemma_single_meta_line(
    rows: Seq<(Seq<char>, MetaModel)>,
    i: int,
    mark: Seq<char>,
    code: Seq<char>,
    color: bool,
)
    requires
        0 <= i < rows.len(),
    ensures
        entry_groups(rows, false).map_values(meta_line(mark, code, color)).len() == rows.len(),
        entry_groups(rows, false).map_values(meta_line(mark, code, color))[i] == in_colour(
            color,
            code,
            marked_entry(mark, rows[i]),
        ),
{
    law_single_shows_its_name(rows, i);
    reveal_strlit("");
    let g = singles(rows)[i];
    let l = meta_line(mark, code, color)(g);
    assert(l =~= in_colour(color, code, marked_entry(mark, rows[i])));
}

/// A rendered comparison lists behind a `-` every tensor that the new checkpoint lacks, and
/// behind a `+` every tensor that the old one lacks, with dtype and shape: the first in
/// red and the second in green where it is coloured. With the metadata shown, the same
/// holds of its entries. The first lines name the two sides.
pub proof fn law_rendered_comparison_lists(
    old_t: Seq<(Seq<char>, SigModel)>,
    new_t: Seq<(Seq<char>, SigModel)>,
    old_m: Seq<(Seq<char>, MetaModel)>,
    new_m: Seq<(Seq<char>, MetaModel)>,
    extras: Seq<ExtrasModel>,
    old_label: Seq<char>,
    new_label: Seq<char>,
    opts: DiffOpts,
    notes: Seq<NoteModel>,
)
    requires
        !opts.group,
    ensures
        ({
            let ls = difference(old_t, new_t, old_m, new_m, extras).lines(
                old_label,
                new_label,
                opts,
                notes,
            );
            &&& ls.len() > 2 && ls[0] == "--- "@ + old_label && ls[1] == "+++ "@ + new_label
            &&& forall|i: int|
                0 <= i < old_t.len() && !listed(new_t, (#[trigger] old_t[i]).0) ==> ls.contains(
                    in_colour(opts.color, "\x1b[31m"@, marked_tensor("- "@, old_t[i])),
                )
            &&& forall|i: int|
                0 <= i < new_t.len() && !listed(old_t, (#[trigger] new_t[i]).0) ==> ls.contains(
                    in_colour(opts.color, "\x1b[32m"@, marked_tensor("+ "@, new_t[i])),
                )
            &&& opts.metadata ==> forall|i: int|
                0 <= i < old_m.len() && !listed(new_m, (#[trigger] old_m[i]).0) ==> ls.contains(
                    in_colour(opts.color, "\x1b[31m"@, marked_entry("- "@, old_m[i])),
                )
            &&& opts.metadata ==> forall|i: int|
                0 <= i < new_m.len() && !listed(old_m, (#[trigger] new_m[i]).0) ==> ls.contains(
                    in_colour(opts.color, "\x1b[32m"@, marked_entry("+ "@, new_m[i])),
                )
        }),
{
    let d = difference(old_t, new_t, old_m, new_m, extras);
    let ls = d.lines(old_label, new_label, opts, notes);
    let head = d.header_lines(old_label, new_label, opts);
    let minus = entry_groups(d.tensors_removed, opts.group).map_values(
        tensor_line("- "@, RED@, opts.color),
    );
    let plus = entry_groups(d.tensors_added, opts.group).map_values(
        tensor_line("+ "@, GREEN@, opts.color),
    );
    let changed = all_change_lines(
        d.change_groups(opts),
        d.tensors_changed,
        notes,
        opts,
        d.change_groups(opts).len(),
    );
    let meta = d.metadata_lines(opts);
    assert(ls == head + minus + plus + changed + meta);
    lemma_only_in(old_t, new_t);
    lemma_only_in(new_t, old_t);
    lemma_only_in(old_m, new_m);
    lemma_only_in(new_m, old_m);
    assert(ls[0] == head[0] && ls[1] == head[1]);
    assert forall|i: int| 0 <= i < old_t.len() && !listed(new_t, (#[trigger] old_t[i]).0) implies
        ls.contains(in_colour(opts.color, "\x1b[31m"@, marked_tensor("- "@, old_t[i]))) by {
        let k = d.tensors_removed.index_of(old_t[i]);
        lemma_single_tensor_line(d.tensors_removed, k, "- "@, RED@, opts.color);
        assert(ls[head.len() + k] == minus[k]);
    }
    assert forall|i: int| 0 <= i < new_t.len() && !listed(old_t, (#[trigger] new_t[i]).0) implies
        ls.contains(in_colour(opts.color, "\x1b[32m"@, marked_tensor("+ "@, new_t[i]))) by {
        let k = d.tensors_added.index_of(new_t[i]);
        lemma_single_tensor_line(d.tensors_added, k, "+ "@, GREEN@, opts.color);
        assert(ls[head.len() + minus.len() + k] == plus[k]);
    }
    if opts.metadata {
        let before = head.len() + minus.len() + plus.len() + changed.len();
        let gone = entry_groups(d.meta_removed, opts.group).map_values(
            meta_line("- "@, RED@, opts.color),
        );
        let fresh = entry_groups(d.meta_added, opts.group).map_values(
            meta_line("+ "@, GREEN@, opts.color),
        );
        assert forall|i: int| 0 <= i < old_m.len() && !listed(new_m, (#[trigger] old_m[i]).0) implies
            ls.contains(in_colour(opts.color, "\x1b[31m"@, marked_entry("- "@, old_m[i]))) by {
            let k = d.meta_removed.index_of(old_m[i]);
            lemma_single_meta_line(d.meta_removed, k, "- "@, RED@, opts.color);
            assert(meta[2 + k] == gone[k]);
            assert(ls[before + 2 + k] == gone[k]);
        }
        assert forall|i: int| 0 <= i < new_m.len() && !listed(old_m, (#[trigger] new_m[i]).0) implies
            ls.contains(in_colour(opts.color, "\x1b[32m"@, marked_entry("+ "@, new_m[i]))) by {
            let k = d.meta_added.index_of(new_m[i]);
            lemma_single_meta_line(d.meta_added, k, "+ "@, GREEN@, opts.color);
            assert(meta[2 + gone.len() + k] == fresh[k]);
            assert(ls[before + 2 + gone.len() + k] == fresh[k]);
        }
    }
}

proof fn lemma_shared_rows<T>(a: Seq<(Seq<char>, T)>, b: Seq<(Seq<char>, T)>)
    ensures
        forall|i: int|
            0 <= i < a.len() && listed(b, (#[trigger] a[i]).0) ==> shared(a, b).contains(a[i]),
        forall|i: int|
            0 <= i < shared(a, b).len() ==> a.contains(#[trigger] shared(a, b)[i]) && listed(
                b,
                shared(a, b)[i].0,
            ),
{
    let keep = row_in(b, true);
    assert forall|n: Seq<char>| listed(b, n) == has_row(b, n) by {}
    assert forall|i: int| 0 <= i < a.len() && listed(b, (#[trigger] a[i]).0) implies shared(
        a,
        b,
    ).contains(a[i]) by {
        assert(keep(a[i]));
        a.lemma_filter_contains(keep, i);
    }
    assert forall|i: int| 0 <= i < shared(a, b).len() implies a.contains(
        #[trigger] shared(a, b)[i],
    ) && listed(b, shared(a, b)[i].0) by {
        let x = shared(a, b)[i];
        assert(a.filter(keep).contains(x));
        a.lemma_filter_contains_rev(keep, x);
        lemma_filter_keeps(a, keep, i);
    }
}

proof fn lemma_changes_hold(
    both: Seq<(Seq<char>, SigModel)>,
    rows: Seq<(Seq<char>, SigModel)>,
    extras: Seq<ExtrasModel>,
)
    requires
        extras.len() == both.len(),
    ensures
        forall|i: int|
            0 <= i < both.len() && (row_value(rows, (#[trigger] both[i]).0) != both[i].1
                || extras[i].differ()) ==> changes(both, rows, extras).contains(
                ChangeModel {
                    name: both[i].0,
                    old_sig: both[i].1,
                    new_sig: row_value(rows, both[i].0),
                    values: extras[i].values,
                    histogram: extras[i].histogram,
                },
            ),
        forall|k: int|
            0 <= k < changes(both, rows, extras).len() ==> {
                let c = #[trigger] changes(both, rows, extras)[k];
                exists|i: int|
                    0 <= i < both.len() && #[trigger] both[i] == (c.name, c.old_sig) && c.new_sig
                        == row_value(rows, c.name) && c.values == extras[i].values && c.histogram
                        == extras[i].histogram && (c.old_sig != c.new_sig || extras[i].differ())
            },
    decreases both.len(),
{
    if both.len() > 0 {
        let (b, e) = (both.drop_last(), extras.drop_last());
        lemma_changes_hold(b, rows, e);
        let all = changes(both, rows, extras);
        let had = changes(b, rows, e);
        let n = both.len() - 1;
        assert forall|c: ChangeModel| had.contains(c) implies all.contains(c) by {
            let k = had.index_of(c);
            assert(all[k] == c);
        }
        assert forall|i: int|
            0 <= i < both.len() && (row_value(rows, (#[trigger] both[i]).0) != both[i].1
                || extras[i].differ()) implies all.contains(
            ChangeModel {
                name: both[i].0,
                old_sig: both[i].1,
                new_sig: row_value(rows, both[i].0),
                values: extras[i].values,
                histogram: extras[i].histogram,
            },
        ) by {
            if i < n {
                assert(b[i] == both[i] && e[i] == extras[i]);
            } else {
                assert(all[all.len() - 1].name == both[i].0);
            }
        }
        assert forall|k: int| 0 <= k < all.len() implies ({
            let c = #[trigger] all[k];
            exists|i: int|
                0 <= i < both.len() && #[trigger] both[i] == (c.name, c.old_sig) && c.new_sig
                    == row_value(rows, c.name) && c.values == extras[i].values && c.histogram
                    == extras[i].histogram && (c.old_sig != c.new_sig || extras[i].differ())
        }) by {
            if k < had.len() {
                let c = had[k];
                let i = choose|i: int|
                    0 <= i < b.len() && #[trigger] b[i] == (c.name, c.old_sig) && c.new_sig
                        == row_value(rows, c.name) && c.values == e[i].values && c.histogram
                        == e[i].histogram && (c.old_sig != c.new_sig || e[i].differ());
                assert(both[i] == b[i] && e[i] == extras[i]);
            } else {
                assert(both[n] == both.last() && extras[n] == extras.last());
            }
        }
    }
}

/// A tensor in both checkpoints is among the changed ones, with what each side has of it,
/// wherever dtype or shape differ; and what is among them is in both checkpoints just as
/// it is given there. Without a comparison of the data nothing else is changed.
pub proof fn law_changes_are_the_differing_tensors(
    old_t: Seq<(Seq<char>, SigModel)>,
    new_t: Seq<(Seq<char>, SigModel)>,
    old_m: Seq<(Seq<char>, MetaModel)>,
    new_m: Seq<(Seq<char>, MetaModel)>,
    extras: Seq<ExtrasModel>,
)
    requires
        names_ascend(old_t),
        names_ascend(new_t),
        extras.len() == shared(old_t, new_t).len(),
    ensures
        ({
            let d = difference(old_t, new_t, old_m, new_m, extras);
            &&& forall|i: int, j: int|
                0 <= i < old_t.len() && 0 <= j < new_t.len() && (#[trigger] old_t[i]).0 == (
                #[trigger] new_t[j]).0 && (old_t[i].1.dtype != new_t[j].1.dtype || old_t[i].1.shape
                    != new_t[j].1.shape) ==> exists|k: int|
                    0 <= k < d.tensors_changed.len() && (#[trigger] d.tensors_changed[k]).name
                        == old_t[i].0 && d.tensors_changed[k].old_sig == old_t[i].1
                        && d.tensors_changed[k].new_sig == new_t[j].1
            &&& forall|k: int|
                0 <= k < d.tensors_changed.len() ==> {
                    let c = #[trigger] d.tensors_changed[k];
                    old_t.contains((c.name, c.old_sig)) && new_t.contains((c.name, c.new_sig)) && (
                    c.old_sig.dtype != c.new_sig.dtype || c.old_sig.shape != c.new_sig.shape || (
                    c.values is Some && c.values->0.differing > 0) || (c.histogram is Some
                        && c.histogram->0.shifted))
                }
        }),
{
    let d = difference(old_t, new_t, old_m, new_m, extras);
    let both = shared(old_t, new_t);
    lemma_shared_rows(old_t, new_t);
    lemma_changes_hold(both, new_t, extras);
    assert forall|i: int, j: int|
        0 <= i < old_t.len() && 0 <= j < new_t.len() && (#[trigger] old_t[i]).0 == (
        #[trigger] new_t[j]).0 && (old_t[i].1.dtype != new_t[j].1.dtype || old_t[i].1.shape
            != new_t[j].1.shape) implies exists|k: int|
        0 <= k < d.tensors_changed.len() && (#[trigger] d.tensors_changed[k]).name == old_t[i].0
            && d.tensors_changed[k].old_sig == old_t[i].1 && d.tensors_changed[k].new_sig
            == new_t[j].1 by {
        assert(listed(new_t, old_t[i].0));
        let h = both.index_of(old_t[i]);
        lemma_unique(new_t, old_t[i].0, j);
        assert(both[h] == old_t[i]);
        let c = ChangeModel {
            name: both[h].0,
            old_sig: both[h].1,
            new_sig: row_value(new_t, both[h].0),
            values: extras[h].values,
            histogram: extras[h].histogram,
        };
        let k = d.tensors_changed.index_of(c);
        assert(d.tensors_changed[k] == c);
    }
    assert forall|k: int| 0 <= k < d.tensors_changed.len() implies ({
        let c = #[trigger] d.tensors_changed[k];
        old_t.contains((c.name, c.old_sig)) && new_t.contains((c.name, c.new_sig)) && (
        c.old_sig.dtype != c.new_sig.dtype || c.old_sig.shape != c.new_sig.shape || (
        c.values is Some && c.values->0.differing > 0) || (c.histogram is Some
            && c.histogram->0.shifted))
    }) by {
        let c = d.tensors_changed[k];
        let i = choose|i: int|
            0 <= i < both.len() && #[trigger] both[i] == (c.name, c.old_sig) && c.new_sig
                == row_value(new_t, c.name) && c.values == extras[i].values && c.histogram
                == extras[i].histogram && (c.old_sig != c.new_sig || extras[i].differ());
        assert(listed(new_t, both[i].0));
        let j = choose|j: int| 0 <= j < new_t.len() && (#[trigger] new_t[j]).0 == c.name;
        lemma_unique(new_t, c.name, j);
        assert(new_t[j] == (c.name, c.new_sig));
    }
}

proof fn lemma_meta_changes_hold(
    both: Seq<(Seq<char>, MetaModel)>,
    rows: Seq<(Seq<char>, MetaModel)>,
)
    ensures
        forall|i: int|
            0 <= i < both.len() && row_value(rows, (#[trigger] both[i]).0) != both[i].1
                ==> meta_changes(both, rows).contains(
                (both[i].0, (both[i].1, row_value(rows, both[i].0))),
            ),
        forall|k: int|
            0 <= k < meta_changes(both, rows).len() ==> {
                let c = #[trigger] meta_changes(both, rows)[k];
                both.contains((c.0, c.1.0)) && c.1.1 == row_value(rows, c.0) && c.1.0 != c.1.1
            },
    decreases both.len(),
{
    if both.len() > 0 {
        let b = both.drop_last();
        lemma_meta_changes_hold(b, rows);
        let all = meta_changes(both, rows);
        let had = meta_changes(b, rows);
        let n = both.len() - 1;
        assert forall|c: (Seq<char>, (MetaModel, MetaModel))| had.contains(c) implies all.contains(
            c,
        ) by {
            let k = had.index_of(c);
            assert(all[k] == c);
        }
        assert forall|i: int|
            0 <= i < both.len() && row_value(rows, (#[trigger] both[i]).0)
                != both[i].1 implies all.contains(
            (both[i].0, (both[i].1, row_value(rows, both[i].0))),
        ) by {
            if i < n {
                assert(b[i] == both[i]);
            } else {
                assert(all[all.len() - 1].0 == both[i].0);
            }
        }
        assert forall|k: int| 0 <= k < all.len() implies ({
            let c = #[trigger] all[k];
            both.contains((c.0, c.1.0)) && c.1.1 == row_value(rows, c.0) && c.1.0 != c.1.1
        }) by {
            if k < had.len() {
                let c = had[k];
                let i = b.index_of((c.0, c.1.0));
                assert(both[i] == b[i]);
            } else {
                assert(both[n] == both.last());
            }
        }
    }
}

/// A metadata entry in both checkpoints is among the changed ones, with what each side has
/// of it, exactly where its value or its type differ.
pub proof fn law_changes_are_the_differing_entries(
    old_t: Seq<(Seq<char>, SigModel)>,
    new_t: Seq<(Seq<char>, SigModel)>,
    old_m: Seq<(Seq<char>, MetaModel)>,
    new_m: Seq<(Seq<char>, MetaModel)>,
    extras: Seq<ExtrasModel>,
)
    requires
        names_ascend(old_m),
        names_ascend(new_m),
    ensures
        ({
            let d = difference(old_t, new_t, old_m, new_m, extras);
            &&& forall|i: int, j: int|
                0 <= i < old_m.len() && 0 <= j < new_m.len() && (#[trigger] old_m[i]).0 == (
                #[trigger] new_m[j]).0 && (old_m[i].1.value != new_m[j].1.value
                    || old_m[i].1.value_type != new_m[j].1.value_type)
                    ==> d.meta_changed.contains((old_m[i].0, (old_m[i].1, new_m[j].1)))
            &&& forall|k: int|
                0 <= k < d.meta_changed.len() ==> {
                    let c = #[trigger] d.meta_changed[k];
                    old_m.contains((c.0, c.1.0)) && new_m.contains((c.0, c.1.1)) && (c.1.0.value
                        != c.1.1.value || c.1.0.value_type != c.1.1.value_type)
                }
        }),
{
    let d = difference(old_t, new_t, old_m, new_m, extras);
    let both = shared(old_m, new_m);
    lemma_shared_rows(old_m, new_m);
    lemma_meta_changes_hold(both, new_m);
    assert forall|i: int, j: int|
        0 <= i < old_m.len() && 0 <= j < new_m.len() && (#[trigger] old_m[i]).0 == (
        #[trigger] new_m[j]).0 && (old_m[i].1.value != new_m[j].1.value || old_m[i].1.value_type
            != new_m[j].1.value_type) implies d.meta_changed.contains(
        (old_m[i].0, (old_m[i].1, new_m[j].1)),
    ) by {
        assert(listed(new_m, old_m[i].0));
        let h = both.index_of(old_m[i]);
        lemma_unique(new_m, old_m[i].0, j);
        assert(both[h] == old_m[i]);
    }
    assert forall|k: int| 0 <= k < d.meta_changed.len() implies ({
        let c = #[trigger] d.meta_changed[k];
        old_m.contains((c.0, c.1.0)) && new_m.contains((c.0, c.1.1)) && (c.1.0.value
            != c.1.1.value || c.1.0.value_type != c.1.1.value_type)
    }) by {
        let c = d.meta_changed[k];
        let i = both.index_of((c.0, c.1.0));
        assert(listed(new_m, both[i].0));
        let j = choose|j: int| 0 <= j < new_m.len() && (#[trigger] new_m[j]).0 == c.0;
        lemma_unique(new_m, c.0, j);
        assert(new_m[j] == (c.0, c.1.1));
    }
}

/// What stands between the two leading spaces of a line and its text.
pub open spec fn has_mark(line: Seq<char>, mark: char) -> bool {
    line.len() > 2 && line[0] == ' ' && line[1] == ' ' && line[2] == mark
}

proof fn lemma_values_mark(
    differing: nat,
    elements: nat,
    max_abs: Seq<char>,
    mean_abs: Seq<char>,
    nonfinite: nat,
)
    ensures
        has_mark(values_line(differing, elements, max_abs, mean_abs, nonfinite), ' '),
{
    let line = values_line(differing, elements, max_abs, mean_abs, nonfinite);
    reveal_strlit("    values: ");
    assert(line.take(12) =~= "    values: "@);
    assert(line[0] == line.take(12)[0] && line[1] == line.take(12)[1] && line[2] == line.take(12)[2]);
}

proof fn lemma_shift_mark(c: GroupCounts, note: NoteModel)
    ensures
        has_mark(shift_line(c, note), ' '),
{
    let line = shift_line(c, note);
    reveal_strlit("    histogram: not compared (shapes differ)");
    reveal_strlit("    histogram: TVD max ");
    reveal_strlit("    histogram: TVD ");
    if c.histograms > 0 {
        assert(line.take(3) =~= seq![' ', ' ', ' ']);
        assert(line[0] == line.take(3)[0] && line[1] == line.take(3)[1] && line[2] == line.take(
            3,
        )[2]);
    }
}

proof fn lemma_group_marks(
    g: GroupModel<(SigModel, SigModel)>,
    items: Seq<ChangeModel>,
    note: NoteModel,
    opts: DiffOpts,
)
    ensures
        forall|k: int|
            0 <= k < change_lines(g, items, note, opts).len() ==> has_mark(
                #[trigger] change_lines(g, items, note, opts)[k],
                if k == 0 {
                    '~'
                } else {
                    ' '
                },
            ),
{
    let ls = change_lines(g, items, note, opts);
    let c = counts_of(items, g.members);
    lemma_shift_mark(c, note);
    lemma_values_mark(
        c.differing as nat,
        c.elements as nat,
        note.max_abs,
        note.mean_abs,
        c.nonfinite as nat,
    );
    reveal_strlit("  ~ ");
    reveal_strlit("    values: not compared (shapes differ)");
    reveal_strlit("    values: identical");
    assert(ls[0].take(4) =~= "  ~ "@);
    assert(ls[0][0] == ls[0].take(4)[0] && ls[0][1] == ls[0].take(4)[1] && ls[0][2] == ls[0].take(
        4,
    )[2]);
}

proof fn lemma_change_marks(
    gs: Seq<GroupModel<(SigModel, SigModel)>>,
    items: Seq<ChangeModel>,
    notes: Seq<NoteModel>,
    opts: DiffOpts,
    n: nat,
)
    ensures
        forall|k: int|
            0 <= k < all_change_lines(gs, items, notes, opts, n).len() ==> has_mark(
                #[trigger] all_change_lines(gs, items, notes, opts, n)[k],
                '~',
            ) || has_mark(all_change_lines(gs, items, notes, opts, n)[k], ' '),
    decreases n,
{
    if n > 0 {
        lemma_change_marks(gs, items, notes, opts, (n - 1) as nat);
        lemma_group_marks(gs[n - 1], items, notes[n - 1], opts);
        let all = all_change_lines(gs, items, notes, opts, n);
        let had = all_change_lines(gs, items, notes, opts, (n - 1) as nat);
        let more = change_lines(gs[n - 1], items, notes[n - 1], opts);
        assert forall|k: int| 0 <= k < all.len() implies has_mark(#[trigger] all[k], '~')
            || has_mark(all[k], ' ') by {
            if k < had.len() {
                assert(all[k] == had[k]);
            } else {
                assert(all[k] == more[k - had.len()]);
            }
        }
    }
}

/// In a rendered comparison a line behind a `-` is that of a tensor that only the old
/// checkpoint has, a line behind a `+` that of one that only the new checkpoint has, or of
/// such a metadata entry where the metadata is shown: nothing else is marked so.
pub proof fn law_rendered_marks_are_true(
    old_t: Seq<(Seq<char>, SigModel)>,
    new_t: Seq<(Seq<char>, SigModel)>,
    old_m: Seq<(Seq<char>, MetaModel)>,
    new_m: Seq<(Seq<char>, MetaModel)>,
    extras: Seq<ExtrasModel>,
    old_label: Seq<char>,
    new_label: Seq<char>,
    opts: DiffOpts,
    notes: Seq<NoteModel>,
    k: int,
)
    requires
        !opts.group,
        !opts.color,
        0 <= k < difference(old_t, new_t, old_m, new_m, extras).lines(
            old_label,
            new_label,
            opts,
            notes,
        ).len(),
    ensures
        ({
            let l = difference(old_t, new_t, old_m, new_m, extras).lines(
                old_label,
                new_label,
                opts,
                notes,
            )[k];
            &&& has_mark(l, '-') ==> (exists|i: int|
                0 <= i < old_t.len() && !listed(new_t, (#[trigger] old_t[i]).0) && l == "  "@
                    + marked_tensor("- "@, old_t[i])) || (opts.metadata && exists|i: int|
                0 <= i < old_m.len() && !listed(new_m, (#[trigger] old_m[i]).0) && l == "  "@
                    + marked_entry("- "@, old_m[i]))
            &&& has_mark(l, '+') ==> (exists|i: int|
                0 <= i < new_t.len() && !listed(old_t, (#[trigger] new_t[i]).0) && l == "  "@
                    + marked_tensor("+ "@, new_t[i])) || (opts.metadata && exists|i: int|
                0 <= i < new_m.len() && !listed(old_m, (#[trigger] new_m[i]).0) && l == "  "@
                    + marked_entry("+ "@, new_m[i]))
        }),
{
    let d = difference(old_t, new_t, old_m, new_m, extras);
    let ls = d.lines(old_label, new_label, opts, notes);
    let l = ls[k];
    let head = d.header_lines(old_label, new_label, opts);
    let minus = entry_groups(d.tensors_removed, opts.group).map_values(
        tensor_line("- "@, RED@, opts.color),
    );
    let plus = entry_groups(d.tensors_added, opts.group).map_values(
        tensor_line("+ "@, GREEN@, opts.color),
    );
    let gs = d.change_groups(opts);
    let changed = all_change_lines(gs, d.tensors_changed, notes, opts, gs.len());
    let meta = d.metadata_lines(opts);
    assert(ls == head + minus + plus + changed + meta);
    lemma_only_in(old_t, new_t);
    lemma_only_in(new_t, old_t);
    lemma_only_in(old_m, new_m);
    lemma_only_in(new_m, old_m);
    reveal_strlit("--- ");
    reveal_strlit("+++ ");
    reveal_strlit("scope: tensor structure (name, dtype, shape) + element values");
    reveal_strlit("scope: tensor structure (name, dtype, shape) — element values not compared");
    reveal_strlit("legend: - removed, + added, ~ changed");
    reveal_strlit("");
    reveal_strlit("tensors");
    reveal_strlit("metadata");
    reveal_strlit("metadata: not compared (");
    reveal_strlit("  ");
    reveal_strlit("- ");
    reveal_strlit("+ ");
    reveal_strlit("  ~ ");
    let (a, b, c) = (head.len() as int, minus.len() as int, plus.len() as int);
    if k < a {
        assert(l == head[k]);
    } else if k < a + b {
        lemma_single_tensor_line(d.tensors_removed, k - a, "- "@, RED@, opts.color);
        let i = old_t.index_of(d.tensors_removed[k - a]);
        assert(old_t[i] == d.tensors_removed[k - a]);
        assert(l == minus[k - a]);
        assert(l[2] == '-');
    } else if k < a + b + c {
        lemma_single_tensor_line(d.tensors_added, k - a - b, "+ "@, GREEN@, opts.color);
        let i = new_t.index_of(d.tensors_added[k - a - b]);
        assert(new_t[i] == d.tensors_added[k - a - b]);
        assert(l == plus[k - a - b]);
        assert(l[2] == '+');
    } else if k < a + b + c + changed.len() {
        lemma_change_marks(gs, d.tensors_changed, notes, opts, gs.len());
        assert(l == changed[k - a - b - c]);
    } else {
        let m = k - a - b - c - changed.len();
        assert(l == meta[m]);
        if opts.metadata {
            let gone = entry_groups(d.meta_removed, opts.group).map_values(
                meta_line("- "@, RED@, opts.color),
            );
            let fresh = entry_groups(d.meta_added, opts.group).map_values(
                meta_line("+ "@, GREEN@, opts.color),
            );
            let other = entry_groups(d.meta_changed, opts.group).map_values(
                meta_change_line(opts.color),
            );
            if m < 2 {
            } else if m < 2 + gone.len() {
                lemma_single_meta_line(d.meta_removed, m - 2, "- "@, RED@, opts.color);
                let i = old_m.index_of(d.meta_removed[m - 2]);
                assert(old_m[i] == d.meta_removed[m - 2]);
                assert(l == gone[m - 2]);
                assert(l[2] == '-');
            } else if m < 2 + gone.len() + fresh.len() {
                let h = m - 2 - gone.len();
                lemma_single_meta_line(d.meta_added, h, "+ "@, GREEN@, opts.color);
                let i = new_m.index_of(d.meta_added[h]);
                assert(new_m[i] == d.meta_added[h]);
                assert(l == fresh[h]);
                assert(l[2] == '+');
            } else {
                let h = m - 2 - gone.len() - fresh.len();
                assert(l == other[h]);
                assert(l[2] == '~');
            }
        }
    }
}

proof fn lemma_changes_distinct(
    both: Seq<(Seq<char>, SigModel)>,
    rows: Seq<(Seq<char>, SigModel)>,
    extras: Seq<ExtrasModel>,
)
    requires
        row_names(both).no_duplicates(),
    ensures
        changes(both, rows, extras).len() <= both.len(),
        forall|i: int|
            0 <= i < changes(both, rows, extras).len() ==> row_names(both).contains(
                (#[trigger] changes(both, rows, extras)[i]).name,
            ),
        forall|i: int, j: int|
            0 <= i < j < changes(both, rows, extras).len() ==> (#[trigger] changes(
                both,
                rows,
                extras,
            )[i]).name != (#[trigger] changes(both, rows, extras)[j]).name,
    decreases both.len(),
{
    if both.len() > 0 {
        let b = both.drop_last();
        let n = both.len() - 1;
        assert(row_names(b) =~= row_names(both).drop_last());
        assert(row_names(b).no_duplicates());
        lemma_changes_distinct(b, rows, extras.drop_last());
        let all = changes(both, rows, extras);
        let had = changes(b, rows, extras.drop_last());
        assert(row_names(both)[n] == both[n].0);
        assert forall|i: int| 0 <= i < had.len() implies row_names(both).contains(
            (#[trigger] had[i]).name,
        ) && had[i].name != both[n].0 by {
            let k = row_names(b).index_of(had[i].name);
            assert(row_names(both)[k] == had[i].name);
        }
        assert forall|i: int| 0 <= i < all.len() implies row_names(both).contains(
            (#[trigger] all[i]).name,
        ) by {
            if i < had.len() {
                assert(all[i] == had[i]);
            }
        }
        assert forall|i: int, j: int| 0 <= i < j < all.len() implies (#[trigger] all[i]).name != (
        #[trigger] all[j]).name by {
            assert(all[i] == had[i]);
            if j < had.len() {
                assert(all[j] == had[j]);
            }
        }
    }
}

proof fn lemma_head_of_group(
    gs: Seq<GroupModel<(SigModel, SigModel)>>,
    items: Seq<ChangeModel>,
    notes: Seq<NoteModel>,
    opts: DiffOpts,
    n: nat,
    k: int,
)
    requires
        0 <= k < n,
    ensures
        all_change_lines(gs, items, notes, opts, n).contains(
            change_lines(gs[k], items, notes[k], opts)[0],
        ),
    decreases n,
{
    let all = all_change_lines(gs, items, notes, opts, n);
    let had = all_change_lines(gs, items, notes, opts, (n - 1) as nat);
    let l = change_lines(gs[k], items, notes[k], opts)[0];
    if k < n - 1 {
        lemma_head_of_group(gs, items, notes, opts, (n - 1) as nat, k);
        let i = had.index_of(l);
        assert(all[i] == l);
    } else {
        assert(all[had.len() as int] == l);
    }
}

/// What is said of a tensor that changed: what it was and what it is, or, where dtype and
/// shape are the same, that its values or its distribution differ.
pub open spec fn change_told(c: ChangeModel) -> Seq<char> {
    let (a, b) = (c.old_sig, c.new_sig);
    if a != b {
        "  ~ "@ + c.name + "  ["@ + (a.dtype + " "@ + shape_text(a.shape)) + "] → ["@ + (b.dtype
            + " "@ + shape_text(b.shape)) + "]"@
    } else if c.values is Some && c.values->0.differing > 0 {
        "  ~ "@ + c.name + "  ["@ + (a.dtype + " "@ + shape_text(a.shape)) + "]  (values differ)"@
    } else {
        "  ~ "@ + c.name + "  ["@ + (a.dtype + " "@ + shape_text(a.shape))
            + "]  (distribution differs)"@
    }
}

proof fn lemma_change_head(
    g: GroupModel<(SigModel, SigModel)>,
    items: Seq<ChangeModel>,
    note: NoteModel,
    opts: DiffOpts,
    k: int,
)
    requires
        !opts.color,
        0 <= k < items.len() <= usize::MAX,
        g.members == seq![k as usize],
        g.key == (items[k].old_sig, items[k].new_sig),
        shown_name(g.template, g.indices) == items[k].name,
    ensures
        change_lines(g, items, note, opts)[0] == change_told(items[k]),
{
    let c = items[k];
    let line = change_lines(g, items, note, opts)[0];
    reveal_strlit("");
    reveal_strlit("]  (");
    reveal_strlit(")");
    reveal_strlit("values differ");
    reveal_strlit("distribution differs");
    reveal_strlit("]  (values differ)");
    reveal_strlit("]  (distribution differs)");
    let counts = counts_of(items, g.members);
    assert(g.members.drop_last() =~= Seq::empty());
    reveal_with_fuel(counts_of, 2);
    assert(counts.compared == (c.values is Some));
    assert(c.values is Some ==> counts.differing == c.values->0.differing);
    let (a, b) = (c.old_sig, c.new_sig);
    if a != b {
        assert(line =~= change_told(c));
    } else if c.values is Some && c.values->0.differing > 0 {
        assert("]  (values differ)"@ =~= "]  ("@ + "values differ"@ + ")"@);
        assert(line =~= change_told(c));
    } else {
        assert("]  (distribution differs)"@ =~= "]  ("@ + "distribution differs"@ + ")"@);
        assert(line =~= change_told(c));
    }
}

/// A rendered comparison lists behind a `~` every tensor that changed: what the old
/// checkpoint has of it and then what the new one has, or, where dtype and shape are the
/// same, that its values or its distribution differ.
pub proof fn law_rendered_changes_are_listed(
    old_t: Seq<(Seq<char>, SigModel)>,
    new_t: Seq<(Seq<char>, SigModel)>,
    old_m: Seq<(Seq<char>, MetaModel)>,
    new_m: Seq<(Seq<char>, MetaModel)>,
    extras: Seq<ExtrasModel>,
    old_label: Seq<char>,
    new_label: Seq<char>,
    opts: DiffOpts,
    notes: Seq<NoteModel>,
    k: int,
)
    requires
        !opts.group,
        !opts.color,
        names_ascend(old_t),
        0 <= k < difference(old_t, new_t, old_m, new_m, extras).tensors_changed.len(),
        difference(old_t, new_t, old_m, new_m, extras).tensors_changed.len() <= usize::MAX,
    ensures
        ({
            let d = difference(old_t, new_t, old_m, new_m, extras);
            d.lines(old_label, new_label, opts, notes).contains(change_told(d.tensors_changed[k]))
        }),
{
    let d = difference(old_t, new_t, old_m, new_m, extras);
    let ls = d.lines(old_label, new_label, opts, notes);
    let gs = d.change_groups(opts);
    let entries = change_entries(d.tensors_changed);
    lemma_names_distinct(old_t, new_t);
    lemma_changes_distinct(shared(old_t, new_t), new_t, extras);
    assert forall|i: int, j: int| 0 <= i < j < entries.len() implies (#[trigger] entries[i]).0 != (
    #[trigger] entries[j]).0 by {
        assert(entries[i].0 == d.tensors_changed[i].name);
        assert(entries[j].0 == d.tensors_changed[j].name);
    }
    law_each_name_is_a_group(entries);
    let c = d.tensors_changed[k];
    let g = gs[k];
    assert(entries[k] == (c.name, (c.old_sig, c.new_sig)));
    assert(shown_name(g.template, g.indices) == c.name);
    assert(g.members == seq![k as usize]);
    lemma_head_of_group(gs, d.tensors_changed, notes, opts, gs.len(), k);
    let changed = all_change_lines(gs, d.tensors_changed, notes, opts, gs.len());
    let line = change_lines(g, d.tensors_changed, notes[k], opts)[0];
    let at = changed.index_of(line);
    let head = d.header_lines(old_label, new_label, opts);
    let minus = entry_groups(d.tensors_removed, opts.group).map_values(
        tensor_line("- "@, RED@, opts.color),
    );
    let plus = entry_groups(d.tensors_added, opts.group).map_values(
        tensor_line("+ "@, GREEN@, opts.color),
    );
    assert(ls == head + minus + plus + changed + d.metadata_lines(opts));
    assert(ls[head.len() + minus.len() + plus.len() + at] == line);
    lemma_change_head(g, d.tensors_changed, notes[k], opts, k);
}

/// The counts of a rendered comparison are those of what it lists: first the removed,
/// then the added, the changed and the unchanged tensors.
pub proof fn law_rendered_counts(
    d: ReportModel,
    old_label: Seq<char>,
    new_label: Seq<char>,
    opts: DiffOpts,
    notes: Seq<NoteModel>,
)
    ensures
        d.lines(old_label, new_label, opts, notes).contains(
            "tensors: -"@ + decimal(d.tensors_removed.len()) + " +"@ + decimal(
                d.tensors_added.len(),
            ) + " ~"@ + decimal(d.tensors_changed.len()) + " ("@ + decimal(d.tensors_unchanged)
                + " unchanged)"@,
        ),
        opts.metadata ==> d.lines(old_label, new_label, opts, notes).contains(
            "metadata: -"@ + decimal(d.meta_removed.len()) + " +"@ + decimal(d.meta_added.len())
                + " ~"@ + decimal(d.meta_changed.len()) + " ("@ + decimal(d.meta_unchanged)
                + " unchanged)"@,
        ),
{
    let ls = d.lines(old_label, new_label, opts, notes);
    let head = d.header_lines(old_label, new_label, opts);
    let minus = entry_groups(d.tensors_removed, opts.group).map_values(
        tensor_line("- "@, RED@, opts.color),
    );
    let plus = entry_groups(d.tensors_added, opts.group).map_values(
        tensor_line("+ "@, GREEN@, opts.color),
    );
    let gs = d.change_groups(opts);
    let changed = all_change_lines(gs, d.tensors_changed, notes, opts, gs.len());
    let meta = d.metadata_lines(opts);
    assert(ls == head + minus + plus + changed + meta);
    reveal_strlit("tensors");
    reveal_strlit("metadata");
    reveal_strlit(": -");
    reveal_strlit("tensors: -");
    reveal_strlit("metadata: -");
    assert("tensors: -"@ =~= "tensors"@ + ": -"@);
    assert("metadata: -"@ =~= "metadata"@ + ": -"@);
    assert(ls[5] == head[5]);
    if opts.metadata {
        assert(ls[head.len() + minus.len() + plus.len() + changed.len() + 1int] == meta[1]);
    }
}

// ---------------------------------------------------------------------------
// What is compared

/// Whether an entry is the last of its name.
pub open spec fn last_tensor(v: Seq<TensorModel>, i: int) -> bool {
    0 <= i < v.len() && forall|j: int| i < j < v.len() ==> (#[trigger] v[j]).name != v[i].name
}

proof fn lemma_tensor_row(v: Seq<TensorModel>, i: int)
    requires
        last_tensor(v, i),
    ensures
        names_ascend(tensor_rows(v)),
        tensor_rows(v).contains((v[i].name, SigModel { dtype: v[i].dtype, shape: v[i].shape })),
    decreases v.len(),
{
    let t = v.drop_last();
    let n = v.len() - 1;
    let had = tensor_rows(t);
    let all = tensor_rows(v);
    let last = SigModel { dtype: v[n].dtype, shape: v[n].shape };
    lemma_tensor_rows_ascend(t);
    lemma_with_row_ascends(had, v[n].name, last);
    lemma_with_row(had, v[n].name, last, v[i].name);
    if i < n {
        assert(v[n].name != v[i].name);
        assert(t[i] == v[i]);
        assert(last_tensor(t, i)) by {
            assert forall|j: int| i < j < t.len() implies (#[trigger] t[j]).name != t[i].name by {
                assert(t[j] == v[j]);
            }
        }
        lemma_tensor_row(t, i);
        let h = had.index_of((v[i].name, SigModel { dtype: v[i].dtype, shape: v[i].shape }));
        lemma_unique(had, v[i].name, h);
    }
    let k = choose|k: int| 0 <= k < all.len() && (#[trigger] all[k]).0 == v[i].name;
    lemma_unique(all, v[i].name, k);
    assert(all[k] == (v[i].name, SigModel { dtype: v[i].dtype, shape: v[i].shape }));
}

proof fn lemma_tensor_rows_ascend(v: Seq<TensorModel>)
    ensures
        names_ascend(tensor_rows(v)),
    decreases v.len(),
{
    if v.len() > 0 {
        let n = v.len() - 1;
        lemma_tensor_rows_ascend(v.drop_last());
        lemma_with_row_ascends(tensor_rows(v.drop_last()), v[n].name, SigModel { dtype: v[n].dtype, shape: v[n].shape });
    }
}

proof fn lemma_tensor_row_named(v: Seq<TensorModel>, k: int)
    requires
        0 <= k < tensor_rows(v).len(),
    ensures
        exists|i: int| 0 <= i < v.len() && (#[trigger] v[i]).name == tensor_rows(v)[k].0,
    decreases v.len(),
{
    if v.len() > 0 {
        let t = v.drop_last();
        let n = v.len() - 1;
        let had = tensor_rows(t);
        let all = tensor_rows(v);
        let name = all[k].0;
        lemma_tensor_rows_ascend(t);
        lemma_with_row_ascends(had, v[n].name, SigModel { dtype: v[n].dtype, shape: v[n].shape });
        lemma_with_row(had, v[n].name, SigModel { dtype: v[n].dtype, shape: v[n].shape }, name);
        if name == v[n].name {
            assert(v[n].name == name);
        } else {
            assert(has_row(all, name));
            let h = choose|h: int| 0 <= h < had.len() && (#[trigger] had[h]).0 == name;
            lemma_tensor_row_named(t, h);
            let i = choose|i: int| 0 <= i < t.len() && (#[trigger] t[i]).name == had[h].0;
            assert(v[i] == t[i]);
        }
    }
}

/// What is compared of a checkpoint are the dtype and the shape of each of its tensors, under
/// the tensor's name; of several tensors of a name, those of the last.
pub proof fn law_summary_holds_the_tensors(v: Seq<TensorModel>)
    ensures
        names_ascend(tensor_rows(v)),
        forall|i: int|
            #[trigger] last_tensor(v, i) ==> tensor_rows(v).contains(
                (
                    v[i].name,
                    SigModel { dtype: v[i].dtype, shape: v[i].shape },
                ),
            ),
        forall|k: int|
            0 <= k < tensor_rows(v).len() ==> exists|i: int|
                0 <= i < v.len() && (#[trigger] v[i]).name == (#[trigger] tensor_rows(v)[k]).0,
{
    lemma_tensor_rows_ascend(v);
    assert forall|i: int| #[trigger] last_tensor(v, i) implies tensor_rows(v).contains(
        (v[i].name, SigModel { dtype: v[i].dtype, shape: v[i].shape }),
    ) by {
        lemma_tensor_row(v, i);
    }
    assert forall|k: int| 0 <= k < tensor_rows(v).len() implies exists|i: int|
        0 <= i < v.len() && (#[trigger] v[i]).name == (#[trigger] tensor_rows(v)[k]).0 by {
        lemma_tensor_row_named(v, k);
    }
}

/// Whether an entry is the last of its name.
pub open spec fn last_entry(v: Seq<MetadataModel>, i: int) -> bool {
    0 <= i < v.len() && forall|j: int| i < j < v.len() ==> (#[trigger] v[j]).name != v[i].name
}

proof fn lemma_entry_row(v: Seq<MetadataModel>, i: int)
    requires
        last_entry(v, i),
    ensures
        names_ascend(metadata_rows(v)),
        metadata_rows(v).contains((v[i].name, MetaModel { value: v[i].value, value_type: v[i].value_type })),
    decreases v.len(),
{
    let t = v.drop_last();
    let n = v.len() - 1;
    let had = metadata_rows(t);
    let all = metadata_rows(v);
    let last = MetaModel { value: v[n].value, value_type: v[n].value_type };
    lemma_entry_rows_ascend(t);
    lemma_with_row_ascends(had, v[n].name, last);
    lemma_with_row(had, v[n].name, last, v[i].name);
    if i < n {
        assert(v[n].name != v[i].name);
        assert(t[i] == v[i]);
        assert(last_entry(t, i)) by {
            assert forall|j: int| i < j < t.len() implies (#[trigger] t[j]).name != t[i].name by {
                assert(t[j] == v[j]);
            }
        }
        lemma_entry_row(t, i);
        let h = had.index_of((v[i].name, MetaModel { value: v[i].value, value_type: v[i].value_type }));
        lemma_unique(had, v[i].name, h);
    }
    let k = choose|k: int| 0 <= k < all.len() && (#[trigger] all[k]).0 == v[i].name;
    lemma_unique(all, v[i].name, k);
    assert(all[k] == (v[i].name, MetaModel { value: v[i].value, value_type: v[i].value_type }));
}

proof fn lemma_entry_rows_ascend(v: Seq<MetadataModel>)
    ensures
        names_ascend(metadata_rows(v)),
    decreases v.len(),
{
    if v.len() > 0 {
        let n = v.len() - 1;
        lemma_entry_rows_ascend(v.drop_last());
        lemma_with_row_ascends(metadata_rows(v.drop_last()), v[n].name, MetaModel { value: v[n].value, value_type: v[n].value_type });
    }
}

proof fn lemma_entry_row_named(v: Seq<MetadataModel>, k: int)
    requires
        0 <= k < metadata_rows(v).len(),
    ensures
        exists|i: int| 0 <= i < v.len() && (#[trigger] v[i]).name == metadata_rows(v)[k].0,
    decreases v.len(),
{
    if v.len() > 0 {
        let t = v.drop_last();
        let n = v.len() - 1;
        let had = metadata_rows(t);
        let all = metadata_rows(v);
        let name = all[k].0;
        lemma_entry_rows_ascend(t);
        lemma_with_row_ascends(had, v[n].name, MetaModel { value: v[n].value, value_type: v[n].value_type });
        lemma_with_row(had, v[n].name, MetaModel { value: v[n].value, value_type: v[n].value_type }, name);
        if name == v[n].name {
            assert(v[n].name == name);
        } else {
            assert(has_row(all, name));
            let h = choose|h: int| 0 <= h < had.len() && (#[trigger] had[h]).0 == name;
            lemma_entry_row_named(t, h);
            let i = choose|i: int| 0 <= i < t.len() && (#[trigger] t[i]).name == had[h].0;
            assert(v[i] == t[i]);
        }
    }
}

/// What is compared of a checkpoint's metadata are the value and the type of each entry,
/// under the entry's name; of several entries of a name, those of the last.
pub proof fn law_summary_holds_the_metadata(v: Seq<MetadataModel>)
    ensures
        names_ascend(metadata_rows(v)),
        forall|i: int|
            #[trigger] last_entry(v, i) ==> metadata_rows(v).contains(
                (
                    v[i].name,
                    MetaModel { value: v[i].value, value_type: v[i].value_type },
                ),
            ),
        forall|k: int|
            0 <= k < metadata_rows(v).len() ==> exists|i: int|
                0 <= i < v.len() && (#[trigger] v[i]).name == (#[trigger] metadata_rows(v)[k]).0,
{
    lemma_entry_rows_ascend(v);
    assert forall|i: int| #[trigger] last_entry(v, i) implies metadata_rows(v).contains(
        (v[i].name, MetaModel { value: v[i].value, value_type: v[i].value_type }),
    ) by {
        lemma_entry_row(v, i);
    }
    assert forall|k: int| 0 <= k < metadata_rows(v).len() implies exists|i: int|
        0 <= i < v.len() && (#[trigger] v[i]).name == (#[trigger] metadata_rows(v)[k]).0 by {
        lemma_entry_row_named(v, k);
    }
}

/// A comparison gives under `removed` exactly the tensors and entries that only the old
/// checkpoint has, and under `added` exactly those that only the new one has.
pub proof fn law_removed_and_added(
    r: DiffReport,
    old_t: Seq<(Seq<char>, SigModel)>,
    new_t: Seq<(Seq<char>, SigModel)>,
    old_m: Seq<(Seq<char>, MetaModel)>,
    new_m: Seq<(Seq<char>, MetaModel)>,
    extras: Seq<ExtrasModel>,
)
    requires
        r.deep_view() == difference(old_t, new_t, old_m, new_m, extras),
    ensures
        forall|i: int|
            0 <= i < r.tensors_removed.len() ==> old_t.contains(
                (
                    (#[trigger] r.tensors_removed@[i]).0@,
                    SigModel {
                        dtype: r.tensors_removed@[i].1.dtype@,
                        shape: r.tensors_removed@[i].1.shape@,
                    },
                ),
            ) && !listed(new_t, r.tensors_removed@[i].0@),
        forall|i: int|
            0 <= i < old_t.len() && !listed(new_t, (#[trigger] old_t[i]).0) ==> exists|k: int|
                0 <= k < r.tensors_removed.len() && (#[trigger] r.tensors_removed@[k]).0@
                    == old_t[i].0,
        forall|i: int|
            0 <= i < r.tensors_added.len() ==> new_t.contains(
                (
                    (#[trigger] r.tensors_added@[i]).0@,
                    SigModel {
                        dtype: r.tensors_added@[i].1.dtype@,
                        shape: r.tensors_added@[i].1.shape@,
                    },
                ),
            ) && !listed(old_t, r.tensors_added@[i].0@),
        forall|i: int|
            0 <= i < new_t.len() && !listed(old_t, (#[trigger] new_t[i]).0) ==> exists|k: int|
                0 <= k < r.tensors_added.len() && (#[trigger] r.tensors_added@[k]).0@ == new_t[i].0,
        forall|i: int|
            0 <= i < r.meta_removed.len() ==> listed(old_m, (#[trigger] r.meta_removed@[i]).0@)
                && !listed(new_m, r.meta_removed@[i].0@),
        forall|i: int|
            0 <= i < old_m.len() && !listed(new_m, (#[trigger] old_m[i]).0) ==> exists|k: int|
                0 <= k < r.meta_removed.len() && (#[trigger] r.meta_removed@[k]).0@ == old_m[i].0,
        forall|i: int|
            0 <= i < r.meta_added.len() ==> listed(new_m, (#[trigger] r.meta_added@[i]).0@)
                && !listed(old_m, r.meta_added@[i].0@),
        forall|i: int|
            0 <= i < new_m.len() && !listed(old_m, (#[trigger] new_m[i]).0) ==> exists|k: int|
                0 <= k < r.meta_added.len() && (#[trigger] r.meta_added@[k]).0@ == new_m[i].0,
{
    let d = difference(old_t, new_t, old_m, new_m, extras);
    lemma_only_in(old_t, new_t);
    lemma_only_in(new_t, old_t);
    lemma_only_in(old_m, new_m);
    lemma_only_in(new_m, old_m);
    assert forall|i: int| 0 <= i < r.tensors_removed.len() implies old_t.contains(
        (
            (#[trigger] r.tensors_removed@[i]).0@,
            SigModel {
                dtype: r.tensors_removed@[i].1.dtype@,
                shape: r.tensors_removed@[i].1.shape@,
            },
        ),
    ) && !listed(new_t, r.tensors_removed@[i].0@) by {
        assert(d.tensors_removed[i] == entry_models(r.tensors_removed@)[i]);
    }
    assert forall|i: int|
        0 <= i < old_t.len() && !listed(new_t, (#[trigger] old_t[i]).0) implies exists|k: int|
        0 <= k < r.tensors_removed.len() && (#[trigger] r.tensors_removed@[k]).0@ == old_t[i].0 by {
        let k = d.tensors_removed.index_of(old_t[i]);
        assert(d.tensors_removed[k] == entry_models(r.tensors_removed@)[k]);
        assert(r.tensors_removed@[k].0@ == old_t[i].0);
    }
    assert forall|i: int| 0 <= i < r.tensors_added.len() implies new_t.contains(
        (
            (#[trigger] r.tensors_added@[i]).0@,
            SigModel { dtype: r.tensors_added@[i].1.dtype@, shape: r.tensors_added@[i].1.shape@ },
        ),
    ) && !listed(old_t, r.tensors_added@[i].0@) by {
        assert(d.tensors_added[i] == entry_models(r.tensors_added@)[i]);
    }
    assert forall|i: int|
        0 <= i < new_t.len() && !listed(old_t, (#[trigger] new_t[i]).0) implies exists|k: int|
        0 <= k < r.tensors_added.len() && (#[trigger] r.tensors_added@[k]).0@ == new_t[i].0 by {
        let k = d.tensors_added.index_of(new_t[i]);
        assert(d.tensors_added[k] == entry_models(r.tensors_added@)[k]);
        assert(r.tensors_added@[k].0@ == new_t[i].0);
    }
    assert forall|i: int| 0 <= i < r.meta_removed.len() implies listed(
        old_m,
        (#[trigger] r.meta_removed@[i]).0@,
    ) && !listed(new_m, r.meta_removed@[i].0@) by {
        assert(d.meta_removed[i] == entry_models(r.meta_removed@)[i]);
        let k = old_m.index_of(d.meta_removed[i]);
        assert(old_m[k].0 == r.meta_removed@[i].0@);
    }
    assert forall|i: int|
        0 <= i < old_m.len() && !listed(new_m, (#[trigger] old_m[i]).0) implies exists|k: int|
        0 <= k < r.meta_removed.len() && (#[trigger] r.meta_removed@[k]).0@ == old_m[i].0 by {
        let k = d.meta_removed.index_of(old_m[i]);
        assert(d.meta_removed[k] == entry_models(r.meta_removed@)[k]);
        assert(r.meta_removed@[k].0@ == old_m[i].0);
    }
    assert forall|i: int| 0 <= i < r.meta_added.len() implies listed(
        new_m,
        (#[trigger] r.meta_added@[i]).0@,
    ) && !listed(old_m, r.meta_added@[i].0@) by {
        assert(d.meta_added[i] == entry_models(r.meta_added@)[i]);
        let k = new_m.index_of(d.meta_added[i]);
        assert(new_m[k].0 == r.meta_added@[i].0@);
    }
    assert forall|i: int|
        0 <= i < new_m.len() && !listed(old_m, (#[trigger] new_m[i]).0) implies exists|k: int|
        0 <= k < r.meta_added.len() && (#[trigger] r.meta_added@[k]).0@ == new_m[i].0 by {
        let k = d.meta_added.index_of(new_m[i]);
        assert(d.meta_added[k] == entry_models(r.meta_added@)[k]);
        assert(r.meta_added@[k].0@ == new_m[i].0);
    }
}

// ---------------------------------------------------------------------------
// One tensor, and its distribution

/// A tensor on one side only is shown with the mark and the colour of that side; one that is
/// the same on both as the same, unless its values differ; a changed one with what it was
/// first and what it is behind it.
pub proof fn law_focus_shows_which_side(
    name: Seq<char>,
    o: &TensorSig,
    n: &TensorSig,
    values: Option<&ValueCmp>,
    color: bool,
)
    ensures
        focus_lines(name, Some(o), None, values, color) == seq![
            in_colour(
                color,
                "\x1b[31m"@,
                "- "@ + name + "  ["@ + (o.dtype@ + " "@ + shape_text(o.shape@))
                    + "]  (only in old)"@,
            ),
        ],
        focus_lines(name, None, Some(n), values, color) == seq![
            in_colour(
                color,
                "\x1b[32m"@,
                "+ "@ + name + "  ["@ + (n.dtype@ + " "@ + shape_text(n.shape@))
                    + "]  (only in new)"@,
            ),
        ],
        o.deep_view() == n.deep_view() ==> focus_lines(name, Some(o), Some(n), None, color) == seq![
            "  = "@ + name + "  ["@ + (o.dtype@ + " "@ + shape_text(o.shape@)) + "]  (identical)"@,
        ],
        o.deep_view() == n.deep_view() && values is Some && values->0 is Differ ==> focus_lines(
            name,
            Some(o),
            Some(n),
            values,
            color,
        )[0] == "  ~ "@ + name + "  ["@ + (o.dtype@ + " "@ + shape_text(o.shape@))
            + "]  (values differ)"@,
        o.deep_view() != n.deep_view() ==> focus_lines(name, Some(o), Some(n), values, false)[0]
            == "  ~ "@ + name + "  ["@ + (o.dtype@ + " "@ + shape_text(o.shape@)) + "] → ["@ + (
        n.dtype@ + " "@ + shape_text(n.shape@)) + "]"@,
{
}

/// The line on values gives how many differ and of how many, the largest and the mean
/// difference, and the mismatches of numbers that are not finite where there are any.
pub proof fn law_value_lines_give_the_counts(vd: ValueDiff)
    ensures
        ({
            let line = "    values: "@ + decimal(vd.differing as nat) + " of "@ + decimal(
                vd.elements as nat,
            ) + " differ  (max |Δ| "@ + vd.max_abs@ + ", mean |Δ| "@ + vd.mean_abs@ + ")"@;
            &&& vd.nonfinite_mismatch == 0 ==> value_text(vd) == line
            &&& vd.nonfinite_mismatch > 0 ==> value_text(vd) == line + ("  ["@ + decimal(
                vd.nonfinite_mismatch as nat,
            ) + " non-finite mismatch]"@)
        }),
{
    reveal_strlit("");
    let line = "    values: "@ + decimal(vd.differing as nat) + " of "@ + decimal(
        vd.elements as nat,
    ) + " differ  (max |Δ| "@ + vd.max_abs@ + ", mean |Δ| "@ + vd.mean_abs@ + ")"@;
    assert(line + ""@ =~= line);
}

/// A gain has a plus and is green, a loss has a minus and is red.
pub proof fn law_gains_and_losses(n: nat)
    requires
        n > 0,
    ensures
        delta_text(n as int, true) == "\x1b[32m"@ + ("+"@ + decimal(n)) + "\x1b[0m"@,
        delta_text(-(n as int), true) == "\x1b[31m"@ + ("-"@ + decimal(n)) + "\x1b[0m"@,
        delta_text(n as int, false) == "+"@ + decimal(n),
        delta_text(-(n as int), false) == "-"@ + decimal(n),
        delta_text(0, false) == "0"@,
{
}

proof fn lemma_bin_rows(h: HistogramDiff, from: int, i: int, color: bool)
    requires
        0 <= from <= i < h.n,
        h.bin_row(i, color).len() == 1,
    ensures
        h.bin_rows(from, color).contains(h.bin_row(i, color)[0]),
    decreases h.n - from,
{
    let (a, b) = (h.bin_row(from, color), h.bin_rows(from + 1, color));
    let all = a + b;
    if from == i {
        assert(all[0] == a[0]);
    } else {
        lemma_bin_rows(h, from + 1, i, color);
        let k = b.index_of(h.bin_row(i, color)[0]);
        assert(all[a.len() + k] == b[k]);
    }
}

/// A bin that is not empty on both sides has a row: its label, the count of the old side, that
/// of the new side, and by how much the new exceeds the old. An empty one has none.
pub proof fn law_histogram_rows_compare_the_counts(
    h: HistogramDiff,
    name: Seq<char>,
    color: bool,
    i: int,
)
    requires
        0 <= i < h.n,
        h.old_counts.len() == h.n,
        h.new_counts.len() == h.n,
    ensures
        h.old_counts@[i] > 0 || h.new_counts@[i] > 0 ==> h.table(name, color).contains(
            "    "@ + pad_left(h.label(i), 18) + "  "@ + pad_left(
                decimal(h.old_counts@[i] as nat),
                12,
            ) + "  "@ + pad_left(decimal(h.new_counts@[i] as nat), 12) + "  "@ + pad_left(
                delta_text(h.new_counts@[i] - h.old_counts@[i], color),
                12,
            ),
        ),
        h.old_counts@[i] == 0 && h.new_counts@[i] == 0 ==> h.bin_row(i, color).len() == 0,
        h.old_nonfinite > 0 || h.new_nonfinite > 0 ==> h.table(name, color).last() == "    "@
            + pad_left("non-finite"@, 18) + "  "@ + pad_left(decimal(h.old_nonfinite as nat), 12)
            + "  "@ + pad_left(decimal(h.new_nonfinite as nat), 12),
{
    if h.old_counts@[i] > 0 || h.new_counts@[i] > 0 {
        lemma_bin_rows(h, 0, i, color);
        let rows = h.bin_rows(0, color);
        let k = rows.index_of(h.bin_row(i, color)[0]);
        assert(h.table(name, color)[k + 2] == rows[k]);
    }
}

/// The integers of a bin follow on those of the bin before.
pub proof fn law_bins_follow_each_other(h: HistogramDiff, start: i64, step: i64, i: int)
    requires
        h.bins == (HistBins::IntBins { start, step }),
        step > 1,
    ensures
        h.label(i) == signed(start + i * step) + ".."@ + signed(start + (i + 1) * step - 1),
        h.label(0) == signed(start as int) + ".."@ + signed(start + step - 1),
{
    assert((i + 1) * step == i * step + step) by (nonlinear_arith);
    assert(0 * step == 0);
}

/// The counts of a group are those of its members together.
pub proof fn law_group_counts_add_up(items: Seq<ChangeModel>, members: Seq<usize>, m: usize)
    requires
        m < items.len(),
    ensures
        ({
            let (c, after) = (counts_of(items, members), counts_of(items, members.push(m)));
            let x = items[m as int];
            &&& after.compared == (c.compared || x.values is Some)
            &&& x.values is None ==> after.elements == c.elements && after.differing == c.differing
                && after.nonfinite == c.nonfinite
            &&& x.values matches Some(v) ==> (c.elements + v.elements <= u128::MAX ==> after.elements
                == c.elements + v.elements) && (c.differing + v.differing <= u128::MAX
                ==> after.differing == c.differing + v.differing)
            &&& counts_of(items, Seq::empty()).elements == 0
            &&& counts_of(items, Seq::empty()).differing == 0
        }),
{
    assert(members.push(m).drop_last() =~= members);
}

/// A metadata value is shown on one line, in quotes: all of it where it is short, else as it
/// begins.
pub proof fn law_values_are_shown_on_one_line(v: Seq<char>)
    ensures
        quoted(v)[0] == '"',
        quoted(v).last() == '"',
        !quoted(v).contains('\n'),
        v.len() <= 60 ==> quoted(v).len() == v.len() + 2,
        v.len() > 60 ==> quoted(v).len() == 63,
        forall|i: int|
            0 <= i < v.len() && i < 60 && v[i] != '\n' && v[i] != '\r' ==> #[trigger] quoted(
                v,
            )[i + 1] == v[i],
{
    reveal_strlit("\"");
    reveal_strlit("…\"");
}

/// The names that both checkpoints have are those that stand in both.
pub proof fn law_common_names_are_in_both(a: CheckpointSummary, b: CheckpointSummary, x: Seq<char>)
    requires
        a.wf(),
        b.wf(),
    ensures
        common_names(a, b).contains(x) <==> listed(a.tensors.rows(), x) && listed(
            b.tensors.rows(),
            x,
        ),
{
    broadcast use vstd::seq_lib::group_filter_ensures;

    let (rows, other) = (a.tensors.rows(), b.tensors.rows());
    let keep = row_in(other, true);
    let both = shared(rows, other);
    let names = common_names(a, b);
    if names.contains(x) {
        let k = names.index_of(x);
        assert(both[k].0 == x);
        assert(keep(both[k]));
        assert(both.contains(both[k]));
        rows.lemma_filter_contains_rev(keep, both[k]);
        let i = rows.index_of(both[k]);
        assert(rows[i].0 == x);
    }
    if listed(rows, x) && listed(other, x) {
        let i = choose|i: int| 0 <= i < rows.len() && (#[trigger] rows[i]).0 == x;
        assert(has_row(other, x));
        assert(keep(rows[i]));
        rows.lemma_filter_contains(keep, i);
        let k = both.index_of(rows[i]);
        assert(names[k] == x);
    }
}

// ---------------------------------------------------------------------------
// Lines of groups

/// How many entries a line stands for, where it is more than one.
pub open spec fn times(n: nat) -> Seq<char> {
    if n > 1 {
        "  (×"@ + decimal(n) + ")"@
    } else {
        ""@
    }
}

/// A rendered comparison begins with the old label and the new one. Behind the counts come the
/// groups that only the old checkpoint has, in red behind a minus, then those that only the
/// new one has, in green behind a plus, each with how many tensors it stands for.
pub proof fn law_rendered_groups_are_marked(
    d: ReportModel,
    old_label: Seq<char>,
    new_label: Seq<char>,
    opts: DiffOpts,
    notes: Seq<NoteModel>,
    i: int,
)
    ensures
        ({
            let ls = d.lines(old_label, new_label, opts, notes);
            let gone = entry_groups(d.tensors_removed, opts.group);
            let come = entry_groups(d.tensors_added, opts.group);
            &&& ls[0] == "--- "@ + old_label
            &&& ls[1] == "+++ "@ + new_label
            &&& 0 <= i < gone.len() ==> ls[6 + i] == in_colour(
                opts.color,
                "\x1b[31m"@,
                "- "@ + shown_name(gone[i].template, gone[i].indices) + "  ["@ + (gone[i].key.dtype
                    + " "@ + shape_text(gone[i].key.shape)) + "]"@,
            ) + times(gone[i].members.len())
            &&& 0 <= i < come.len() ==> ls[6 + gone.len() + i] == in_colour(
                opts.color,
                "\x1b[32m"@,
                "+ "@ + shown_name(come[i].template, come[i].indices) + "  ["@ + (come[i].key.dtype
                    + " "@ + shape_text(come[i].key.shape)) + "]"@,
            ) + times(come[i].members.len())
        }),
{
    let ls = d.lines(old_label, new_label, opts, notes);
    let head = d.header_lines(old_label, new_label, opts);
    let gone = entry_groups(d.tensors_removed, opts.group);
    let come = entry_groups(d.tensors_added, opts.group);
    let minus = gone.map_values(tensor_line("- "@, RED@, opts.color));
    let plus = come.map_values(tensor_line("+ "@, GREEN@, opts.color));
    assert(head.len() == 6);
    assert(ls[0] == head[0] && ls[1] == head[1]);
    if 0 <= i < gone.len() {
        assert(ls[6 + i] == minus[i]);
    }
    if 0 <= i < come.len() {
        assert(ls[6 + gone.len() + i] == plus[i]);
    }
}

/// The metadata follows behind its counts: what was removed, what was added, and what changed
/// with its old value before its new one; where it is not compared it is said why.
pub proof fn law_rendered_metadata(d: ReportModel, opts: DiffOpts, i: int)
    ensures
        ({
            let ls = d.metadata_lines(opts);
            let gone = entry_groups(d.meta_removed, opts.group);
            let come = entry_groups(d.meta_added, opts.group);
            let changed = entry_groups(d.meta_changed, opts.group);
            &&& opts.metadata && 0 <= i < gone.len() ==> ls[2 + i] == in_colour(
                opts.color,
                "\x1b[31m"@,
                "- "@ + shown_name(gone[i].template, gone[i].indices) + " = "@ + quoted(
                    gone[i].key.value,
                ),
            ) + times(gone[i].members.len())
            &&& opts.metadata && 0 <= i < come.len() ==> ls[2 + gone.len() + i] == in_colour(
                opts.color,
                "\x1b[32m"@,
                "+ "@ + shown_name(come[i].template, come[i].indices) + " = "@ + quoted(
                    come[i].key.value,
                ),
            ) + times(come[i].members.len())
            &&& opts.metadata && !opts.color && 0 <= i < changed.len() && changed[i].key.0.value
                != changed[i].key.1.value ==> ls[2 + gone.len() + come.len() + i] == "  ~ "@
                + shown_name(changed[i].template, changed[i].indices) + " = "@ + quoted(
                changed[i].key.0.value,
            ) + " → "@ + quoted(changed[i].key.1.value) + times(changed[i].members.len())
            &&& opts.metadata && !opts.color && 0 <= i < changed.len() && changed[i].key.0.value
                == changed[i].key.1.value ==> ls[2 + gone.len() + come.len() + i] == "  ~ "@
                + shown_name(changed[i].template, changed[i].indices) + " (type "@
                + changed[i].key.0.value_type + " → "@ + changed[i].key.1.value_type + ")"@ + times(
                changed[i].members.len(),
            )
            &&& !opts.metadata && opts.filtered ==> ls == seq![
                ""@,
                "metadata: not compared ("@ + "filtered subset"@ + ")"@,
            ]
            &&& !opts.metadata && !opts.filtered ==> ls == seq![
                ""@,
                "metadata: not compared ("@ + "--only-tensors"@ + ")"@,
            ]
        }),
{
    let ls = d.metadata_lines(opts);
    let gone = entry_groups(d.meta_removed, opts.group);
    let come = entry_groups(d.meta_added, opts.group);
    let changed = entry_groups(d.meta_changed, opts.group);
    if opts.metadata {
        if 0 <= i < gone.len() {
            assert(ls[2 + i] == meta_line("- "@, RED@, opts.color)(gone[i]));
        }
        if 0 <= i < come.len() {
            assert(ls[2 + gone.len() + i] == meta_line("+ "@, GREEN@, opts.color)(come[i]));
        }
        if 0 <= i < changed.len() {
            assert(ls[2 + gone.len() + come.len() + i] == meta_change_line(opts.color)(changed[i]));
        }
    }
}

/// Below a changed group its values are told where they are asked for: that they could not be
/// compared, that they are the same, or how many of how many differ; and then its
/// distribution, where that is asked for.
pub proof fn law_rendered_changes_tell_the_values(
    g: GroupModel<(SigModel, SigModel)>,
    items: Seq<ChangeModel>,
    note: NoteModel,
    opts: DiffOpts,
)
    ensures
        ({
            let ls = change_lines(g, items, note, opts);
            let c = counts_of(items, g.members);
            &&& !opts.values && !opts.histogram ==> ls.len() == 1
            &&& opts.values && !c.compared ==> ls[1] == "    values: not compared (shapes differ)"@
            &&& opts.values && c.compared && c.differing == 0 ==> ls[1] == "    values: identical"@
            &&& opts.values && c.compared && c.differing > 0 && c.nonfinite == 0 ==> ls[1]
                == "    values: "@ + decimal(c.differing as nat) + " of "@ + decimal(
                c.elements as nat,
            ) + " differ  (max |Δ| "@ + note.max_abs + ", mean |Δ| "@ + note.mean_abs + ")"@ + ""@
            &&& opts.histogram && c.histograms == 0 ==> ls.last()
                == "    histogram: not compared (shapes differ)"@
            &&& opts.histogram && c.histograms == 1 ==> ls.last() == "    histogram: TVD "@
                + note.tvd_max + " ("@ + decimal(c.bins as nat) + " bins)"@
            &&& opts.histogram && c.histograms > 1 ==> ls.last() == "    histogram: TVD max "@
                + note.tvd_max + " mean "@ + note.tvd_mean + " ("@ + decimal(c.bins as nat)
                + " bins)"@
        }),
{
}

} // verus!
