//! What the statistics over a checkpoint say of its tensors.
use vstd::prelude::*;

use crate::leaves::{added, lemma_added_is_sum, taken_on_disk};
use crate::names::{expert_of, layer_of, names_expert, parts_of};
use crate::order::{lemma_order, lemma_rank_order, lemma_sorted_position, lemma_stable_sort};
use crate::order::{rank_order, sorted_position, stable_sort, text_order, total_preorder};
use crate::stats::{ascending, by_dtype, by_family, by_file, dtype_breakdown, experts_of, file_sizes};
use crate::stats::{highest_expert, larger_share, largest_at, largest_number, law_extremes};
use crate::stats::{layer_family, layer_numbers, median, most_numbers, named_layers};
use crate::stats::{numbers_in, of_experts, smallest_at, stacked_experts, tallies, tally_of};
use crate::stats::{dtype_row, saves, saving_text, tensor_sizes, widest_tally, CheckpointStats};
use crate::stats::{ExpertStorage, FileStats, LayerStats, TallyModel};
use crate::stats::{allocated_size, allocation_sum, apparent_size, base_name, length_sum, measured};
use crate::stats::{shard_sum, ShardDisk};
use crate::text::{after_last_of, decimal, law_behind_the_last, pad_left, pad_right};
use crate::tree::{bucket_names, countable, disk_bytes, elements, falls_into, logical_bytes};
use crate::tree::{lemma_bucket_names_distinct, lemma_sum_filter, members, sum_of, TensorModel};
use crate::units::{parameters_text, ratio, size_text};

verus! {

// ---------------------------------------------------------------------------
// The middle of numbers

/// How many of some numbers are below `m`.
pub open spec fn count_below(v: Seq<usize>, m: int) -> nat
    decreases v.len(),
{
    if v.len() == 0 {
        0
    } else {
        count_below(v.drop_last(), m) + if v.last() < m {
            1nat
        } else {
            0
        }
    }
}

proof fn lemma_count_insert(v: Seq<usize>, p: int, x: usize, m: int)
    requires
        0 <= p <= v.len(),
    ensures
        count_below(v.insert(p, x), m) == count_below(v, m) + if x < m {
            1nat
        } else {
            0
        },
    decreases v.len(),
{
    let r = v.insert(p, x);
    if p == v.len() {
        assert(r.drop_last() =~= v);
    } else {
        lemma_count_insert(v.drop_last(), p, x, m);
        assert(r.drop_last() =~= v.drop_last().insert(p, x));
        assert(r.last() == v.last());
    }
}

proof fn lemma_count_sort(v: Seq<usize>, m: int)
    ensures
        count_below(ascending(v), m) == count_below(v, m),
    decreases v.len(),
{
    if v.len() > 0 {
        let le = rank_order::<usize>();
        let r = stable_sort(v.drop_last(), le);
        lemma_rank_order::<usize>();
        lemma_count_sort(v.drop_last(), m);
        lemma_stable_sort(v.drop_last(), le);
        lemma_sorted_position(r, v.last(), le);
        lemma_count_insert(r, sorted_position(r, v.last(), le), v.last(), m);
    }
}

proof fn lemma_count_at_most(v: Seq<usize>, m: int, k: int)
    requires
        0 <= k <= v.len(),
        forall|i: int| k <= i < v.len() ==> #[trigger] v[i] >= m,
    ensures
        count_below(v, m) <= k,
    decreases v.len(),
{
    if v.len() > 0 {
        let t = v.drop_last();
        if k == v.len() {
            lemma_count_at_most(t, m, k - 1);
        } else {
            assert(v[v.len() - 1] >= m);
            lemma_count_at_most(t, m, k);
        }
    }
}

proof fn lemma_count_at_least(v: Seq<usize>, m: int, k: int)
    requires
        0 <= k <= v.len(),
        forall|i: int| 0 <= i < k ==> #[trigger] v[i] < m,
    ensures
        count_below(v, m) >= k,
    decreases v.len(),
{
    if v.len() > 0 && k > 0 {
        let t = v.drop_last();
        if k == v.len() {
            assert(v[v.len() - 1] < m);
            lemma_count_at_least(t, m, k - 1);
        } else {
            lemma_count_at_least(t, m, k);
        }
    }
}

/// The median of some numbers is one of them, at most half of them are below it, and more
/// than half are not above it.
pub proof fn law_median_is_in_the_middle(v: Seq<usize>)
    requires
        v.len() > 0,
    ensures
        v.contains(median(v)),
        2 * count_below(v, median(v) as int) <= v.len(),
        2 * count_below(v, median(v) + 1) > v.len(),
{
    broadcast use vstd::seq_lib::group_to_multiset_ensures;

    let le = rank_order::<usize>();
    let s = ascending(v);
    let k = v.len() as int / 2;
    let m = median(v) as int;
    lemma_rank_order::<usize>();
    lemma_stable_sort(v, le);
    assert(s[k] == m);
    assert(s.contains(s[k]));
    assert(s.to_multiset().count(s[k]) > 0);
    assert(v.to_multiset().count(s[k]) > 0);
    lemma_count_sort(v, m);
    lemma_count_sort(v, m + 1);
    assert forall|i: int| k <= i < s.len() implies #[trigger] s[i] >= m by {
        if i > k {
            assert(le(s[k], s[i]));
        }
    }
    assert forall|i: int| 0 <= i < k + 1 implies #[trigger] s[i] < m + 1 by {
        if i < k {
            assert(le(s[i], s[k]));
        }
    }
    lemma_count_at_most(s, m, k);
    lemma_count_at_least(s, m + 1, k + 1);
}

// ---------------------------------------------------------------------------
// Totals

/// The statistics give how many tensors there are, what their elements, their bytes and
/// their bytes on disk add up to, whether one of them is compressed, and the mean and the
/// median of their bytes.
pub proof fn law_totals_are_sums(s: CheckpointStats, ts: Seq<TensorModel>)
    requires
        s.describes(ts),
    ensures
        s.n_tensors == ts.len(),
        s.params == added(ts, |t: TensorModel| t.num_elements as nat),
        s.logical_bytes == added(ts, |t: TensorModel| t.size_bytes as nat),
        s.disk_bytes == added(ts, |t: TensorModel| taken_on_disk(t)),
        s.compressed <==> exists|i: int|
            0 <= i < ts.len() && (#[trigger] ts[i]).storage is Compressed,
        ts.len() > 0 ==> s.mean_bytes * ts.len() <= s.logical_bytes,
        ts.len() > 0 ==> s.logical_bytes < (s.mean_bytes + 1) * ts.len(),
        ts.len() > 0 ==> 2 * count_below(
            ts.map_values(|t: TensorModel| t.size_bytes),
            s.median_bytes as int,
        ) <= ts.len(),
        ts.len() > 0 ==> 2 * count_below(
            ts.map_values(|t: TensorModel| t.size_bytes),
            s.median_bytes + 1,
        ) > ts.len(),
        ts.len() == 0 ==> s.mean_bytes == 0 && s.median_bytes == 0,
{
    lemma_added_is_sum(ts, |t: TensorModel| t.num_elements as nat, elements());
    lemma_added_is_sum(ts, |t: TensorModel| t.size_bytes as nat, logical_bytes());
    lemma_added_is_sum(ts, |t: TensorModel| taken_on_disk(t), disk_bytes());
    if ts.len() > 0 {
        law_median_is_in_the_middle(tensor_sizes(ts));
        assert(tensor_sizes(ts) =~= ts.map_values(|t: TensorModel| t.size_bytes));
        let (a, b) = (s.logical_bytes as int, ts.len() as int);
        vstd::arithmetic::div_mod::lemma_fundamental_div_mod(a, b);
        let q = a / b;
        assert(q * b <= a < (q + 1) * b) by (nonlinear_arith)
            requires
                a == b * q + a % b,
                0 <= a % b < b,
        ;
    }
}

/// The largest tensor is one that no other exceeds, the smallest one that no other is
/// below; where several are largest the last of them is named, where several are smallest
/// the first.
pub proof fn law_named_sizes_are_extremes(s: CheckpointStats, ts: Seq<TensorModel>)
    requires
        s.describes(ts),
        ts.len() > 0,
    ensures
        s.largest is Some,
        s.smallest is Some,
        exists|i: int|
            0 <= i < ts.len() && (#[trigger] ts[i]).name == s.largest->0.name@ && ts[i].size_bytes
                == s.largest->0.bytes && forall|j: int|
                i < j < ts.len() ==> (#[trigger] ts[j]).size_bytes < s.largest->0.bytes,
        exists|i: int|
            0 <= i < ts.len() && (#[trigger] ts[i]).name == s.smallest->0.name@ && ts[i].size_bytes
                == s.smallest->0.bytes && forall|j: int|
                0 <= j < i ==> (#[trigger] ts[j]).size_bytes > s.smallest->0.bytes,
        forall|j: int| 0 <= j < ts.len() ==> (#[trigger] ts[j]).size_bytes <= s.largest->0.bytes,
        forall|j: int| 0 <= j < ts.len() ==> (#[trigger] ts[j]).size_bytes >= s.smallest->0.bytes,
{
    law_extremes(ts);
    lemma_extremes_at(ts);
    let (i, j) = (largest_at(ts), smallest_at(ts));
    assert(ts[i].name == s.largest->0.name@);
    assert(ts[j].name == s.smallest->0.name@);
}

proof fn lemma_extremes_at(ts: Seq<TensorModel>)
    requires
        ts.len() > 0,
    ensures
        forall|j: int|
            largest_at(ts) < j < ts.len() ==> (#[trigger] ts[j]).size_bytes
                < ts[largest_at(ts)].size_bytes,
        forall|j: int|
            0 <= j < smallest_at(ts) ==> (#[trigger] ts[j]).size_bytes
                > ts[smallest_at(ts)].size_bytes,
    decreases ts.len(),
{
    if ts.len() > 1 {
        let t = ts.drop_last();
        law_extremes(t);
        lemma_extremes_at(t);
        assert forall|j: int| largest_at(ts) < j < ts.len() implies (#[trigger] ts[j]).size_bytes
            < ts[largest_at(ts)].size_bytes by {
            if j < t.len() {
                assert(t[j] == ts[j]);
            }
        }
        assert forall|j: int| 0 <= j < smallest_at(ts) implies (#[trigger] ts[j]).size_bytes
            > ts[smallest_at(ts)].size_bytes by {
            if j < t.len() {
                assert(t[j] == ts[j]);
            }
        }
    }
}

// ---------------------------------------------------------------------------
// Files and dtypes

/// The bytes of the tensors of one file.
pub open spec fn bytes_in_file(ts: Seq<TensorModel>, path: Seq<char>) -> nat {
    added(ts.filter(|t: TensorModel| t.source_path == path), |t: TensorModel| t.size_bytes as nat)
}

/// The bytes of the tensors of one dtype.
pub open spec fn bytes_of_dtype(ts: Seq<TensorModel>, dtype: Seq<char>) -> nat {
    added(ts.filter(|t: TensorModel| t.dtype == dtype), |t: TensorModel| t.size_bytes as nat)
}

proof fn lemma_bucket_of(
    ts: Seq<TensorModel>,
    key: spec_fn(TensorModel) -> Option<Seq<char>>,
    j: int,
)
    requires
        0 <= j < ts.len(),
        key(ts[j]) is Some,
    ensures
        bucket_names(ts, key).contains(key(ts[j])->0),
    decreases ts.len(),
{
    let t = ts.drop_last();
    let k = key(ts[j])->0;
    let names = bucket_names(t, key);
    let all = bucket_names(ts, key);
    if j < t.len() {
        assert(t[j] == ts[j]);
        lemma_bucket_of(t, key, j);
        let i = names.index_of(k);
        assert(all[i] == k);
    } else if names.contains(k) {
        let i = names.index_of(k);
        assert(all[i] == k);
    } else {
        assert(all.last() == k);
    }
}

/// Files are counted once each, however many tensors they hold; the largest holds at least
/// as many bytes as every file, the smallest at most, and each is the size of one of them.
pub proof fn law_files_are_counted_once(s: FileStats, ts: Seq<TensorModel>)
    requires
        s.describes(ts),
        countable(ts),
    ensures
        s.count == ts.map_values(|t: TensorModel| t.source_path).to_set().len(),
        forall|j: int|
            0 <= j < ts.len() ==> s.smallest <= bytes_in_file(ts, (#[trigger] ts[j]).source_path)
                <= s.largest,
        ts.len() > 0 ==> exists|j: int|
            0 <= j < ts.len() && bytes_in_file(ts, (#[trigger] ts[j]).source_path) == s.largest,
        ts.len() > 0 ==> exists|j: int|
            0 <= j < ts.len() && bytes_in_file(ts, (#[trigger] ts[j]).source_path) == s.smallest,
        s.count > 0 ==> s.mean * s.count <= added(ts, |t: TensorModel| t.size_bytes as nat)
            < (s.mean + 1) * s.count,
{
    broadcast use vstd::seq_lib::group_to_multiset_ensures;

    let key = by_file();
    let names = bucket_names(ts, key);
    let paths = ts.map_values(|t: TensorModel| t.source_path);
    let sizes = file_sizes(ts);
    let up = ascending(sizes);
    lemma_bucket_names_distinct(ts, key);
    assert(names.to_set() =~= paths.to_set()) by {
        assert forall|k: Seq<char>| names.contains(k) implies #[trigger] paths.contains(k) by {
            let i = names.index_of(k);
            let j = choose|j: int| 0 <= j < ts.len() && key(#[trigger] ts[j]) == Some(names[i]);
            assert(paths[j] == k);
        }
        assert forall|k: Seq<char>| paths.contains(k) implies #[trigger] names.contains(k) by {
            let j = paths.index_of(k);
            assert(key(ts[j]) == Some(k));
            lemma_bucket_of(ts, key, j);
        }
    }
    names.unique_seq_to_set();
    assert(sizes.len() == names.len());
    lemma_rank_order::<usize>();
    lemma_stable_sort(sizes, rank_order::<usize>());
    assert forall|i: int| 0 <= i < names.len() implies #[trigger] sizes[i] == bytes_in_file(
        ts,
        names[i],
    ) by {
        lemma_keyed(ts, key, names[i], |t: TensorModel| t.source_path == names[i]);
        assert(sizes[i] == tallies(ts, key)[i].bytes);
    }
    assert forall|j: int| 0 <= j < ts.len() implies s.smallest <= bytes_in_file(
        ts,
        (#[trigger] ts[j]).source_path,
    ) <= s.largest by {
        let k = ts[j].source_path;
        assert(key(ts[j]) == Some(k));
        lemma_bucket_of(ts, key, j);
        let i = names.index_of(k);
        assert(sizes[i] == bytes_in_file(ts, k));
        assert(sizes.contains(sizes[i]));
        assert(up.to_multiset().count(sizes[i]) > 0);
        let u = up.index_of(sizes[i]);
        let le = rank_order::<usize>();
        if u < up.len() - 1 {
            assert(le(up[u], up[up.len() - 1]));
        }
        if u > 0 {
            assert(le(up[0], up[u]));
        }
    }
    lemma_added_is_sum(ts, |t: TensorModel| t.size_bytes as nat, logical_bytes());
    if ts.len() > 0 {
        assert(key(ts[0]) is Some);
        lemma_bucket_of(ts, key, 0);
        assert(names.len() > 0);
        lemma_size_of_a_file(ts, s.largest, up.len() - 1);
        lemma_size_of_a_file(ts, s.smallest, 0);
    }
    if s.count > 0 {
        let (a, b) = (sum_of(ts, logical_bytes()) as int, s.count as int);
        vstd::arithmetic::div_mod::lemma_fundamental_div_mod(a, b);
        let q = a / b;
        assert(q * b <= a < (q + 1) * b) by (nonlinear_arith)
            requires
                a == b * q + a % b,
                0 <= a % b < b,
        ;
    }
}

proof fn lemma_size_of_a_file(ts: Seq<TensorModel>, size: usize, u: int)
    requires
        countable(ts),
        0 <= u < ascending(file_sizes(ts)).len(),
        size == ascending(file_sizes(ts))[u],
    ensures
        exists|j: int|
            0 <= j < ts.len() && bytes_in_file(ts, (#[trigger] ts[j]).source_path) == size,
{
    broadcast use vstd::seq_lib::group_to_multiset_ensures;

    let key = by_file();
    let names = bucket_names(ts, key);
    let sizes = file_sizes(ts);
    let up = ascending(sizes);
    lemma_rank_order::<usize>();
    lemma_stable_sort(sizes, rank_order::<usize>());
    assert(up.contains(up[u]));
    assert(sizes.to_multiset().count(up[u]) > 0);
    let i = sizes.index_of(up[u]);
    lemma_bucket_names_distinct(ts, key);
    lemma_keyed(ts, key, names[i], |t: TensorModel| t.source_path == names[i]);
    assert(sizes[i] == tallies(ts, key)[i].bytes);
    let j = choose|j: int| 0 <= j < ts.len() && key(#[trigger] ts[j]) == Some(names[i]);
    assert(ts[j].source_path == names[i]);
}

/// What stands under a key are the tensors that a test picks.
proof fn lemma_keyed(
    ts: Seq<TensorModel>,
    key: spec_fn(TensorModel) -> Option<Seq<char>>,
    k: Seq<char>,
    test: spec_fn(TensorModel) -> bool,
)
    requires
        countable(ts),
        forall|t: TensorModel| #[trigger] test(t) == (key(t) == Some(k)),
    ensures
        members(ts, key, Some(k)) == ts.filter(test),
        added(ts.filter(test), |t: TensorModel| t.size_bytes as nat) == sum_of(
            ts.filter(test),
            logical_bytes(),
        ),
        added(ts.filter(test), |t: TensorModel| t.num_elements as nat) == sum_of(
            ts.filter(test),
            elements(),
        ),
        sum_of(ts.filter(test), logical_bytes()) <= usize::MAX,
        sum_of(ts.filter(test), elements()) <= usize::MAX,
        ts.filter(test).len() <= ts.len(),
{
    assert(falls_into(key, Some(k)) =~= test);
    lemma_added_is_sum(ts.filter(test), |t: TensorModel| t.size_bytes as nat, logical_bytes());
    lemma_added_is_sum(ts.filter(test), |t: TensorModel| t.num_elements as nat, elements());
    lemma_sum_filter(ts, logical_bytes(), test);
    lemma_sum_filter(ts, elements(), test);
    ts.lemma_filter_len(test);
}

proof fn lemma_share_order()
    ensures
        total_preorder(larger_share()),
{
    assert forall|a: TallyModel, b: TallyModel| true implies #[trigger] larger_share()(a, b)
        || larger_share()(b, a) by {
        lemma_order(a.name, b.name, b.name);
    }
    assert forall|a: TallyModel, b: TallyModel, c: TallyModel| #[trigger]
        larger_share()(a, b) && #[trigger] larger_share()(b, c) implies larger_share()(a, c) by {
        lemma_order(a.name, b.name, c.name);
    }
}

/// Each row of the breakdown by dtype gives how many tensors are of that dtype and what
/// their bytes add up to; the dtype of every tensor has a row; a row with more bytes stands
/// before one with fewer, and of two with as many the one whose name comes first.
pub proof fn law_dtypes_are_counted(s: CheckpointStats, ts: Seq<TensorModel>)
    requires
        s.describes(ts),
        countable(ts),
        ts.len() <= usize::MAX,
    ensures
        forall|i: int|
            0 <= i < s.dtypes.len() ==> (#[trigger] s.dtypes@[i]).count == ts.filter(
                |t: TensorModel| t.dtype == s.dtypes@[i].dtype@,
            ).len() && s.dtypes@[i].bytes == bytes_of_dtype(ts, s.dtypes@[i].dtype@),
        forall|j: int|
            0 <= j < ts.len() ==> exists|i: int|
                0 <= i < s.dtypes.len() && (#[trigger] s.dtypes@[i]).dtype@ == (
                #[trigger] ts[j]).dtype,
        forall|i: int, j: int|
            #![trigger s.dtypes@[i], s.dtypes@[j]]
            0 <= i < j < s.dtypes.len() ==> s.dtypes@[i].bytes >= s.dtypes@[j].bytes && (
            s.dtypes@[i].bytes == s.dtypes@[j].bytes ==> text_order(
                s.dtypes@[i].dtype@,
                s.dtypes@[j].dtype@,
            ) <= 0),
{
    broadcast use vstd::seq_lib::group_to_multiset_ensures;

    let key = by_dtype();
    let names = bucket_names(ts, key);
    let rows = tallies(ts, key);
    let r = dtype_breakdown(ts);
    lemma_share_order();
    lemma_stable_sort(rows, larger_share());
    assert forall|i: int| 0 <= i < s.dtypes.len() implies (#[trigger] s.dtypes@[i]).deep_view()
        == r[i] by {
        assert(s.dtypes.deep_view()[i] == s.dtypes@[i].deep_view());
    }
    assert forall|i: int| 0 <= i < s.dtypes.len() implies (#[trigger] s.dtypes@[i]).count
        == ts.filter(|t: TensorModel| t.dtype == s.dtypes@[i].dtype@).len() && s.dtypes@[i].bytes
        == bytes_of_dtype(ts, s.dtypes@[i].dtype@) by {
        assert(r.contains(r[i]));
        assert(rows.to_multiset().count(r[i]) > 0);
        let n = rows.index_of(r[i]);
        lemma_keyed(ts, key, names[n], |t: TensorModel| t.dtype == names[n]);
        assert(rows[n] == tally_of(ts, key, names[n]));
    }
    assert forall|j: int| 0 <= j < ts.len() implies exists|i: int|
        0 <= i < s.dtypes.len() && (#[trigger] s.dtypes@[i]).dtype@ == (#[trigger] ts[j]).dtype by {
        assert(key(ts[j]) == Some(ts[j].dtype));
        lemma_bucket_of(ts, key, j);
        let n = names.index_of(ts[j].dtype);
        assert(rows[n] == tally_of(ts, key, names[n]));
        assert(rows.contains(rows[n]));
        assert(r.to_multiset().count(rows[n]) > 0);
        let i = r.index_of(rows[n]);
        assert(s.dtypes@[i].deep_view() == r[i]);
    }
    assert forall|i: int, j: int|
        #![trigger s.dtypes@[i], s.dtypes@[j]]
        0 <= i < j < s.dtypes.len() implies s.dtypes@[i].bytes >= s.dtypes@[j].bytes && (
    s.dtypes@[i].bytes == s.dtypes@[j].bytes ==> text_order(
        s.dtypes@[i].dtype@,
        s.dtypes@[j].dtype@,
    ) <= 0) by {
        assert(s.dtypes@[i].deep_view() == r[i]);
        assert(s.dtypes@[j].deep_view() == r[j]);
        assert(larger_share()(r[i], r[j]));
    }
}

// ---------------------------------------------------------------------------
// Layers and experts

/// Whether a tensor is number `n` of the family `p`.
pub open spec fn numbered(t: TensorModel, p: Seq<char>, n: nat) -> bool {
    layer_of(t.name) == Some((p, n))
}

/// Whether a tensor is of the family `p`.
pub open spec fn of_family(t: TensorModel, p: Seq<char>) -> bool {
    layer_of(t.name) is Some && layer_of(t.name).unwrap().0 == p
}

/// The numbers that occur in the family `p`.
pub open spec fn numbers_of(ts: Seq<TensorModel>, p: Seq<char>) -> Set<nat> {
    Set::new(|n: nat| exists|j: int| 0 <= j < ts.len() && numbered(#[trigger] ts[j], p, n))
}

proof fn lemma_numbers(ts: Seq<TensorModel>, p: Seq<char>)
    ensures
        numbers_in(ts, p).no_duplicates(),
        numbers_in(ts, p).to_set() == numbers_of(ts, p),
    decreases ts.len(),
{
    let all = numbers_in(ts, p);
    if ts.len() > 0 {
        let t = ts.drop_last();
        let had = numbers_in(t, p);
        let x = ts.last();
        lemma_numbers(t, p);
        assert forall|n: nat| all.contains(n) implies #[trigger] numbers_of(ts, p).contains(n) by {
            if had.contains(n) {
                assert(had.to_set().contains(n));
                let j = choose|j: int| 0 <= j < t.len() && numbered(#[trigger] t[j], p, n);
                assert(numbered(ts[j], p, n));
            } else {
                let i = all.index_of(n);
                if i < had.len() {
                    assert(had[i] == n);
                }
                assert(numbered(ts[ts.len() - 1], p, n));
            }
        }
        assert forall|n: nat| #[trigger] numbers_of(ts, p).contains(n) implies all.contains(n) by {
            let j = choose|j: int| 0 <= j < ts.len() && numbered(#[trigger] ts[j], p, n);
            if j < t.len() {
                assert(numbered(t[j], p, n));
                assert(numbers_of(t, p).contains(n));
                assert(had.to_set().contains(n));
            }
            if had.contains(n) {
                let i = had.index_of(n);
                assert(all[i] == n);
            } else {
                assert(all.last() == n);
            }
        }
        assert(all.to_set() =~= numbers_of(ts, p));
    } else {
        assert(all.to_set() =~= numbers_of(ts, p));
    }
}

proof fn lemma_largest_number(v: Seq<nat>)
    ensures
        forall|i: int| 0 <= i < v.len() ==> #[trigger] v[i] <= largest_number(v),
        v.len() > 0 ==> v.contains(largest_number(v)),
    decreases v.len(),
{
    if v.len() > 0 {
        let t = v.drop_last();
        lemma_largest_number(t);
        assert forall|i: int| 0 <= i < v.len() implies #[trigger] v[i] <= largest_number(v) by {
            if i < t.len() {
                assert(t[i] == v[i]);
            }
        }
        if largest_number(v) == v.last() {
            assert(v[v.len() - 1] == largest_number(v));
        } else if t.len() > 0 {
            let i = t.index_of(largest_number(t));
            assert(v[i] == largest_number(v));
        }
    }
}

proof fn lemma_named_layers(families: Seq<Seq<char>>)
    ensures
        match named_layers(families) {
            Some(p) => families.contains(p) && parts_of(p).last() == "layers"@,
            None => forall|i: int|
                0 <= i < families.len() ==> parts_of(#[trigger] families[i]).last() != "layers"@,
        },
    decreases families.len(),
{
    if families.len() > 0 {
        let t = families.drop_last();
        lemma_named_layers(t);
        match named_layers(t) {
            Some(p) => {
                let i = t.index_of(p);
                assert(families[i] == p);
            },
            None => {
                assert forall|i: int| 0 <= i < families.len() && named_layers(families) is None implies
                    parts_of(#[trigger] families[i]).last() != "layers"@ by {
                    if i < t.len() {
                        assert(t[i] == families[i]);
                    }
                }
                assert(families[families.len() - 1] == families.last());
            },
        }
    }
}

proof fn lemma_most_numbers(ts: Seq<TensorModel>, families: Seq<Seq<char>>)
    ensures
        match most_numbers(ts, families) {
            Some(p) => families.contains(p) && forall|i: int|
                0 <= i < families.len() ==> numbers_in(ts, #[trigger] families[i]).len()
                    <= numbers_in(ts, p).len(),
            None => families.len() == 0,
        },
    decreases families.len(),
{
    if families.len() > 0 {
        let t = families.drop_last();
        lemma_most_numbers(ts, t);
        let p = most_numbers(ts, families)->0;
        assert forall|i: int| 0 <= i < families.len() implies numbers_in(
            ts,
            #[trigger] families[i],
        ).len() <= numbers_in(ts, p).len() by {
            if i < t.len() {
                assert(t[i] == families[i]);
            }
        }
        if p == families.last() {
            assert(families[families.len() - 1] == p);
        } else {
            let i = t.index_of(p);
            assert(families[i] == p);
        }
    }
}

/// What the layer stack `l` says of the family `p`: one more than the highest number in it,
/// and what the elements and the bytes of its tensors add up to.
pub open spec fn is_stack(l: LayerStats, ts: Seq<TensorModel>, p: Seq<char>) -> bool {
    &&& numbers_of(ts, p).contains((l.count - 1) as nat)
    &&& forall|n: nat| #[trigger] numbers_of(ts, p).contains(n) ==> n < l.count
    &&& l.params == added(
        ts.filter(|t: TensorModel| of_family(t, p)),
        |t: TensorModel| t.num_elements as nat,
    )
    &&& l.bytes == added(
        ts.filter(|t: TensorModel| of_family(t, p)),
        |t: TensorModel| t.size_bytes as nat,
    )
}

/// A family of numbered modules that is taken for the layers: one that is called so, or, where
/// none is, one in which no fewer numbers occur than in any other.
pub open spec fn may_be_layers(ts: Seq<TensorModel>, p: Seq<char>) -> bool {
    ||| parts_of(p).last() == "layers"@
    ||| forall|j: int|
        0 <= j < ts.len() && layer_of((#[trigger] ts[j]).name) is Some ==> {
            let q = layer_of(ts[j].name).unwrap().0;
            parts_of(q).last() != "layers"@ && numbers_of(ts, q).len() <= numbers_of(ts, p).len()
        }
}

/// There is a layer stack where a tensor's name has a number, and only there; it is that of a
/// family called `layers`, or else of one with the most numbers.
pub proof fn law_layers_are_a_family(s: CheckpointStats, ts: Seq<TensorModel>)
    requires
        s.describes(ts),
        countable(ts),
        forall|j: int|
            0 <= j < ts.len() && layer_of((#[trigger] ts[j]).name) is Some ==> layer_of(
                ts[j].name,
            ).unwrap().1 < u32::MAX,
    ensures
        s.layers is Some <==> exists|j: int|
            0 <= j < ts.len() && layer_of((#[trigger] ts[j]).name) is Some,
        s.layers is Some ==> exists|p: Seq<char>| #[trigger]
            may_be_layers(ts, p) && is_stack(s.layers->0, ts, p),
{
    let key = by_family();
    let families = bucket_names(ts, key);
    lemma_named_layers(families);
    lemma_most_numbers(ts, families);
    lemma_bucket_names_distinct(ts, key);
    assert forall|j: int| 0 <= j < ts.len() && layer_of((#[trigger] ts[j]).name) is Some implies
        families.contains(layer_of(ts[j].name).unwrap().0) by {
        assert(key(ts[j]) == Some(layer_of(ts[j].name).unwrap().0));
        lemma_bucket_of(ts, key, j);
    }
    if families.len() > 0 {
        assert(families[0] == families[0]);
        let j = choose|j: int| 0 <= j < ts.len() && key(#[trigger] ts[j]) == Some(families[0]);
        assert(layer_of(ts[j].name) is Some);
    }
    if s.layers is Some {
        let p = layer_family(ts)->0;
        let l = s.layers->0;
        let ns = numbers_in(ts, p);
        assert(families.contains(p));
        let f = families.index_of(p);
        let j = choose|j: int| 0 <= j < ts.len() && key(#[trigger] ts[j]) == Some(families[f]);
        let n = layer_of(ts[j].name).unwrap().1;
        lemma_numbers(ts, p);
        assert(numbered(ts[j], p, n));
        assert(numbers_of(ts, p).contains(n));
        assert(ns.to_set().contains(n));
        assert(ns.len() > 0);
        lemma_largest_number(ns);
        let top = largest_number(ns);
        assert(ns.to_set().contains(top));
        assert(numbers_of(ts, p).contains(top));
        let at = choose|at: int| 0 <= at < ts.len() && numbered(#[trigger] ts[at], p, top);
        assert(layer_of(ts[at].name).unwrap().1 < u32::MAX);
        assert(l.count == top + 1);
        assert((l.count - 1) as nat == top);
        assert forall|m: nat| #[trigger] numbers_of(ts, p).contains(m) implies m < l.count by {
            assert(ns.to_set().contains(m));
            let i = ns.index_of(m);
            assert(ns[i] <= top);
        }
        lemma_keyed(ts, key, p, |t: TensorModel| of_family(t, p));
        assert(may_be_layers(ts, p)) by {
            if named_layers(families) is None {
                assert forall|j: int|
                    0 <= j < ts.len() && layer_of((#[trigger] ts[j]).name) is Some implies {
                    let q = layer_of(ts[j].name).unwrap().0;
                    parts_of(q).last() != "layers"@ && numbers_of(ts, q).len() <= numbers_of(
                        ts,
                        p,
                    ).len()
                } by {
                    let q = layer_of(ts[j].name).unwrap().0;
                    assert(families.contains(q));
                    let i = families.index_of(q);
                    assert(families[i] == q);
                    lemma_numbers(ts, q);
                    numbers_in(ts, q).unique_seq_to_set();
                    ns.unique_seq_to_set();
                }
            }
        }
        assert(is_stack(l, ts, p));
    }
}

/// Whether a tensor is of the expert number `n`.
pub open spec fn of_expert(t: TensorModel, n: nat) -> bool {
    expert_of(t.name) == Some(n)
}

proof fn lemma_highest_expert(ts: Seq<TensorModel>)
    ensures
        match highest_expert(ts) {
            Some(m) => (exists|j: int| 0 <= j < ts.len() && of_expert(#[trigger] ts[j], m))
                && forall|j: int|
                0 <= j < ts.len() && expert_of((#[trigger] ts[j]).name) is Some ==> expert_of(
                    ts[j].name,
                )->0 <= m,
            None => forall|j: int| 0 <= j < ts.len() ==> expert_of((#[trigger] ts[j]).name) is None,
        },
    decreases ts.len(),
{
    if ts.len() > 0 {
        let t = ts.drop_last();
        let x = ts.last();
        lemma_highest_expert(t);
        assert(ts[ts.len() - 1] == x);
        match highest_expert(ts) {
            Some(m) => {
                if expert_of(x.name) == Some(m) {
                    assert(of_expert(ts[ts.len() - 1], m));
                } else {
                    let j = choose|j: int| 0 <= j < t.len() && of_expert(#[trigger] t[j], m);
                    assert(of_expert(ts[j], m));
                }
                assert forall|j: int|
                    0 <= j < ts.len() && expert_of((#[trigger] ts[j]).name) is Some implies expert_of(
                    ts[j].name,
                )->0 <= m by {
                    if j < t.len() {
                        assert(t[j] == ts[j]);
                    }
                }
            },
            None => {
                assert forall|j: int| 0 <= j < ts.len() implies expert_of(
                    (#[trigger] ts[j]).name,
                ) is None by {
                    if j < t.len() {
                        assert(t[j] == ts[j]);
                    }
                }
            },
        }
    }
}

/// There are experts where a tensor's name has an `experts` part, and only there; their
/// parameters and bytes are what those tensors add up to; where experts have tensors of
/// their own, there is one more than the highest number of one, and the storage is unfused;
/// else there are as many as are declared, and the storage is fused.
pub proof fn law_experts_are_counted(ts: Seq<TensorModel>, declared: Option<u64>)
    requires
        countable(ts),
        forall|j: int|
            0 <= j < ts.len() && expert_of((#[trigger] ts[j]).name) is Some ==> expert_of(
                ts[j].name,
            )->0 < u32::MAX,
        declared is Some ==> declared->0 <= usize::MAX,
    ensures
        experts_of(ts, declared) is Some <==> exists|j: int|
            0 <= j < ts.len() && names_expert((#[trigger] ts[j]).name),
        experts_of(ts, declared) matches Some(e) ==> {
            &&& e.params == added(
                ts.filter(|t: TensorModel| names_expert(t.name)),
                |t: TensorModel| t.num_elements as nat,
            )
            &&& e.bytes == added(
                ts.filter(|t: TensorModel| names_expert(t.name)),
                |t: TensorModel| t.size_bytes as nat,
            )
            &&& e.storage == ExpertStorage::Unfused <==> exists|j: int|
                0 <= j < ts.len() && expert_of((#[trigger] ts[j]).name) is Some
            &&& e.storage == ExpertStorage::Unfused ==> exists|j: int|
                0 <= j < ts.len() && of_expert(#[trigger] ts[j], (e.per_layer - 1) as nat)
            &&& e.storage == ExpertStorage::Unfused ==> forall|j: int|
                0 <= j < ts.len() && expert_of((#[trigger] ts[j]).name) is Some ==> expert_of(
                    ts[j].name,
                )->0 < e.per_layer
            &&& e.storage == ExpertStorage::Fused && declared is Some ==> e.per_layer == declared->0
        },
{
    let keep = of_experts();
    let own = ts.filter(keep);
    let test = |t: TensorModel| names_expert(t.name);
    assert(keep =~= test);
    lemma_highest_expert(ts);
    lemma_added_is_sum(own, |t: TensorModel| t.num_elements as nat, elements());
    lemma_added_is_sum(own, |t: TensorModel| t.size_bytes as nat, logical_bytes());
    lemma_sum_filter(ts, elements(), keep);
    lemma_sum_filter(ts, logical_bytes(), keep);
    if own.len() > 0 {
        ts.lemma_filter_pred(keep, 0);
        assert(own.contains(own[0]));
        ts.lemma_filter_contains_rev(keep, own[0]);
        let j = ts.index_of(own[0]);
        assert(names_expert(ts[j].name));
    }
    assert forall|j: int| 0 <= j < ts.len() && names_expert((#[trigger] ts[j]).name) implies own.len()
        > 0 by {
        assert(keep(ts[j]));
        ts.lemma_filter_contains(keep, j);
        assert(own.contains(ts[j]));
    }
    if own.len() > 0 && highest_expert(ts) is Some {
        let m = highest_expert(ts)->0;
        let j = choose|j: int| 0 <= j < ts.len() && of_expert(#[trigger] ts[j], m);
        assert(expert_of(ts[j].name)->0 < u32::MAX);
        let e = experts_of(ts, declared)->0;
        assert(e.per_layer == m + 1);
        assert(of_expert(ts[j], (e.per_layer - 1) as nat));
    }
}

// ---------------------------------------------------------------------------
// The report

/// A label, filled up to twelve characters, and its value.
pub open spec fn labelled(label: Seq<char>, value: Seq<char>) -> Seq<char> {
    "  "@ + pad_right(label, 12) + " "@ + value
}

/// Some lines stand together among others.
pub open spec fn has_section(lines: Seq<Seq<char>>, section: Seq<Seq<char>>) -> bool {
    exists|h: int| #[trigger] stands_at(lines, section, h)
}

/// Some lines stand together among others, from the `h`-th on.
pub open spec fn stands_at(lines: Seq<Seq<char>>, section: Seq<Seq<char>>, h: int) -> bool {
    0 <= h && h + section.len() <= lines.len() && lines.subrange(h, h + section.len()) == section
}

proof fn lemma_section(a: Seq<Seq<char>>, section: Seq<Seq<char>>, b: Seq<Seq<char>>)
    ensures
        has_section(a + section + b, section),
{
    let all = a + section + b;
    assert(all.subrange(a.len() as int, (a.len() + section.len()) as int) =~= section);
    assert(stands_at(all, section, a.len() as int));
}

/// The report gives the parameters and the size under their labels, and the architecture
/// where it is known.
pub proof fn law_report_shows_the_totals(s: CheckpointStats, expanded: bool)
    ensures
        has_section(
            s.report(expanded),
            seq![
                labelled("Parameters"@, parameters_text(s.params as nat)),
                labelled(
                    "Size"@,
                    if s.compressed && s.disk_bytes > 0 {
                        size_text(s.disk_bytes as nat) + " on disk · "@ + size_text(
                            s.logical_bytes as nat,
                        ) + " logical ("@ + ratio(s.logical_bytes as nat, s.disk_bytes as nat)
                            + "× smaller)"@
                    } else {
                        size_text(s.logical_bytes as nat)
                    },
                ),
            ],
        ),
        s.model_type is Some ==> s.report(expanded)[3] == labelled(
            "Architecture"@,
            s.model_type->0@,
        ),
{
    let n = s.overview_lines().len() - 2;
    let lead = s.overview_lines().take(n);
    let section = s.overview_lines().skip(n);
    let rest = s.file_lines() + s.tensor_lines() + s.layer_lines() + s.expert_lines()
        + s.dtype_lines() + s.disk_lines(expanded);
    assert(s.overview_lines() =~= lead + section);
    assert(s.report(expanded) =~= lead + section + rest);
    lemma_section(lead, section, rest);
    assert(section =~= seq![
        labelled("Parameters"@, parameters_text(s.params as nat)),
        labelled("Size"@, s.size_value()),
    ]);
}

/// The report gives how many files there are, and the largest, the smallest, the average and
/// the median of their sizes.
pub proof fn law_report_shows_the_files(s: CheckpointStats, expanded: bool)
    ensures
        has_section(
            s.report(expanded),
            seq![
                ""@,
                "▤ Files  ×"@ + decimal(s.files.count as nat) + " "@ + s.files.noun@,
                labelled("Largest"@, size_text(s.files.largest as nat)),
                labelled("Smallest"@, size_text(s.files.smallest as nat)),
                labelled("Average"@, size_text(s.files.mean as nat)),
                labelled("Median"@, size_text(s.files.median as nat)),
            ],
        ),
{
    let rest = s.tensor_lines() + s.layer_lines() + s.expert_lines() + s.dtype_lines()
        + s.disk_lines(expanded);
    assert(s.report(expanded) =~= s.overview_lines() + s.file_lines() + rest);
    lemma_section(s.overview_lines(), s.file_lines(), rest);
}

/// The report gives how many tensors there are, the largest and the smallest with their
/// names, and the average and the median of their sizes.
pub proof fn law_report_shows_the_tensors(s: CheckpointStats, expanded: bool)
    requires
        s.largest is Some,
        s.smallest is Some,
    ensures
        has_section(
            s.report(expanded),
            seq![
                ""@,
                "▦ Tensors  ×"@ + decimal(s.n_tensors as nat),
                labelled(
                    "Largest"@,
                    pad_right(size_text(s.largest->0.bytes as nat), 9) + " "@ + s.largest->0.name@,
                ),
                labelled(
                    "Smallest"@,
                    pad_right(size_text(s.smallest->0.bytes as nat), 9) + " "@ + s.smallest->0.name@,
                ),
                labelled("Average"@, size_text(s.mean_bytes as nat)),
                labelled("Median"@, size_text(s.median_bytes as nat)),
            ],
        ),
{
    let lead = s.overview_lines() + s.file_lines();
    let rest = s.layer_lines() + s.expert_lines() + s.dtype_lines() + s.disk_lines(expanded);
    assert(s.report(expanded) =~= lead + s.tensor_lines() + rest);
    lemma_section(lead, s.tensor_lines(), rest);
    assert(s.tensor_lines() =~= seq![
        ""@,
        "▦ Tensors  ×"@ + decimal(s.n_tensors as nat),
        labelled(
            "Largest"@,
            pad_right(size_text(s.largest->0.bytes as nat), 9) + " "@ + s.largest->0.name@,
        ),
        labelled(
            "Smallest"@,
            pad_right(size_text(s.smallest->0.bytes as nat), 9) + " "@ + s.smallest->0.name@,
        ),
        labelled("Average"@, size_text(s.mean_bytes as nat)),
        labelled("Median"@, size_text(s.median_bytes as nat)),
    ]);
}

/// Of layers the report gives how many there are, and the parameters and the size of one and
/// of all; of experts their storage, and the same.
pub proof fn law_report_shows_layers_and_experts(s: CheckpointStats, expanded: bool)
    ensures
        s.layers matches Some(l) ==> l.count > 0 ==> has_section(
            s.report(expanded),
            seq![
                ""@,
                "≡ Layers  ×"@ + decimal(l.count as nat),
                labelled(
                    "Params"@,
                    parameters_text(l.params as nat / l.count as nat) + " each · "@
                        + parameters_text(l.params as nat) + " total"@,
                ),
                labelled(
                    "Size"@,
                    size_text(l.bytes as nat / l.count as nat) + " each · "@ + size_text(
                        l.bytes as nat,
                    ) + " total"@,
                ),
            ],
        ),
        s.experts matches Some(x) ==> x.per_layer > 0 && x.layers > 0 ==> has_section(
            s.report(expanded),
            seq![
                ""@,
                "◆ Experts"@ + ("  ×"@ + decimal(x.per_layer as nat) + " per layer"@),
                labelled(
                    "Storage"@,
                    (match x.storage {
                        ExpertStorage::Unfused => "unfused (per-expert tensors)"@,
                        ExpertStorage::Fused => "fused (stacked tensors)"@,
                    }) + (if x.gate_up_fused {
                        " · gate+up fused"@
                    } else {
                        ""@
                    }),
                ),
                labelled(
                    "Params"@,
                    parameters_text(x.params as nat / (x.layers as nat * x.per_layer as nat))
                        + " each · "@ + parameters_text(x.params as nat) + " total"@,
                ),
                labelled(
                    "Size"@,
                    size_text(x.bytes as nat / (x.layers as nat * x.per_layer as nat)) + " each · "@
                        + size_text(x.bytes as nat) + " total"@,
                ),
            ],
        ),
{
    let a = s.overview_lines() + s.file_lines() + s.tensor_lines();
    let rest = s.dtype_lines() + s.disk_lines(expanded);
    if s.layers is Some && s.layers->0.count > 0 {
        let l = s.layers->0;
        lemma_section(a, s.layer_lines(), s.expert_lines() + rest);
        assert(s.report(expanded) =~= a + s.layer_lines() + (s.expert_lines() + rest));
        assert(s.layer_lines() =~= seq![
            ""@,
            "≡ Layers  ×"@ + decimal(l.count as nat),
            labelled(
                "Params"@,
                parameters_text(l.params as nat / l.count as nat) + " each · "@ + parameters_text(
                    l.params as nat,
                ) + " total"@,
            ),
            labelled(
                "Size"@,
                size_text(l.bytes as nat / l.count as nat) + " each · "@ + size_text(l.bytes as nat)
                    + " total"@,
            ),
        ]);
    }
    if s.experts is Some && s.experts->0.per_layer > 0 && s.experts->0.layers > 0 {
        let x = s.experts->0;
        lemma_section(a + s.layer_lines(), s.expert_lines(), rest);
        assert(s.report(expanded) =~= a + s.layer_lines() + s.expert_lines() + rest);
        assert(x.total() == x.layers as nat * x.per_layer as nat);
        assert(s.expert_lines() =~= seq![
            ""@,
            "◆ Experts"@ + ("  ×"@ + decimal(x.per_layer as nat) + " per layer"@),
            labelled(
                "Storage"@,
                x.storage.spec_label() + (if x.gate_up_fused {
                    " · gate+up fused"@
                } else {
                    ""@
                }),
            ),
            labelled(
                "Params"@,
                parameters_text(x.params as nat / x.total()) + " each · "@ + parameters_text(
                    x.params as nat,
                ) + " total"@,
            ),
            labelled(
                "Size"@,
                size_text(x.bytes as nat / x.total()) + " each · "@ + size_text(x.bytes as nat)
                    + " total"@,
            ),
        ]);
    }
}

/// Each dtype has a line with its bytes and the number of its tensors; what the filesystem
/// allocated is given beside what the files are.
pub proof fn law_report_shows_dtypes_and_disk(s: CheckpointStats, i: int)
    ensures
        0 <= i < s.dtypes.len() ==> exists|name: Seq<char>, bytes: Seq<char>|
            {
                &&& name == pad_right(
                    s.dtypes@[i].dtype@,
                    widest_tally(s.dtypes.deep_view()) as nat,
                )
                &&& bytes == pad_left(size_text(s.dtypes@[i].bytes as nat), 8)
                &&& s.report(false).contains(
                    #[trigger] dtype_line(name, bytes, s.dtypes@[i].count as nat),
                )
            },
        s.disk matches Some(d) ==> s.report(false).contains(
            labelled(
                "Allocated"@,
                size_text(d.total_allocated as nat) + "  ("@ + size_text(d.total_apparent as nat)
                    + " apparent, "@ + saving_text(
                    d.total_apparent as nat,
                    d.total_allocated as nat,
                ) + ")"@,
            ),
        ),
{
    let before = s.overview_lines() + s.file_lines() + s.tensor_lines() + s.layer_lines()
        + s.expert_lines();
    let ls = s.report(false);
    assert(ls =~= before + s.dtype_lines() + s.disk_lines(false));
    if 0 <= i < s.dtypes.len() {
        let d = s.dtypes.deep_view()[i];
        assert(d == s.dtypes@[i].deep_view());
        let width = widest_tally(s.dtypes.deep_view()) as nat;
        let line = dtype_line(
            pad_right(s.dtypes@[i].dtype@, width),
            pad_left(size_text(s.dtypes@[i].bytes as nat), 8),
            s.dtypes@[i].count as nat,
        );
        assert(s.dtype_lines()[i + 2] == dtype_row(width)(d));
        assert(ls[before.len() + i + 2] == line);
    }
    if s.disk is Some {
        let at = before.len() + s.dtype_lines().len() + 2;
        assert(ls[at as int] == s.disk_lines(false)[2]);
    }
}

/// The line of a dtype.
pub open spec fn dtype_line(name: Seq<char>, bytes: Seq<char>, count: nat) -> Seq<char> {
    "  "@ + name + "  "@ + bytes + "  "@ + decimal(count) + " tensor"@ + (if count == 1 {
        ""@
    } else {
        "s"@
    })
}

/// A saving is claimed where the filesystem took less than the file is, but something; it is
/// said to be one where it is at least a hundredth.
pub proof fn law_savings_are_less_on_disk(apparent: nat, allocated: nat)
    ensures
        saving_text(apparent, allocated) == "no filesystem saving"@ || (0 < allocated < apparent
            && saving_text(apparent, allocated) == ratio(apparent, allocated) + "× smaller"@),
        allocated == 0 || allocated >= apparent ==> saving_text(apparent, allocated)
            == "no filesystem saving"@,
        saves(apparent, allocated) ==> allocated < apparent,
        saves(100 * apparent, 99 * apparent) <==> apparent > 0,
        !saves(apparent, apparent),
{
}

// ---------------------------------------------------------------------------
// Files on disk

/// A file that could be measured counts with its name, its length and 512 bytes for each of
/// its blocks; one that could not does not count.
pub proof fn law_measured_files_count(
    paths: Seq<Seq<char>>,
    found: Seq<Option<(u64, u64)>>,
    path: Seq<char>,
    len: u64,
    blocks: u64,
)
    ensures
        ({
            let before = measured(paths, found);
            let after = measured(paths.push(path), found.push(Some((len, blocks))));
            &&& after.len() == before.len() + 1
            &&& length_sum(after) == length_sum(before) + len
            &&& allocation_sum(after) == allocation_sum(before) + 512 * blocks
            &&& measured(paths.push(path), found.push(None)) == before
        }),
        forall|dir: Seq<char>, name: Seq<char>|
            !name.contains('/') && !name.contains(':') ==> #[trigger] base_name(dir + "/"@ + name)
                == name,
{
    let before = measured(paths, found);
    let after = measured(paths.push(path), found.push(Some((len, blocks))));
    assert(paths.push(path).drop_last() =~= paths);
    assert(found.push(Some((len, blocks))).drop_last() =~= found);
    assert(found.push(None).drop_last() =~= found);
    assert(after.drop_last() =~= before);
    reveal_strlit("/");
    assert forall|dir: Seq<char>, name: Seq<char>|
        !name.contains('/') && !name.contains(':') implies #[trigger] base_name(dir + "/"@ + name)
        == name by {
        lemma_base_name(dir, name);
    }
}

proof fn lemma_base_name(dir: Seq<char>, name: Seq<char>)
    requires
        !name.contains('/'),
        !name.contains(':'),
    ensures
        base_name(dir + "/"@ + name) == name,
{
    reveal_strlit("/");
    let s = dir + "/"@ + name;
    let n = dir.len() as int;
    law_behind_the_last(s, '/', ':');
    let at = after_last_of(s, '/', ':');
    assert(s[n] == '/');
    assert(at > n);
    if at > n + 1 {
        assert(s[at - 1] == name[at - 1 - (n + 1)]);
        assert(name.contains(name[at - 1 - (n + 1)]));
    }
    assert(s.skip(n + 1) =~= name);
}

/// What the filesystem holds of a checkpoint is what it holds of its files: their lengths and
/// their allocations, each added up.
pub proof fn law_usage_adds_up_the_files(shards: Seq<ShardDisk>, s: ShardDisk)
    ensures
        shard_sum(shards.push(s), apparent_size()) == shard_sum(shards, apparent_size())
            + s.apparent,
        shard_sum(shards.push(s), allocated_size()) == shard_sum(shards, allocated_size())
            + s.allocated,
        shard_sum(Seq::empty(), apparent_size()) == 0,
        shard_sum(Seq::empty(), allocated_size()) == 0,
{
    assert(shards.push(s).drop_last() =~= shards);
}

/// Where experts are stacked and none are declared, there are as many as the first dimension
/// of the first tensor of experts that has one says; they are in as many layers as their
/// names give numbers, and at least in one.
pub proof fn law_stacked_experts_are_counted(ts: Seq<TensorModel>, k: int)
    requires
        0 <= k < ts.len(),
        names_expert(ts[k].name),
        ts[k].shape.len() > 0,
        forall|j: int| 0 <= j < ts.len() ==> expert_of((#[trigger] ts[j]).name) is None,
        forall|j: int|
            0 <= j < k ==> !names_expert((#[trigger] ts[j]).name) || ts[j].shape.len() == 0,
    ensures
        experts_of(ts, None) is Some,
        experts_of(ts, None)->0.per_layer == ts[k].shape[0],
        ts.len() <= usize::MAX ==> ({
            let numbers = layer_numbers(ts.filter(of_experts()));
            let layers = experts_of(ts, None)->0.layers;
            &&& numbers.len() == 0 ==> layers == 1
            &&& numbers.len() > 0 ==> layers == numbers.len()
        }),
{
    lemma_highest_expert(ts);
    lemma_stacked(ts, k);
    assert(of_experts()(ts[k]));
    ts.lemma_filter_contains(of_experts(), k);
    let own = ts.filter(of_experts());
    assert(own.contains(ts[k]));
    ts.lemma_filter_len(of_experts());
    lemma_fewer_layers(own);
}

/// Layer numbers are those in the names of the tensors, and each is counted once.
pub proof fn law_layer_numbers_are_counted_once(ts: Seq<TensorModel>)
    ensures
        layer_numbers(ts).no_duplicates(),
        forall|j: int|
            0 <= j < ts.len() && layer_of((#[trigger] ts[j]).name) is Some ==> layer_numbers(
                ts,
            ).contains(layer_of(ts[j].name).unwrap().1),
        forall|n: nat| #[trigger]
            layer_numbers(ts).contains(n) ==> exists|j: int|
                0 <= j < ts.len() && layer_of((#[trigger] ts[j]).name) is Some && layer_of(
                    ts[j].name,
                ).unwrap().1 == n,
    decreases ts.len(),
{
    if ts.len() > 0 {
        let t = ts.drop_last();
        let r = layer_numbers(t);
        let all = layer_numbers(ts);
        law_layer_numbers_are_counted_once(t);
        assert forall|n: nat| r.contains(n) implies all.contains(n) by {
            let k = choose|k: int| 0 <= k < r.len() && r[k] == n;
            assert(all[k] == n);
        }
        assert forall|j: int|
            0 <= j < ts.len() && layer_of((#[trigger] ts[j]).name) is Some implies all.contains(
            layer_of(ts[j].name).unwrap().1,
        ) by {
            if j < t.len() {
                assert(t[j] == ts[j]);
            } else {
                let n = layer_of(ts[j].name).unwrap().1;
                if !r.contains(n) {
                    assert(all == r.push(n));
                    assert(all[r.len() as int] == n);
                }
            }
        }
        assert forall|n: nat| #[trigger] all.contains(n) implies exists|j: int|
            0 <= j < ts.len() && layer_of((#[trigger] ts[j]).name) is Some && layer_of(
                ts[j].name,
            ).unwrap().1 == n by {
            let k = choose|k: int| 0 <= k < all.len() && all[k] == n;
            if k < r.len() {
                assert(r[k] == n);
                assert(layer_numbers(t).contains(n));
                let j = choose|j: int|
                    0 <= j < t.len() && layer_of((#[trigger] t[j]).name) is Some && layer_of(
                        t[j].name,
                    ).unwrap().1 == n;
                assert(ts[j] == t[j]);
            } else {
                assert(ts[ts.len() - 1] == ts.last());
            }
        }
    }
}

proof fn lemma_fewer_layers(ts: Seq<TensorModel>)
    ensures
        layer_numbers(ts).len() <= ts.len(),
    decreases ts.len(),
{
    if ts.len() > 0 {
        lemma_fewer_layers(ts.drop_last());
    }
}

proof fn lemma_stacked(ts: Seq<TensorModel>, k: int)
    requires
        0 <= k < ts.len(),
        names_expert(ts[k].name),
        ts[k].shape.len() > 0,
        forall|j: int|
            0 <= j < k ==> !names_expert((#[trigger] ts[j]).name) || ts[j].shape.len() == 0,
    ensures
        stacked_experts(ts) == ts[k].shape[0],
    decreases ts.len(),
{
    if k > 0 {
        let t = ts.skip(1);
        assert(!names_expert(ts[0].name) || ts[0].shape.len() == 0);
        assert(t[k - 1] == ts[k]);
        assert forall|j: int| 0 <= j < k - 1 implies !names_expert((#[trigger] t[j]).name)
            || t[j].shape.len() == 0 by {
            assert(t[j] == ts[j + 1]);
        }
        lemma_stacked(t, k - 1);
    }
}

} // verus!
