//! Statistics over a whole checkpoint, and the report of them.
use vstd::prelude::*;

use crate::config::ModelConfig;
use crate::names::{expert_index, expert_of, is_expert, layer_of, name_parts, names_expert};
use crate::names::split_layer_index;
use crate::order::{compare_chars, lemma_order, lemma_rank_order, lemma_sorted_position};
use crate::order::{lemma_stable_sort, lemma_stable_sort_map, rank_order, sort_ranked, stable_sort};
use crate::order::{sorted_position, text_order, total_preorder, Ranked, Rel};
use crate::text::{add_line, add_lines, after_last_of, byte_len, chars_of, decimal, decimal_string};
use crate::text::{holds, join, joined, lower_ascii, lower_string, occurs, pad_left, pad_right};
use crate::text::{padded_left, padded_right, same, split, substring, texts};
use crate::tree::{bucket_names, countable, disk_bytes, elements, falls_into};
use crate::tree::{lemma_bucket_names_distinct, lemma_countable_filter, lemma_sum_filter};
use crate::tree::{lemma_sum_take, logical_bytes, members, sum_of, Storage};
use crate::tree::{TensorInfo, TensorModel};
use crate::units::{format_parameters, format_size, parameters_text, ratio, ratio_text, size_text};

verus! {

/// A tensor's name with its logical size.
#[derive(Debug)]
pub struct NamedSize {
    pub name: String,
    pub bytes: usize,
}

/// The repeated layer stack, aggregated.
#[derive(Debug)]
pub struct LayerStats {
    /// Highest layer number + 1.
    pub count: usize,
    pub params: usize,
    pub bytes: usize,
}

/// How experts are laid out on disk.
#[derive(Debug, Clone, Copy, PartialEq, Eq, Structural)]
pub enum ExpertStorage {
    /// Each expert is its own tensor.
    Unfused,
    /// Experts are stacked into one tensor per projection.
    Fused,
}

/// The expert structure of a checkpoint that has experts.
#[derive(Debug)]
pub struct ExpertStats {
    /// Experts per layer.
    pub per_layer: usize,
    pub storage: ExpertStorage,
    /// Whether gate and up projections are combined into one tensor.
    pub gate_up_fused: bool,
    pub params: usize,
    pub bytes: usize,
    /// Layers that carry experts.
    pub layers: usize,
}

/// A dtype and how much of the checkpoint it accounts for.
#[derive(Debug)]
pub struct DtypeStat {
    pub dtype: String,
    pub count: usize,
    pub bytes: usize,
}

/// The distribution of logical sizes over files.
#[derive(Debug)]
pub struct FileStats {
    /// Number of distinct files that the tensors were read from.
    pub count: usize,
    /// What to call one: "safetensors file" or "file".
    pub noun: &'static str,
    pub largest: usize,
    pub smallest: usize,
    pub mean: usize,
    pub median: usize,
}

/// One file's size against what the filesystem allocated for it.
#[derive(Debug)]
pub struct ShardDisk {
    /// The file's name without its directory.
    pub name: String,
    pub apparent: u64,
    pub allocated: u64,
}

/// Filesystem allocation over the files of a checkpoint.
#[derive(Debug)]
pub struct DiskUsage {
    pub shards: Vec<ShardDisk>,
    pub total_apparent: u64,
    pub total_allocated: u64,
}

/// Everything that the statistics report shows.
#[derive(Debug)]
pub struct CheckpointStats {
    pub files: FileStats,
    pub n_tensors: usize,
    pub params: usize,
    pub logical_bytes: usize,
    pub disk_bytes: usize,
    /// Whether any tensor is stored compressed.
    pub compressed: bool,
    pub largest: Option<NamedSize>,
    pub smallest: Option<NamedSize>,
    pub mean_bytes: usize,
    pub median_bytes: usize,
    /// Largest share first.
    pub dtypes: Vec<DtypeStat>,
    pub layers: Option<LayerStats>,
    pub experts: Option<ExpertStats>,
    pub model_type: Option<String>,
    pub disk: Option<DiskUsage>,
}

/// `n / d`, or `n` where `d` is 0.
pub open spec fn per(n: nat, d: nat) -> nat {
    if d == 0 {
        n
    } else {
        n / d
    }
}

/// `n / d`, or `n` where `d` is 0.
fn divide(n: usize, d: usize) -> (r: usize)
    ensures
        r == per(n as nat, d as nat),
{
    if d == 0 {
        n
    } else {
        n / d
    }
}

impl LayerStats {
    /// Average parameters in a single layer.
    pub fn params_each(&self) -> (r: usize)
        ensures
            r == per(self.params as nat, self.count as nat),
    {
        divide(self.params, self.count)
    }

    /// Average bytes in a single layer.
    pub fn bytes_each(&self) -> (r: usize)
        ensures
            r == per(self.bytes as nat, self.count as nat),
    {
        divide(self.bytes, self.count)
    }
}

impl ExpertStorage {
    pub open spec fn spec_label(self) -> Seq<char> {
        match self {
            ExpertStorage::Unfused => "unfused (per-expert tensors)"@,
            ExpertStorage::Fused => "fused (stacked tensors)"@,
        }
    }

    /// How the storage is called in the report.
    pub fn label(self) -> (s: &'static str)
        ensures
            s@ == self.spec_label(),
    {
        match self {
            ExpertStorage::Unfused => "unfused (per-expert tensors)",
            ExpertStorage::Fused => "fused (stacked tensors)",
        }
    }
}

/// The larger of a number and 1.
pub open spec fn at_least_one(n: nat) -> nat {
    if n == 0 {
        1
    } else {
        n
    }
}

impl ExpertStats {
    /// How many experts there are over all layers.
    pub open spec fn total(self) -> nat {
        at_least_one(self.layers as nat) * at_least_one(self.per_layer as nat)
    }

    fn divisor(&self) -> (r: usize)
        requires
            self.total() <= usize::MAX,
        ensures
            r == self.total(),
            r > 0,
    {
        let layers: usize = if self.layers == 0 {
            1
        } else {
            self.layers
        };
        let per_layer: usize = if self.per_layer == 0 {
            1
        } else {
            self.per_layer
        };
        proof {
            assert(layers * per_layer > 0) by (nonlinear_arith)
                requires
                    layers > 0,
                    per_layer > 0,
            ;
        }
        layers * per_layer
    }

    /// Average parameters in a single expert.
    pub fn params_each(&self) -> (r: usize)
        requires
            self.total() <= usize::MAX,
        ensures
            r == self.params as nat / self.total(),
    {
        self.params / self.divisor()
    }

    /// Average bytes in a single expert.
    pub fn bytes_each(&self) -> (r: usize)
        requires
            self.total() <= usize::MAX,
        ensures
            r == self.bytes as nat / self.total(),
    {
        self.bytes / self.divisor()
    }
}

/// The sum of a number over a list of shards.
pub open spec fn shard_sum(shards: Seq<ShardDisk>, f: spec_fn(ShardDisk) -> u64) -> nat
    decreases shards.len(),
{
    if shards.len() == 0 {
        0
    } else {
        shard_sum(shards.drop_last(), f) + f(shards.last()) as nat
    }
}

pub open spec fn apparent_size() -> spec_fn(ShardDisk) -> u64 {
    |s: ShardDisk| s.apparent
}

pub open spec fn allocated_size() -> spec_fn(ShardDisk) -> u64 {
    |s: ShardDisk| s.allocated
}

proof fn lemma_shard_sum_take(shards: Seq<ShardDisk>, f: spec_fn(ShardDisk) -> u64, n: int)
    requires
        0 <= n <= shards.len(),
    ensures
        shard_sum(shards.take(n), f) <= shard_sum(shards, f),
    decreases shards.len() - n,
{
    if n < shards.len() {
        lemma_shard_sum_take(shards, f, n + 1);
        assert(shards.take(n + 1).drop_last() =~= shards.take(n));
    } else {
        assert(shards.take(n) =~= shards);
    }
}

impl DiskUsage {
    /// The usage over the given files, if there are any.
    pub fn from_shards(shards: Vec<ShardDisk>) -> (r: Option<DiskUsage>)
        requires
            shard_sum(shards@, apparent_size()) <= u64::MAX,
            shard_sum(shards@, allocated_size()) <= u64::MAX,
        ensures
            shards.len() == 0 ==> r is None,
            shards.len() > 0 ==> r is Some && r->0.shards == shards && r->0.total_apparent
                == shard_sum(shards@, apparent_size()) && r->0.total_allocated == shard_sum(
                shards@,
                allocated_size(),
            ),
    {
        if shards.len() == 0 {
            return None;
        }
        let ghost all = shards@;
        let mut apparent: u64 = 0;
        let mut allocated: u64 = 0;
        let mut i: usize = 0;
        proof {
            assert(all.take(0) =~= Seq::empty());
        }
        while i < shards.len()
            invariant
                i <= shards.len(),
                all == shards@,
                shard_sum(all, apparent_size()) <= u64::MAX,
                shard_sum(all, allocated_size()) <= u64::MAX,
                apparent == shard_sum(all.take(i as int), apparent_size()),
                allocated == shard_sum(all.take(i as int), allocated_size()),
            decreases shards.len() - i,
        {
            proof {
                assert(all.take(i + 1).drop_last() =~= all.take(i as int));
                lemma_shard_sum_take(all, apparent_size(), i + 1);
                lemma_shard_sum_take(all, allocated_size(), i + 1);
            }
            apparent = apparent + shards[i].apparent;
            allocated = allocated + shards[i].allocated;
            i = i + 1;
        }
        proof {
            assert(all.take(i as int) =~= all);
        }
        Some(DiskUsage { shards, total_apparent: apparent, total_allocated: allocated })
    }
}

/// What stands behind the last `/` or `:` of a path.
pub open spec fn base_name(path: Seq<char>) -> Seq<char> {
    path.skip(after_last_of(path, '/', ':'))
}

/// A path's final component. `:` separates too, so that `host:/dir/shard` reduces to
/// the file's name.
pub fn shard_name(path: &str) -> (r: String)
    ensures
        r@ == base_name(path@),
{
    let v = chars_of(path);
    let n = v.len();
    let mut i: usize = n;
    proof {
        assert(v@.take(n as int) =~= v@);
    }
    while i > 0 && v[i - 1] != '/' && v[i - 1] != ':'
        invariant
            i <= n,
            n == v@.len(),
            after_last_of(v@, '/', ':') == after_last_of(v@.take(i as int), '/', ':'),
        decreases i,
    {
        proof {
            assert(v@.take(i as int).drop_last() =~= v@.take(i - 1));
        }
        i = i - 1;
    }
    proof {
        assert(v@.subrange(i as int, n as int) =~= v@.skip(i as int));
    }
    substring(&v, i, n)
}

// ---------------------------------------------------------------------------
// Tallies

/// Tensors by the file that they are in.
pub open spec fn by_file() -> spec_fn(TensorModel) -> Option<Seq<char>> {
    |t: TensorModel| Some(t.source_path)
}

/// Tensors by their dtype.
pub open spec fn by_dtype() -> spec_fn(TensorModel) -> Option<Seq<char>> {
    |t: TensorModel| Some(t.dtype)
}

/// The mathematical content of a [`DtypeStat`].
pub struct TallyModel {
    pub name: Seq<char>,
    pub count: usize,
    pub bytes: usize,
}

impl DeepView for DtypeStat {
    type V = TallyModel;

    open spec fn deep_view(&self) -> TallyModel {
        TallyModel { name: self.dtype@, count: self.count, bytes: self.bytes }
    }
}

/// Number and bytes of the tensors under one key.
pub open spec fn tally_of(
    ts: Seq<TensorModel>,
    key: spec_fn(TensorModel) -> Option<Seq<char>>,
    k: Seq<char>,
) -> TallyModel {
    TallyModel {
        name: k,
        count: members(ts, key, Some(k)).len() as usize,
        bytes: sum_of(members(ts, key, Some(k)), logical_bytes()) as usize,
    }
}

/// Number and bytes of the tensors under each key, in the order in which the keys
/// first occur.
pub open spec fn tallies(
    ts: Seq<TensorModel>,
    key: spec_fn(TensorModel) -> Option<Seq<char>>,
) -> Seq<TallyModel> {
    bucket_names(ts, key).map_values(|k: Seq<char>| tally_of(ts, key, k))
}

/// Tally tensors by dtype, or by file.
fn tally(ts: &[TensorInfo], dtype: bool) -> (r: Vec<DtypeStat>)
    requires
        countable(ts.deep_view()),
    ensures
        r.deep_view() == tallies(
            ts.deep_view(),
            if dtype {
                by_dtype()
            } else {
                by_file()
            },
        ),
{
    let ghost all = ts.deep_view();
    let ghost key = if dtype {
        by_dtype()
    } else {
        by_file()
    };
    let mut r: Vec<DtypeStat> = Vec::new();
    let mut i: usize = 0;
    proof {
        assert(all.take(0) =~= Seq::empty());
        assert(r.deep_view() =~= tallies(all.take(0), key));
    }
    while i < ts.len()
        invariant
            i <= ts.len(),
            all == ts.deep_view(),
            countable(all),
            key == if dtype {
                by_dtype()
            } else {
                by_file()
            },
            r.deep_view() == tallies(all.take(i as int), key),
        decreases ts.len() - i,
    {
        let ghost done = all.take(i as int);
        let ghost x = all[i as int];
        let k = if dtype {
            ts[i].dtype.clone()
        } else {
            ts[i].source_path.clone()
        };
        let ghost before = r@;
        let ghost names = bucket_names(done, key);
        proof {
            assert(all.take(i + 1) =~= done.push(x));
            assert(done.push(x).drop_last() =~= done);
            lemma_bucket_names_distinct(done, key);
            assert(r.deep_view().len() == names.len());
            done.lemma_filter_push(x, falls_into(key, Some(k@)));
            let own = members(done, key, Some(k@));
            assert(own.push(x).drop_last() =~= own);
            lemma_sum_filter(all.take(i + 1), logical_bytes(), falls_into(key, Some(k@)));
            lemma_sum_take(all, logical_bytes(), i + 1);
            done.push(x).lemma_filter_len(falls_into(key, Some(k@)));
            assert forall|j: int|
                0 <= j < names.len() && names[j] != k@ implies #[trigger] tally_of(
                done.push(x),
                key,
                names[j],
            ) == tally_of(done, key, names[j]) by {
                done.lemma_filter_push(x, falls_into(key, Some(names[j])));
            }
            assert forall|j: int| 0 <= j < names.len() implies (#[trigger] before[j]).deep_view()
                == tally_of(done, key, names[j]) by {
                assert(r.deep_view()[j] == before[j].deep_view());
            }
        }
        let mut b: usize = 0;
        while b < r.len() && r[b].dtype != k
            invariant
                b <= r.len(),
                r@ == before,
                r.len() == names.len(),
                forall|j: int|
                    0 <= j < names.len() ==> (#[trigger] before[j]).deep_view() == tally_of(
                        done,
                        key,
                        names[j],
                    ),
                forall|j: int| 0 <= j < b ==> #[trigger] names[j] != k@,
            decreases r.len() - b,
        {
            b = b + 1;
        }
        if b < r.len() {
            proof {
                assert(before[b as int].deep_view() == tally_of(done, key, names[b as int]));
                assert(names[b as int] == k@);
                assert(names.contains(k@));
            }
            let n = r[b].count + 1;
            let bytes = r[b].bytes + ts[i].size_bytes;
            let updated = DtypeStat { dtype: k, count: n, bytes };
            r.set(b, updated);
            proof {
                assert forall|j: int| 0 <= j < names.len() implies (#[trigger] r@[j]).deep_view()
                    == tally_of(done.push(x), key, names[j]) by {
                    if j != b {
                        assert(names[j] != names[b as int]);
                        assert(r@[j] == before[j]);
                    }
                }
                assert(r.deep_view() =~= tallies(done.push(x), key));
            }
        } else {
            proof {
                if names.contains(k@) {
                    let j = choose|j: int| 0 <= j < names.len() && names[j] == k@;
                    assert(names[j] != k@);
                }
                assert(members(done, key, Some(k@)).len() == 0);
                assert(members(done, key, Some(k@)) =~= Seq::empty());
            }
            r.push(DtypeStat { dtype: k, count: 1, bytes: ts[i].size_bytes });
            proof {
                let now = names.push(k@);
                let own = members(done.push(x), key, Some(k@));
                assert(own.len() == 1 && own.last() == x);
                assert(sum_of(own.drop_last(), logical_bytes()) == 0);
                assert(bucket_names(done.push(x), key) == now);
                assert forall|j: int| 0 <= j < now.len() implies (#[trigger] r@[j]).deep_view()
                    == tally_of(done.push(x), key, now[j]) by {
                    if j < names.len() {
                        assert(now[j] == names[j]);
                        assert(names.contains(names[j]));
                        assert(r@[j] == before[j]);
                    }
                }
                assert(r.deep_view() =~= tallies(done.push(x), key));
            }
        }
        i = i + 1;
    }
    proof {
        assert(all.take(i as int) =~= all);
    }
    r
}


// ---------------------------------------------------------------------------
// Sizes

/// A list of numbers in ascending order.
pub open spec fn ascending(v: Seq<usize>) -> Seq<usize> {
    stable_sort(v, rank_order::<usize>())
}

/// The number in the middle of a list, the upper of two (0 of none).
pub open spec fn median(v: Seq<usize>) -> usize {
    if v.len() == 0 {
        0
    } else {
        ascending(v)[v.len() as int / 2]
    }
}

/// The logical sizes of the files.
pub open spec fn file_sizes(ts: Seq<TensorModel>) -> Seq<usize> {
    tallies(ts, by_file()).map_values(|t: TallyModel| t.bytes)
}

/// The logical sizes of the tensors.
pub open spec fn tensor_sizes(ts: Seq<TensorModel>) -> Seq<usize> {
    ts.map_values(|t: TensorModel| t.size_bytes)
}

/// `total / n` (0 where there are none).
pub open spec fn mean(total: nat, n: nat) -> nat {
    if n == 0 {
        0
    } else {
        total / n
    }
}

/// What to call a file: by the extension of the first tensor's.
pub open spec fn file_noun(ts: Seq<TensorModel>) -> Seq<char> {
    if ts.len() > 0 && lower_ascii(split(ts[0].source_path, '.').last()) == "safetensors"@ {
        "safetensors file"@
    } else {
        "file"@
    }
}

/// The last of the largest tensors.
pub open spec fn largest_at(ts: Seq<TensorModel>) -> int
    decreases ts.len(),
{
    if ts.len() <= 1 || ts.last().size_bytes >= ts[largest_at(ts.drop_last())].size_bytes {
        ts.len() - 1
    } else {
        largest_at(ts.drop_last())
    }
}

/// The first of the smallest tensors.
pub open spec fn smallest_at(ts: Seq<TensorModel>) -> int
    decreases ts.len(),
{
    if ts.len() <= 1 || ts.last().size_bytes < ts[smallest_at(ts.drop_last())].size_bytes {
        ts.len() - 1
    } else {
        smallest_at(ts.drop_last())
    }
}

/// The largest tensor is at least as large as every other, the smallest at most.
pub proof fn law_extremes(ts: Seq<TensorModel>)
    requires
        ts.len() > 0,
    ensures
        0 <= largest_at(ts) < ts.len(),
        0 <= smallest_at(ts) < ts.len(),
        forall|i: int|
            0 <= i < ts.len() ==> (#[trigger] ts[i]).size_bytes <= ts[largest_at(ts)].size_bytes,
        forall|i: int|
            0 <= i < ts.len() ==> (#[trigger] ts[i]).size_bytes >= ts[smallest_at(ts)].size_bytes,
    decreases ts.len(),
{
    if ts.len() > 1 {
        let t = ts.drop_last();
        law_extremes(t);
        assert forall|i: int| 0 <= i < ts.len() implies (#[trigger] ts[i]).size_bytes
            <= ts[largest_at(ts)].size_bytes by {
            if i < t.len() {
                assert(t[i] == ts[i]);
            }
        }
        assert forall|i: int| 0 <= i < ts.len() implies (#[trigger] ts[i]).size_bytes
            >= ts[smallest_at(ts)].size_bytes by {
            if i < t.len() {
                assert(t[i] == ts[i]);
            }
        }
    }
}

/// Whether a list of tensors has one that is stored compressed.
pub open spec fn any_compressed(ts: Seq<TensorModel>) -> bool {
    exists|i: int| 0 <= i < ts.len() && (#[trigger] ts[i]).storage is Compressed
}

/// The extremes of a list of tensors.
fn extremes(ts: &[TensorInfo]) -> (r: (usize, usize))
    requires
        ts.len() > 0,
    ensures
        r.0 == largest_at(ts.deep_view()),
        r.1 == smallest_at(ts.deep_view()),
        r.0 < ts.len(),
        r.1 < ts.len(),
{
    let ghost all = ts.deep_view();
    let mut large: usize = 0;
    let mut small: usize = 0;
    let mut i: usize = 1;
    while i < ts.len()
        invariant
            1 <= i <= ts.len(),
            all == ts.deep_view(),
            large < i,
            small < i,
            large == largest_at(all.take(i as int)),
            small == smallest_at(all.take(i as int)),
        decreases ts.len() - i,
    {
        proof {
            assert(all.take(i + 1).drop_last() =~= all.take(i as int));
            assert(all.take(i + 1)[large as int] == all[large as int]);
            assert(all.take(i + 1)[small as int] == all[small as int]);
        }
        if ts[i].size_bytes >= ts[large].size_bytes {
            large = i;
        }
        if ts[i].size_bytes < ts[small].size_bytes {
            small = i;
        }
        i = i + 1;
    }
    proof {
        assert(all.take(i as int) =~= all);
    }
    (large, small)
}

/// The middle of a list of numbers.
fn median_of(v: Vec<usize>) -> (r: usize)
    ensures
        r == median(v@),
{
    let n = v.len();
    if n == 0 {
        return 0;
    }
    proof {
        lemma_rank_order::<usize>();
        lemma_stable_sort(v@, rank_order::<usize>());
    }
    let sorted = sort_ranked(v);
    sorted[n / 2]
}

/// The bytes of each tally.
fn tally_bytes(v: &Vec<DtypeStat>) -> (r: Vec<usize>)
    ensures
        r@ == v.deep_view().map_values(|t: TallyModel| t.bytes),
{
    let mut r: Vec<usize> = Vec::new();
    let mut i: usize = 0;
    while i < v.len()
        invariant
            i <= v.len(),
            r.len() == i,
            forall|j: int| 0 <= j < i ==> #[trigger] r@[j] == v@[j].bytes,
        decreases v.len() - i,
    {
        r.push(v[i].bytes);
        i = i + 1;
    }
    proof {
        assert(r@ =~= v.deep_view().map_values(|t: TallyModel| t.bytes));
    }
    r
}

impl FileStats {
    /// The statistics say what the files of `ts` hold.
    pub open spec fn describes(self, ts: Seq<TensorModel>) -> bool {
        let sizes = ascending(file_sizes(ts));
        &&& self.count == file_sizes(ts).len()
        &&& self.noun@ == file_noun(ts)
        &&& self.largest == if sizes.len() == 0 {
            0
        } else {
            sizes.last()
        }
        &&& self.smallest == if sizes.len() == 0 {
            0
        } else {
            sizes[0]
        }
        &&& self.mean == mean(sum_of(ts, logical_bytes()), file_sizes(ts).len())
        &&& self.median == median(file_sizes(ts))
    }
}

/// The statistics over the files that tensors are in.
fn file_stats(ts: &[TensorInfo], logical: usize) -> (r: FileStats)
    requires
        countable(ts.deep_view()),
        logical == sum_of(ts.deep_view(), logical_bytes()),
    ensures
        r.describes(ts.deep_view()),
{
    let per_file = tally(ts, false);
    let sizes = tally_bytes(&per_file);
    let ghost spec_sizes = file_sizes(ts.deep_view());
    let count = sizes.len();
    proof {
        assert(sizes@ == spec_sizes);
        lemma_rank_order::<usize>();
        lemma_stable_sort(spec_sizes, rank_order::<usize>());
    }
    let mut noun = "file";
    if ts.len() > 0 {
        let parts = crate::text::split_on(&chars_of(ts[0].source_path.as_str()), '.');
        proof {
            crate::text::lemma_split_nonempty(ts@[0].source_path@, '.');
            assert(texts(parts@).len() == parts@.len());
            assert(texts(parts@).last() == parts@.last()@);
        }
        let ext = lower_string(parts[parts.len() - 1].as_str());
        if same(ext.as_str(), "safetensors") {
            noun = "safetensors file";
        }
    }
    let sorted = sort_ranked(sizes);
    if count == 0 {
        FileStats { count, noun, largest: 0, smallest: 0, mean: 0, median: 0 }
    } else {
        FileStats {
            count,
            noun,
            largest: sorted[count - 1],
            smallest: sorted[0],
            mean: logical / count,
            median: sorted[count / 2],
        }
    }
}

/// By bytes, the largest first; then by name.
impl Ranked for DtypeStat {
    open spec fn ranks_before(self, other: DtypeStat) -> bool {
        larger_share()(self.deep_view(), other.deep_view())
    }

    proof fn lemma_ranks() {
        assert forall|x: Self, y: Self| true implies #[trigger] x.ranks_before(y) || y.ranks_before(
            x,
        ) by {
            lemma_order(x.dtype@, y.dtype@, y.dtype@);
        }
        assert forall|x: Self, y: Self, z: Self| #[trigger]
            x.ranks_before(y) && #[trigger] y.ranks_before(z) implies x.ranks_before(z) by {
            lemma_order(x.dtype@, y.dtype@, z.dtype@);
        }
    }

    fn may_precede(&self, other: &DtypeStat) -> (b: bool) {
        proof {
                lemma_order(self.dtype@, other.dtype@, other.dtype@);
        }
        self.bytes > other.bytes || (self.bytes == other.bytes && compare_chars(
            &chars_of(self.dtype.as_str()),
            &chars_of(other.dtype.as_str()),
        ) != Rel::Greater)
    }
}

/// `a` may stand before `b` in the breakdown by dtype.
pub open spec fn larger_share() -> spec_fn(TallyModel, TallyModel) -> bool {
    |a: TallyModel, b: TallyModel|
        a.bytes > b.bytes || (a.bytes == b.bytes && text_order(a.name, b.name) <= 0)
}

/// The breakdown by dtype.
pub open spec fn dtype_breakdown(ts: Seq<TensorModel>) -> Seq<TallyModel> {
    stable_sort(tallies(ts, by_dtype()), larger_share())
}

/// The breakdown by dtype.
fn breakdown(ts: &[TensorInfo]) -> (r: Vec<DtypeStat>)
    requires
        countable(ts.deep_view()),
    ensures
        r.deep_view() == dtype_breakdown(ts.deep_view()),
{
    let rows = tally(ts, true);
    let ghost all = rows@;
    let ghost f = |d: DtypeStat| d.deep_view();
    let r = sort_ranked(rows);
    proof {
        lemma_rank_order::<DtypeStat>();
        lemma_stable_sort_map(all, rank_order::<DtypeStat>(), f, larger_share());
        assert(all.map_values(f) =~= tallies(ts.deep_view(), by_dtype()));
        assert(r.deep_view() =~= r@.map_values(f));
    }
    r
}


// ---------------------------------------------------------------------------
// Layers

/// The family of numbered modules that a tensor belongs to.
pub open spec fn by_family() -> spec_fn(TensorModel) -> Option<Seq<char>> {
    |t: TensorModel|
        match layer_of(t.name) {
            Some((p, _)) => Some(p),
            None => None,
        }
}

/// The distinct numbers that occur in the family `p`, as they first occur.
pub open spec fn numbers_in(ts: Seq<TensorModel>, p: Seq<char>) -> Seq<nat>
    decreases ts.len(),
{
    if ts.len() == 0 {
        Seq::empty()
    } else {
        let r = numbers_in(ts.drop_last(), p);
        match layer_of(ts.last().name) {
            Some((q, i)) if q == p && !r.contains(i) => r.push(i),
            _ => r,
        }
    }
}

/// The largest of a list of numbers.
pub open spec fn largest_number(v: Seq<nat>) -> nat
    decreases v.len(),
{
    if v.len() == 0 {
        0
    } else if v.last() > largest_number(v.drop_last()) {
        v.last()
    } else {
        largest_number(v.drop_last())
    }
}

/// The first family that is called `layers`.
pub open spec fn named_layers(families: Seq<Seq<char>>) -> Option<Seq<char>>
    decreases families.len(),
{
    if families.len() == 0 {
        None
    } else {
        match named_layers(families.drop_last()) {
            Some(p) => Some(p),
            None => if split(families.last(), '.').last() == "layers"@ {
                Some(families.last())
            } else {
                None
            },
        }
    }
}

/// The last of the families with the most numbers.
pub open spec fn most_numbers(ts: Seq<TensorModel>, families: Seq<Seq<char>>) -> Option<Seq<char>>
    decreases families.len(),
{
    if families.len() == 0 {
        None
    } else {
        match most_numbers(ts, families.drop_last()) {
            Some(p) if numbers_in(ts, p).len() > numbers_in(ts, families.last()).len() => Some(p),
            _ => Some(families.last()),
        }
    }
}

/// The family that is taken for the layer stack.
pub open spec fn layer_family(ts: Seq<TensorModel>) -> Option<Seq<char>> {
    let families = bucket_names(ts, by_family());
    match named_layers(families) {
        Some(p) => Some(p),
        None => most_numbers(ts, families),
    }
}

/// The layer stack of a list of tensors.
pub open spec fn layers_of(ts: Seq<TensorModel>) -> Option<LayerStats> {
    match layer_family(ts) {
        Some(p) => Some(
            LayerStats {
                count: (largest_number(numbers_in(ts, p)) + 1) as usize,
                params: sum_of(members(ts, by_family(), Some(p)), elements()) as usize,
                bytes: sum_of(members(ts, by_family(), Some(p)), logical_bytes()) as usize,
            },
        ),
        None => None,
    }
}

/// A family with the numbers that occur in it.
struct Family {
    prefix: String,
    numbers: Vec<usize>,
}

/// Numbers as mathematical ones.
pub open spec fn nats(v: Seq<usize>) -> Seq<nat> {
    v.map_values(|n: usize| n as nat)
}

spec fn family_holds(f: Family, ts: Seq<TensorModel>, p: Seq<char>) -> bool {
    &&& f.prefix@ == p
    &&& nats(f.numbers@) == numbers_in(ts, p)
    &&& forall|i: int| 0 <= i < f.numbers.len() ==> #[trigger] f.numbers@[i] < u32::MAX
}

/// Whether a list of numbers holds one.
fn has_number(v: &Vec<usize>, n: usize) -> (b: bool)
    ensures
        b == nats(v@).contains(n as nat),
{
    let mut i: usize = 0;
    while i < v.len()
        invariant
            i <= v.len(),
            forall|j: int| 0 <= j < i ==> #[trigger] v@[j] != n,
        decreases v.len() - i,
    {
        if v[i] == n {
            proof {
                assert(nats(v@)[i as int] == n as nat);
            }
            return true;
        }
        i = i + 1;
    }
    proof {
        assert forall|j: int| 0 <= j < nats(v@).len() implies nats(v@)[j] != n as nat by {
            assert(nats(v@)[j] == v@[j] as nat);
        }
    }
    false
}

proof fn lemma_numbers_other(ts: Seq<TensorModel>, x: TensorModel, p: Seq<char>)
    requires
        by_family()(x) != Some(p),
    ensures
        numbers_in(ts.push(x), p) == numbers_in(ts, p),
{
    assert(ts.push(x).drop_last() =~= ts);
}

proof fn lemma_numbers_none(ts: Seq<TensorModel>, p: Seq<char>)
    requires
        !bucket_names(ts, by_family()).contains(p),
    ensures
        numbers_in(ts, p) == Seq::<nat>::empty(),
    decreases ts.len(),
{
    if ts.len() > 0 {
        let t = ts.drop_last();
        let names = bucket_names(t, by_family());
        let now = bucket_names(ts, by_family());
        if names.contains(p) {
            let i = choose|i: int| 0 <= i < names.len() && names[i] == p;
            assert(now[i] == p);
        }
        lemma_numbers_none(t, p);
        if by_family()(ts.last()) == Some(p) {
            assert(now.last() == p);
        }
    }
}

/// The families that occur in a list of tensors.
fn families_of(ts: &[TensorInfo]) -> (r: Vec<Family>)
    ensures
        r.len() == bucket_names(ts.deep_view(), by_family()).len(),
        forall|i: int|
            0 <= i < r.len() ==> family_holds(
                #[trigger] r@[i],
                ts.deep_view(),
                bucket_names(ts.deep_view(), by_family())[i],
            ),
{
    let ghost all = ts.deep_view();
    let mut r: Vec<Family> = Vec::new();
    let mut i: usize = 0;
    proof {
        assert(all.take(0) =~= Seq::empty());
    }
    while i < ts.len()
        invariant
            i <= ts.len(),
            all == ts.deep_view(),
            r.len() == bucket_names(all.take(i as int), by_family()).len(),
            forall|j: int|
                0 <= j < r.len() ==> family_holds(
                    #[trigger] r@[j],
                    all.take(i as int),
                    bucket_names(all.take(i as int), by_family())[j],
                ),
        decreases ts.len() - i,
    {
        let ghost done = all.take(i as int);
        let ghost x = all[i as int];
        let ghost names = bucket_names(done, by_family());
        let ghost before = r@;
        proof {
            assert(all.take(i + 1) =~= done.push(x));
            assert(done.push(x).drop_last() =~= done);
            lemma_bucket_names_distinct(done, by_family());
            assert forall|j: int| 0 <= j < names.len() && by_family()(x) != Some(names[j]) implies
                numbers_in(done.push(x), #[trigger] names[j]) == numbers_in(done, names[j]) by {
                lemma_numbers_other(done, x, names[j]);
            }
        }
        match split_layer_index(ts[i].name.as_str()) {
            None => {
                proof {
                    assert forall|j: int| 0 <= j < r.len() implies family_holds(
                        #[trigger] r@[j],
                        done.push(x),
                        names[j],
                    ) by {
                        assert(family_holds(before[j], done, names[j]));
                    }
                }
            },
            Some((p, n)) => {
                let mut b: usize = 0;
                while b < r.len() && r[b].prefix != p
                    invariant
                        b <= r.len(),
                        r@ == before,
                        r.len() == names.len(),
                        forall|j: int|
                            0 <= j < names.len() ==> family_holds(#[trigger] before[j], done, names[j]),
                        forall|j: int| 0 <= j < b ==> #[trigger] names[j] != p@,
                    decreases r.len() - b,
                {
                    proof {
                        assert(family_holds(before[b as int], done, names[b as int]));
                    }
                    b = b + 1;
                }
                if b < r.len() {
                    proof {
                        assert(family_holds(before[b as int], done, names[b as int]));
                        assert(names[b as int] == p@);
                        assert(names.contains(p@));
                    }
                    if !has_number(&r[b].numbers, n) {
                        let ghost had = r@[b as int].numbers@;
                        r[b].numbers.push(n);
                        proof {
                            assert(nats(r@[b as int].numbers@) =~= nats(had).push(n as nat));
                        }
                    }
                    proof {
                        assert forall|j: int| 0 <= j < r.len() implies family_holds(
                            #[trigger] r@[j],
                            done.push(x),
                            names[j],
                        ) by {
                            assert(family_holds(before[j], done, names[j]));
                            if j != b {
                                assert(names[j] != names[b as int]);
                            }
                        }
                    }
                } else {
                    proof {
                        if names.contains(p@) {
                            let j = choose|j: int| 0 <= j < names.len() && names[j] == p@;
                            assert(names[j] != p@);
                        }
                        lemma_numbers_none(done, p@);
                    }
                    let mut numbers: Vec<usize> = Vec::new();
                    numbers.push(n);
                    proof {
                        assert(nats(numbers@) =~= Seq::<nat>::empty().push(n as nat));
                    }
                    r.push(Family { prefix: p, numbers });
                    proof {
                        let now = names.push(p@);
                        assert forall|j: int| 0 <= j < r.len() implies family_holds(
                            #[trigger] r@[j],
                            done.push(x),
                            now[j],
                        ) by {
                            if j < names.len() {
                                assert(family_holds(before[j], done, names[j]));
                                assert(names.contains(names[j]));
                                assert(now[j] == names[j]);
                            }
                        }
                        assert(bucket_names(done.push(x), by_family()) =~= now);
                    }
                }
            },
        }
        i = i + 1;
    }
    proof {
        assert(all.take(i as int) =~= all);
    }
    r
}

/// The largest of a list of numbers.
fn largest_of(v: &Vec<usize>) -> (r: usize)
    requires
        forall|i: int| 0 <= i < v.len() ==> #[trigger] v@[i] < u32::MAX,
    ensures
        r == largest_number(nats(v@)),
        r < u32::MAX,
{
    let ghost all = nats(v@);
    let mut r: usize = 0;
    let mut i: usize = 0;
    proof {
        assert(all.take(0) =~= Seq::empty());
    }
    while i < v.len()
        invariant
            i <= v.len(),
            all == nats(v@),
            r == largest_number(all.take(i as int)),
            r < u32::MAX,
            forall|j: int| 0 <= j < v.len() ==> #[trigger] v@[j] < u32::MAX,
        decreases v.len() - i,
    {
        proof {
            assert(all.take(i + 1).drop_last() =~= all.take(i as int));
            assert(all.take(i + 1).last() == v@[i as int] as nat);
        }
        if v[i] > r {
            r = v[i];
        }
        i = i + 1;
    }
    proof {
        assert(all.take(i as int) =~= all);
    }
    r
}

/// Parameters and bytes of the tensors in one family.
fn family_totals(ts: &[TensorInfo], p: &String) -> (r: (usize, usize))
    requires
        countable(ts.deep_view()),
    ensures
        r.0 == sum_of(members(ts.deep_view(), by_family(), Some(p@)), elements()),
        r.1 == sum_of(members(ts.deep_view(), by_family(), Some(p@)), logical_bytes()),
{
    let ghost all = ts.deep_view();
    let ghost keep = falls_into(by_family(), Some(p@));
    let mut params: usize = 0;
    let mut bytes: usize = 0;
    let mut i: usize = 0;
    proof {
        all.take(0).lemma_filter_len(keep);
        assert(all.take(0).filter(keep) =~= Seq::empty());
    }
    while i < ts.len()
        invariant
            i <= ts.len(),
            all == ts.deep_view(),
            countable(all),
            keep == falls_into(by_family(), Some(p@)),
            params == sum_of(all.take(i as int).filter(keep), elements()),
            bytes == sum_of(all.take(i as int).filter(keep), logical_bytes()),
        decreases ts.len() - i,
    {
        let ghost done = all.take(i as int);
        let ghost x = all[i as int];
        proof {
            assert(all.take(i + 1) =~= done.push(x));
            done.lemma_filter_push(x, keep);
            assert(done.filter(keep).push(x).drop_last() =~= done.filter(keep));
            lemma_sum_filter(done.push(x), elements(), keep);
            lemma_sum_filter(done.push(x), logical_bytes(), keep);
            lemma_sum_take(all, elements(), i + 1);
            lemma_sum_take(all, logical_bytes(), i + 1);
        }
        let own = match split_layer_index(ts[i].name.as_str()) {
            Some((q, _)) => q == *p,
            None => false,
        };
        if own {
            params = params + ts[i].num_elements;
            bytes = bytes + ts[i].size_bytes;
        }
        i = i + 1;
    }
    proof {
        assert(all.take(i as int) =~= all);
    }
    (params, bytes)
}

/// Whether the last part of a name is `layers`.
fn ends_in_layers(p: &String) -> (b: bool)
    ensures
        b == (split(p@, '.').last() == "layers"@),
{
    let parts = name_parts(p.as_str());
    proof {
        crate::text::lemma_split_nonempty(p@, '.');
        assert(texts(parts@).len() == parts@.len());
        assert(texts(parts@).last() == parts@.last()@);
    }
    same(parts[parts.len() - 1].as_str(), "layers")
}

/// The repeated layer stack: the family called `layers`, else the largest one.
fn layer_stats(ts: &[TensorInfo]) -> (r: Option<LayerStats>)
    requires
        countable(ts.deep_view()),
    ensures
        r == layers_of(ts.deep_view()),
{
    let ghost all = ts.deep_view();
    let ghost names = bucket_names(all, by_family());
    let families = families_of(ts);
    let mut named: Option<usize> = None;
    let mut most: Option<usize> = None;
    let mut i: usize = 0;
    proof {
        assert(names.take(0) =~= Seq::empty());
    }
    while i < families.len()
        invariant
            i <= families.len(),
            families.len() == names.len(),
            forall|j: int|
                0 <= j < families.len() ==> family_holds(#[trigger] families@[j], all, names[j]),
            match named {
                Some(j) => j < i && named_layers(names.take(i as int)) == Some(names[j as int]),
                None => named_layers(names.take(i as int)) is None,
            },
            match most {
                Some(j) => j < i && most_numbers(all, names.take(i as int)) == Some(
                    names[j as int],
                ),
                None => i == 0 && most_numbers(all, names.take(i as int)) is None,
            },
        decreases families.len() - i,
    {
        proof {
            assert(family_holds(families@[i as int], all, names[i as int]));
            assert(names.take(i + 1).drop_last() =~= names.take(i as int));
            assert(names.take(i + 1).last() == names[i as int]);
            assert(nats(families@[i as int].numbers@).len() == families@[i as int].numbers@.len());
        }
        if named.is_none() && ends_in_layers(&families[i].prefix) {
            named = Some(i);
        }
        match most {
            Some(j) => {
                proof {
                    assert(family_holds(families@[j as int], all, names[j as int]));
                    assert(nats(families@[j as int].numbers@).len()
                        == families@[j as int].numbers@.len());
                }
                if families[j].numbers.len() <= families[i].numbers.len() {
                    most = Some(i);
                }
            },
            None => {
                most = Some(i);
            },
        }
        i = i + 1;
    }
    proof {
        assert(names.take(i as int) =~= names);
    }
    let chosen = match named {
        Some(j) => Some(j),
        None => most,
    };
    match chosen {
        Some(j) => {
            proof {
                assert(family_holds(families@[j as int], all, names[j as int]));
                lemma_countable_filter(all, falls_into(by_family(), Some(names[j as int])));
            }
            let (params, bytes) = family_totals(ts, &families[j].prefix);
            Some(LayerStats { count: largest_of(&families[j].numbers) + 1, params, bytes })
        },
        None => None,
    }
}


// ---------------------------------------------------------------------------
// Experts

/// Tensors of experts.
pub open spec fn of_experts() -> spec_fn(TensorModel) -> bool {
    |t: TensorModel| names_expert(t.name)
}

/// The highest expert number that occurs.
pub open spec fn highest_expert(ts: Seq<TensorModel>) -> Option<nat>
    decreases ts.len(),
{
    if ts.len() == 0 {
        None
    } else {
        match (highest_expert(ts.drop_last()), expert_of(ts.last().name)) {
            (Some(m), Some(n)) => Some(
                if n > m {
                    n
                } else {
                    m
                },
            ),
            (None, n) => n,
            (m, None) => m,
        }
    }
}

/// The leading dimension of the first tensor of experts that has one (0 of none).
pub open spec fn stacked_experts(ts: Seq<TensorModel>) -> usize
    decreases ts.len(),
{
    if ts.len() == 0 {
        0
    } else if names_expert(ts[0].name) && ts[0].shape.len() > 0 {
        ts[0].shape[0]
    } else {
        stacked_experts(ts.skip(1))
    }
}

/// The distinct layer numbers of a list of tensors.
pub open spec fn layer_numbers(ts: Seq<TensorModel>) -> Seq<nat>
    decreases ts.len(),
{
    if ts.len() == 0 {
        Seq::empty()
    } else {
        let r = layer_numbers(ts.drop_last());
        match layer_of(ts.last().name) {
            Some((_, i)) if !r.contains(i) => r.push(i),
            _ => r,
        }
    }
}

/// Whether a tensor combines gate and up projections.
pub open spec fn combines_gate_up(t: TensorModel) -> bool {
    occurs(t.name, "gate_up_proj"@) || occurs(t.name, "gate_proj__up_proj"@)
}

/// The expert structure of a list of tensors, of which the configuration declares
/// `declared` experts per layer.
pub open spec fn experts_of(ts: Seq<TensorModel>, declared: Option<u64>) -> Option<ExpertStats> {
    let own = ts.filter(of_experts());
    if own.len() == 0 {
        None
    } else {
        Some(
            ExpertStats {
                per_layer: match highest_expert(ts) {
                    Some(m) => (m + 1) as usize,
                    None => match declared {
                        Some(n) => n as usize,
                        None => stacked_experts(ts),
                    },
                },
                storage: if highest_expert(ts) is Some {
                    ExpertStorage::Unfused
                } else {
                    ExpertStorage::Fused
                },
                gate_up_fused: exists|i: int|
                    0 <= i < ts.len() && combines_gate_up(#[trigger] ts[i]),
                params: sum_of(own, elements()) as usize,
                bytes: sum_of(own, logical_bytes()) as usize,
                layers: at_least_one(layer_numbers(own).len()) as usize,
            },
        )
    }
}

/// The expert structure, or `None` for a dense checkpoint.
fn expert_stats(ts: &[TensorInfo], config: Option<&ModelConfig>) -> (r: Option<ExpertStats>)
    requires
        countable(ts.deep_view()),
    ensures
        r == experts_of(
            ts.deep_view(),
            match config {
                Some(c) => c.num_experts,
                None => None,
            },
        ),
{
    let ghost all = ts.deep_view();
    let ghost keep = of_experts();
    let mut any = false;
    let mut highest: Option<usize> = None;
    let mut stacked: Option<usize> = None;
    let mut layers: Vec<usize> = Vec::new();
    let mut params: usize = 0;
    let mut bytes: usize = 0;
    let mut fused = false;
    let mut i: usize = 0;
    proof {
        all.take(0).lemma_filter_len(keep);
        assert(all.take(0).filter(keep) =~= Seq::empty());
        assert(nats(layers@) =~= Seq::empty());
        assert(all.skip(0) =~= all);
    }
    while i < ts.len()
        invariant
            i <= ts.len(),
            all == ts.deep_view(),
            countable(all),
            keep == of_experts(),
            any == (all.take(i as int).filter(keep).len() > 0),
            match highest {
                Some(m) => m < u32::MAX && highest_expert(all.take(i as int)) == Some(m as nat),
                None => highest_expert(all.take(i as int)) is None,
            },
            match stacked {
                Some(n) => stacked_experts(all) == n,
                None => stacked_experts(all) == stacked_experts(all.skip(i as int)),
            },
            nats(layers@) == layer_numbers(all.take(i as int).filter(keep)),
            params == sum_of(all.take(i as int).filter(keep), elements()),
            bytes == sum_of(all.take(i as int).filter(keep), logical_bytes()),
            fused == (exists|j: int| 0 <= j < i && combines_gate_up(#[trigger] all[j])),
        decreases ts.len() - i,
    {
        let ghost done = all.take(i as int);
        let ghost x = all[i as int];
        proof {
            assert(all.take(i + 1) =~= done.push(x));
            assert(done.push(x).drop_last() =~= done);
            done.lemma_filter_push(x, keep);
            assert(done.filter(keep).push(x).drop_last() =~= done.filter(keep));
            lemma_sum_filter(done.push(x), elements(), keep);
            lemma_sum_filter(done.push(x), logical_bytes(), keep);
            lemma_sum_take(all, elements(), i + 1);
            lemma_sum_take(all, logical_bytes(), i + 1);
            assert(all.skip(i as int)[0] == x);
            assert(all.skip(i as int).skip(1) =~= all.skip(i + 1));
        }
        let name = ts[i].name.as_str();
        let expert = is_expert(name);
        match expert_index(name) {
            Some(n) => {
                let more = match highest {
                    Some(m) => n > m,
                    None => true,
                };
                if more {
                    highest = Some(n);
                }
            },
            None => {},
        }
        if expert {
            any = true;
            if stacked.is_none() && ts[i].shape.len() > 0 {
                stacked = Some(ts[i].shape[0]);
            }
            params = params + ts[i].num_elements;
            bytes = bytes + ts[i].size_bytes;
            match split_layer_index(name) {
                Some((_, n)) => {
                    if !has_number(&layers, n) {
                        let ghost had = layers@;
                        layers.push(n);
                        proof {
                            assert(nats(layers@) =~= nats(had).push(n as nat));
                        }
                    }
                },
                None => {},
            }
        }
        if !fused {
            fused = holds(name, "gate_up_proj") || holds(name, "gate_proj__up_proj");
            proof {
                assert(fused == combines_gate_up(all[i as int]));
            }
        }
        i = i + 1;
    }
    proof {
        assert(all.take(i as int) =~= all);
        assert(nats(layers@).len() == layers@.len());
        assert(all.skip(i as int) =~= Seq::empty());
    }
    if !any {
        return None;
    }
    let per_layer: usize = match highest {
        Some(m) => m + 1,
        None => {
            let declared: Option<u64> = match config {
                Some(c) => c.num_experts,
                None => None,
            };
            match declared {
                Some(n) => n as usize,
                None => match stacked {
                    Some(n) => n,
                    None => 0,
                },
            }
        },
    };
    Some(
        ExpertStats {
            per_layer,
            storage: if highest.is_some() {
                ExpertStorage::Unfused
            } else {
                ExpertStorage::Fused
            },
            gate_up_fused: fused,
            params,
            bytes,
            layers: if layers.len() == 0 {
                1
            } else {
                layers.len()
            },
        },
    )
}

// ---------------------------------------------------------------------------
// The whole

/// A named size says what tensor `i` is.
pub open spec fn names_tensor(n: Option<NamedSize>, ts: Seq<TensorModel>, i: int) -> bool {
    match n {
        Some(s) => ts.len() > 0 && s.name@ == ts[i].name && s.bytes == ts[i].size_bytes,
        None => ts.len() == 0,
    }
}

impl CheckpointStats {
    /// The statistics say what the tensors `ts` hold.
    pub open spec fn describes(self, ts: Seq<TensorModel>) -> bool {
        &&& self.files.describes(ts)
        &&& self.n_tensors == ts.len()
        &&& self.params == sum_of(ts, elements())
        &&& self.logical_bytes == sum_of(ts, logical_bytes())
        &&& self.disk_bytes == sum_of(ts, disk_bytes())
        &&& self.compressed == any_compressed(ts)
        &&& names_tensor(self.largest, ts, largest_at(ts))
        &&& names_tensor(self.smallest, ts, smallest_at(ts))
        &&& self.mean_bytes == mean(sum_of(ts, logical_bytes()), ts.len())
        &&& self.median_bytes == median(tensor_sizes(ts))
        &&& self.dtypes.deep_view() == dtype_breakdown(ts)
        &&& self.layers == layers_of(ts)
    }

    /// The statistics over a checkpoint's tensors.
    pub fn compute(
        tensors: &[TensorInfo],
        config: Option<&ModelConfig>,
        disk: Option<DiskUsage>,
    ) -> (r: CheckpointStats)
        requires
            countable(tensors.deep_view()),
        ensures
            r.describes(tensors.deep_view()),
            r.experts == experts_of(
                tensors.deep_view(),
                match config {
                    Some(c) => c.num_experts,
                    None => None,
                },
            ),
            r.disk == disk,
            match config {
                Some(c) => match c.model_type {
                    Some(m) => r.model_type is Some && r.model_type->0@ == m@,
                    None => r.model_type is None,
                },
                None => r.model_type is None,
            },
    {
        let ghost all = tensors.deep_view();
        let mut compressed = false;
        let mut sizes: Vec<usize> = Vec::new();
        let mut i: usize = 0;
        while i < tensors.len()
            invariant
                i <= tensors.len(),
                all == tensors.deep_view(),
                compressed == (exists|j: int|
                    0 <= j < i && (#[trigger] all[j]).storage is Compressed),
                sizes@ =~= tensor_sizes(all.take(i as int)),
            decreases tensors.len() - i,
        {
            proof {
                assert(all[i as int].storage == tensors@[i as int].storage.deep_view());
            }
            if let Storage::Compressed { .. } = &tensors[i].storage {
                compressed = true;
            }
            sizes.push(tensors[i].size_bytes);
            i = i + 1;
        }
        proof {
            assert(all.take(i as int) =~= all);
        }
        let n_tensors = tensors.len();
        let (params, logical, stored) = crate::tree::totals(tensors);
        let files = file_stats(tensors, logical);
        let (largest, smallest) = if n_tensors > 0 {
            let (l, s) = extremes(tensors);
            (
                Some(NamedSize { name: tensors[l].name.clone(), bytes: tensors[l].size_bytes }),
                Some(NamedSize { name: tensors[s].name.clone(), bytes: tensors[s].size_bytes }),
            )
        } else {
            (None, None)
        };
        let mean_bytes: usize = if n_tensors == 0 {
            0
        } else {
            logical / n_tensors
        };
        CheckpointStats {
            files,
            n_tensors,
            params,
            logical_bytes: logical,
            disk_bytes: stored,
            compressed,
            largest,
            smallest,
            mean_bytes,
            median_bytes: median_of(sizes),
            dtypes: breakdown(tensors),
            layers: layer_stats(tensors),
            experts: expert_stats(tensors, config),
            model_type: match config {
                Some(c) => match &c.model_type {
                    Some(m) => Some(m.clone()),
                    None => None,
                },
                None => None,
            },
            disk,
        }
    }
}


// ---------------------------------------------------------------------------
// The report

/// A label and its value.
pub open spec fn row(label: Seq<char>, value: Seq<char>) -> Seq<char> {
    "  "@ + pad_right(label, 12) + " "@ + value
}

fn row_line(label: &str, value: String) -> (r: String)
    ensures
        r@ == row(label@, value@),
{
    "  ".to_owned().concat(padded_right(label, 12).as_str()).concat(" ").concat(value.as_str())
}

/// An average beside its total.
pub open spec fn each_total(each: Seq<char>, total: Seq<char>) -> Seq<char> {
    each + " each · "@ + total + " total"@
}

fn each_total_text(each: String, total: String) -> (r: String)
    ensures
        r@ == each_total(each@, total@),
{
    each.concat(" each · ").concat(total.as_str()).concat(" total")
}

fn size_of(n: usize) -> (r: String)
    ensures
        r@ == size_text(n as nat),
{
    format_size(n as u64)
}

fn params_of(n: usize) -> (r: String)
    ensures
        r@ == parameters_text(n as nat),
{
    format_parameters(n as u64)
}

/// Whether the filesystem saved at least one part in a hundred.
pub open spec fn saves(apparent: nat, allocated: nat) -> bool {
    allocated < apparent && (apparent - allocated) * 100 >= apparent
}

/// Whether the filesystem saved a meaningful amount on a file: at least 1%.
pub fn has_saving(apparent: u64, allocated: u64) -> (b: bool)
    ensures
        b == saves(apparent as nat, allocated as nat),
{
    allocated < apparent && (apparent - allocated) as u128 * 100 >= apparent as u128
}

/// What the allocated size is against the apparent one.
pub open spec fn saving_text(apparent: nat, allocated: nat) -> Seq<char> {
    if allocated == 0 || allocated >= apparent {
        "no filesystem saving"@
    } else {
        ratio(apparent, allocated) + "× smaller"@
    }
}

/// "N.NN× smaller" when the filesystem shrank the file, else "no filesystem saving".
pub fn ratio_phrase(apparent: u64, allocated: u64) -> (r: String)
    ensures
        r@ == saving_text(apparent as nat, allocated as nat),
{
    if allocated == 0 || allocated >= apparent {
        "no filesystem saving".to_owned()
    } else {
        ratio_text(apparent, allocated).concat("× smaller")
    }
}

impl CheckpointStats {
    pub open spec fn size_value(self) -> Seq<char> {
        if self.compressed && self.disk_bytes > 0 {
            size_text(self.disk_bytes as nat) + " on disk · "@ + size_text(self.logical_bytes as nat)
                + " logical ("@ + ratio(self.logical_bytes as nat, self.disk_bytes as nat)
                + "× smaller)"@
        } else {
            size_text(self.logical_bytes as nat)
        }
    }

    pub open spec fn overview_lines(self) -> Seq<Seq<char>> {
        seq!["Checkpoint stats"@, ""@, "Overview"@] + (match self.model_type {
            Some(m) => seq![row("Architecture"@, m@)],
            None => seq![],
        }) + seq![
            row("Parameters"@, parameters_text(self.params as nat)),
            row("Size"@, self.size_value()),
        ]
    }

    fn overview(&self) -> (r: Vec<String>)
        ensures
            texts(r@) == self.overview_lines(),
    {
        let mut r: Vec<String> = Vec::new();
        add_line(&mut r, "Checkpoint stats".to_owned());
        add_line(&mut r, "".to_owned());
        add_line(&mut r, "Overview".to_owned());
        if let Some(m) = &self.model_type {
            add_line(&mut r, row_line("Architecture", m.clone()));
        }
        add_line(&mut r, row_line("Parameters", params_of(self.params)));
        let size = if self.compressed && self.disk_bytes > 0 {
            size_of(self.disk_bytes).concat(" on disk · ").concat(
                size_of(self.logical_bytes).as_str(),
            ).concat(" logical (").concat(
                ratio_text(self.logical_bytes as u64, self.disk_bytes as u64).as_str(),
            ).concat("× smaller)")
        } else {
            size_of(self.logical_bytes)
        };
        add_line(&mut r, row_line("Size", size));
        proof {
            assert(texts(r@) =~= self.overview_lines());
        }
        r
    }

    pub open spec fn file_lines(self) -> Seq<Seq<char>> {
        seq![
            ""@,
            "▤ Files  ×"@ + decimal(self.files.count as nat) + " "@ + self.files.noun@,
            row("Largest"@, size_text(self.files.largest as nat)),
            row("Smallest"@, size_text(self.files.smallest as nat)),
            row("Average"@, size_text(self.files.mean as nat)),
            row("Median"@, size_text(self.files.median as nat)),
        ]
    }

    fn file_section(&self) -> (r: Vec<String>)
        ensures
            texts(r@) == self.file_lines(),
    {
        let mut r: Vec<String> = Vec::new();
        add_line(&mut r, "".to_owned());
        add_line(
            &mut r,
            "▤ Files  ×".to_owned().concat(decimal_string(self.files.count as u128).as_str()).concat(
                " ",
            ).concat(self.files.noun),
        );
        add_line(&mut r, row_line("Largest", size_of(self.files.largest)));
        add_line(&mut r, row_line("Smallest", size_of(self.files.smallest)));
        add_line(&mut r, row_line("Average", size_of(self.files.mean)));
        add_line(&mut r, row_line("Median", size_of(self.files.median)));
        proof {
            assert(texts(r@) =~= self.file_lines());
        }
        r
    }

    pub open spec fn tensor_lines(self) -> Seq<Seq<char>> {
        seq![""@, "▦ Tensors  ×"@ + decimal(self.n_tensors as nat)] + named_row(
            "Largest"@,
            self.largest,
        ) + named_row("Smallest"@, self.smallest) + seq![
            row("Average"@, size_text(self.mean_bytes as nat)),
            row("Median"@, size_text(self.median_bytes as nat)),
        ]
    }

    fn tensor_section(&self) -> (r: Vec<String>)
        ensures
            texts(r@) == self.tensor_lines(),
    {
        let mut r: Vec<String> = Vec::new();
        add_line(&mut r, "".to_owned());
        add_line(
            &mut r,
            "▦ Tensors  ×".to_owned().concat(decimal_string(self.n_tensors as u128).as_str()),
        );
        if let Some(n) = &self.largest {
            add_line(&mut r, row_line("Largest", named_text(n)));
        }
        if let Some(n) = &self.smallest {
            add_line(&mut r, row_line("Smallest", named_text(n)));
        }
        add_line(&mut r, row_line("Average", size_of(self.mean_bytes)));
        add_line(&mut r, row_line("Median", size_of(self.median_bytes)));
        proof {
            assert(texts(r@) =~= self.tensor_lines());
        }
        r
    }

    pub open spec fn layer_lines(self) -> Seq<Seq<char>> {
        match self.layers {
            Some(l) => seq![
                ""@,
                "≡ Layers  ×"@ + decimal(l.count as nat),
                row(
                    "Params"@,
                    each_total(
                        parameters_text(per(l.params as nat, l.count as nat)),
                        parameters_text(l.params as nat),
                    ),
                ),
                row(
                    "Size"@,
                    each_total(
                        size_text(per(l.bytes as nat, l.count as nat)),
                        size_text(l.bytes as nat),
                    ),
                ),
            ],
            None => seq![],
        }
    }

    fn layer_section(&self) -> (r: Vec<String>)
        ensures
            texts(r@) == self.layer_lines(),
    {
        let mut r: Vec<String> = Vec::new();
        if let Some(l) = &self.layers {
            add_line(&mut r, "".to_owned());
            add_line(
                &mut r,
                "≡ Layers  ×".to_owned().concat(decimal_string(l.count as u128).as_str()),
            );
            add_line(
                &mut r,
                row_line("Params", each_total_text(params_of(l.params_each()), params_of(l.params))),
            );
            add_line(
                &mut r,
                row_line("Size", each_total_text(size_of(l.bytes_each()), size_of(l.bytes))),
            );
        }
        proof {
            assert(texts(r@) =~= self.layer_lines());
        }
        r
    }

    pub open spec fn expert_lines(self) -> Seq<Seq<char>> {
        match self.experts {
            Some(x) => seq![
                ""@,
                "◆ Experts"@ + (if x.per_layer > 0 {
                    "  ×"@ + decimal(x.per_layer as nat) + " per layer"@
                } else {
                    ""@
                }),
                row(
                    "Storage"@,
                    x.storage.spec_label() + (if x.gate_up_fused {
                        " · gate+up fused"@
                    } else {
                        ""@
                    }),
                ),
            ] + (if x.per_layer > 0 || x.storage == ExpertStorage::Unfused {
                seq![
                    row(
                        "Params"@,
                        each_total(
                            parameters_text(x.params as nat / x.total()),
                            parameters_text(x.params as nat),
                        ),
                    ),
                    row(
                        "Size"@,
                        each_total(size_text(x.bytes as nat / x.total()), size_text(x.bytes as nat)),
                    ),
                ]
            } else {
                seq![]
            }),
            None => seq![],
        }
    }

    fn expert_section(&self) -> (r: Vec<String>)
        requires
            self.experts is Some ==> self.experts->0.total() <= usize::MAX,
        ensures
            texts(r@) == self.expert_lines(),
    {
        let mut r: Vec<String> = Vec::new();
        if let Some(x) = &self.experts {
            add_line(&mut r, "".to_owned());
            let count = if x.per_layer > 0 {
                "  ×".to_owned().concat(decimal_string(x.per_layer as u128).as_str()).concat(
                    " per layer",
                )
            } else {
                "".to_owned()
            };
            add_line(&mut r, "◆ Experts".to_owned().concat(count.as_str()));
            let fused = if x.gate_up_fused {
                " · gate+up fused"
            } else {
                ""
            };
            add_line(&mut r, row_line("Storage", x.storage.label().to_owned().concat(fused)));
            if x.per_layer > 0 || x.storage == ExpertStorage::Unfused {
                add_line(
                    &mut r,
                    row_line(
                        "Params",
                        each_total_text(params_of(x.params_each()), params_of(x.params)),
                    ),
                );
                add_line(
                    &mut r,
                    row_line("Size", each_total_text(size_of(x.bytes_each()), size_of(x.bytes))),
                );
            }
        }
        proof {
            assert(texts(r@) =~= self.expert_lines());
        }
        r
    }

    pub open spec fn dtype_lines(self) -> Seq<Seq<char>> {
        if self.dtypes.len() == 0 {
            seq![]
        } else {
            seq![""@, "By dtype"@] + self.dtypes.deep_view().map_values(
                dtype_row(widest_tally(self.dtypes.deep_view()) as nat),
            )
        }
    }

    fn dtype_section(&self) -> (r: Vec<String>)
        ensures
            texts(r@) == self.dtype_lines(),
    {
        let mut r: Vec<String> = Vec::new();
        if self.dtypes.len() == 0 {
            proof {
                assert(texts(r@) =~= self.dtype_lines());
            }
            return r;
        }
        add_line(&mut r, "".to_owned());
        add_line(&mut r, "By dtype".to_owned());
        let ghost all = self.dtypes.deep_view();
        let mut width: usize = 0;
        let mut i: usize = 0;
        proof {
            assert(all.take(0) =~= Seq::empty());
        }
        while i < self.dtypes.len()
            invariant
                i <= self.dtypes.len(),
                all == self.dtypes.deep_view(),
                width == widest_tally(all.take(i as int)),
            decreases self.dtypes.len() - i,
        {
            proof {
                assert(all.take(i + 1).drop_last() =~= all.take(i as int));
                assert(all.take(i + 1).last() == self.dtypes@[i as int].deep_view());
            }
            let n = self.dtypes[i].dtype.as_str().len();
            if n > width {
                width = n;
            }
            i = i + 1;
        }
        proof {
            assert(all.take(i as int) =~= all);
        }
        let ghost line = dtype_row(width as nat);
        let ghost head = texts(r@);
        let mut i: usize = 0;
        proof {
            assert(head + all.take(0).map_values(line) =~= head);
        }
        while i < self.dtypes.len()
            invariant
                i <= self.dtypes.len(),
                all == self.dtypes.deep_view(),
                line == dtype_row(width as nat),
                texts(r@) == head + all.take(i as int).map_values(line),
            decreases self.dtypes.len() - i,
        {
            let d = &self.dtypes[i];
            let plural = if d.count == 1 {
                ""
            } else {
                "s"
            };
            let text = "  ".to_owned().concat(padded_right(d.dtype.as_str(), width).as_str()).concat(
                "  ",
            ).concat(padded_left(size_of(d.bytes).as_str(), 8).as_str()).concat("  ").concat(
                decimal_string(d.count as u128).as_str(),
            ).concat(" tensor").concat(plural);
            let ghost had = texts(r@);
            add_line(&mut r, text);
            proof {
                assert(text@ == line(all[i as int]));
                assert(all.take(i + 1).map_values(line) =~= all.take(i as int).map_values(line).push(
                    line(all[i as int]),
                ));
                assert(had.push(text@) =~= head + all.take(i + 1).map_values(line));
            }
            i = i + 1;
        }
        proof {
            assert(all.take(i as int) =~= all);
            assert(head =~= seq![""@, "By dtype"@]);
        }
        r
    }

    pub open spec fn disk_lines(self, expanded: bool) -> Seq<Seq<char>> {
        match self.disk {
            None => seq![],
            Some(d) => seq![
                ""@,
                "On disk (filesystem)"@,
                row(
                    "Allocated"@,
                    size_text(d.total_allocated as nat) + "  ("@ + size_text(
                        d.total_apparent as nat,
                    ) + " apparent, "@ + saving_text(
                        d.total_apparent as nat,
                        d.total_allocated as nat,
                    ) + ")"@,
                ),
            ] + (if d.shards.len() <= 1 {
                seq![]
            } else if expanded {
                d.shards@.map_values(shard_row(widest_shard(d.shards@) as nat))
            } else {
                seq![
                    "  ▸ per-shard breakdown ("@ + decimal(savers(d.shards@)) + " of "@ + decimal(
                        d.shards.len() as nat,
                    ) + " smaller)"@,
                ]
            }),
        }
    }

    fn disk_section(&self, expanded: bool) -> (r: Vec<String>)
        ensures
            texts(r@) == self.disk_lines(expanded),
    {
        let mut r: Vec<String> = Vec::new();
        if let Some(d) = &self.disk {
            add_line(&mut r, "".to_owned());
            add_line(&mut r, "On disk (filesystem)".to_owned());
            let value = format_size(d.total_allocated).concat("  (").concat(
                format_size(d.total_apparent).as_str(),
            ).concat(" apparent, ").concat(
                ratio_phrase(d.total_apparent, d.total_allocated).as_str(),
            ).concat(")");
            add_line(&mut r, row_line("Allocated", value));
            if d.shards.len() > 1 {
                if expanded {
                    let lines = shard_lines(&d.shards);
                    add_lines(&mut r, lines);
                } else {
                    let n = count_savers(&d.shards);
                    let text = "  ▸ per-shard breakdown (".to_owned().concat(
                        decimal_string(n as u128).as_str(),
                    ).concat(" of ").concat(decimal_string(d.shards.len() as u128).as_str()).concat(
                        " smaller)",
                    );
                    add_line(&mut r, text);
                }
            }
        }
        proof {
            assert(texts(r@) =~= self.disk_lines(expanded));
        }
        r
    }

    /// The lines of the report.
    pub open spec fn report(self, shards_expanded: bool) -> Seq<Seq<char>> {
        self.overview_lines() + self.file_lines() + self.tensor_lines() + self.layer_lines()
            + self.expert_lines() + self.dtype_lines() + self.disk_lines(shards_expanded)
    }

    /// The statistics as plain text.
    pub fn render(&self, shards_expanded: bool) -> (r: String)
        requires
            self.experts is Some ==> self.experts->0.total() <= usize::MAX,
        ensures
            r@ == join(self.report(shards_expanded), "\n"@),
    {
        let mut out = self.overview();
        add_lines(&mut out, self.file_section());
        add_lines(&mut out, self.tensor_section());
        add_lines(&mut out, self.layer_section());
        add_lines(&mut out, self.expert_section());
        add_lines(&mut out, self.dtype_section());
        add_lines(&mut out, self.disk_section(shards_expanded));
        joined(&out, "\n")
    }
}

/// The row of a named size, if there is one.
pub open spec fn named_row(label: Seq<char>, n: Option<NamedSize>) -> Seq<Seq<char>> {
    match n {
        Some(s) => seq![row(label, pad_right(size_text(s.bytes as nat), 9) + " "@ + s.name@)],
        None => seq![],
    }
}

fn named_text(n: &NamedSize) -> (r: String)
    ensures
        r@ == pad_right(size_text(n.bytes as nat), 9) + " "@ + n.name@,
{
    padded_right(size_of(n.bytes).as_str(), 9).concat(" ").concat(n.name.as_str())
}

/// The row of a dtype whose column is `width` wide.
pub open spec fn dtype_row(width: nat) -> spec_fn(TallyModel) -> Seq<char> {
    |d: TallyModel|
        "  "@ + pad_right(d.name, width) + "  "@ + pad_left(size_text(d.bytes as nat), 8) + "  "@
            + decimal(d.count as nat) + " tensor"@ + (if d.count == 1 {
            ""@
        } else {
            "s"@
        })
}

/// The most bytes that a name takes.
pub open spec fn widest_tally(v: Seq<TallyModel>) -> usize
    decreases v.len(),
{
    if v.len() == 0 {
        0
    } else if byte_len(v.last().name) > widest_tally(v.drop_last()) {
        byte_len(v.last().name)
    } else {
        widest_tally(v.drop_last())
    }
}

/// The most bytes that a shard's name takes.
pub open spec fn widest_shard(v: Seq<ShardDisk>) -> usize
    decreases v.len(),
{
    if v.len() == 0 {
        0
    } else if byte_len(v.last().name@) > widest_shard(v.drop_last()) {
        byte_len(v.last().name@)
    } else {
        widest_shard(v.drop_last())
    }
}

/// How many shards the filesystem saved on.
pub open spec fn savers(v: Seq<ShardDisk>) -> nat
    decreases v.len(),
{
    if v.len() == 0 {
        0
    } else {
        savers(v.drop_last()) + (if saves(v.last().apparent as nat, v.last().allocated as nat) {
            1nat
        } else {
            0nat
        })
    }
}

/// The row of a shard whose name column is `width` wide.
pub open spec fn shard_row(width: nat) -> spec_fn(ShardDisk) -> Seq<char> {
    |s: ShardDisk|
        "    "@ + pad_right(s.name@, width) + "  "@ + pad_left(size_text(s.apparent as nat), 9)
            + " → "@ + pad_left(size_text(s.allocated as nat), 9) + "  ("@ + saving_text(
            s.apparent as nat,
            s.allocated as nat,
        ) + ")"@
}

fn count_savers(v: &Vec<ShardDisk>) -> (n: usize)
    ensures
        n == savers(v@),
{
    let mut n: usize = 0;
    let mut i: usize = 0;
    proof {
        assert(v@.take(0) =~= Seq::empty());
    }
    while i < v.len()
        invariant
            i <= v.len(),
            n <= i,
            n == savers(v@.take(i as int)),
        decreases v.len() - i,
    {
        proof {
            assert(v@.take(i + 1).drop_last() =~= v@.take(i as int));
        }
        if has_saving(v[i].apparent, v[i].allocated) {
            n = n + 1;
        }
        i = i + 1;
    }
    proof {
        assert(v@.take(i as int) =~= v@);
    }
    n
}

fn shard_lines(v: &Vec<ShardDisk>) -> (r: Vec<String>)
    ensures
        texts(r@) == v@.map_values(shard_row(widest_shard(v@) as nat)),
{
    let mut width: usize = 0;
    let mut i: usize = 0;
    proof {
        assert(v@.take(0) =~= Seq::empty());
    }
    while i < v.len()
        invariant
            i <= v.len(),
            width == widest_shard(v@.take(i as int)),
        decreases v.len() - i,
    {
        proof {
            assert(v@.take(i + 1).drop_last() =~= v@.take(i as int));
        }
        let n = v[i].name.as_str().len();
        if n > width {
            width = n;
        }
        i = i + 1;
    }
    proof {
        assert(v@.take(i as int) =~= v@);
    }
    let ghost line = shard_row(width as nat);
    let mut r: Vec<String> = Vec::new();
    let mut i: usize = 0;
    proof {
        assert(texts(r@) =~= v@.take(0).map_values(line));
    }
    while i < v.len()
        invariant
            i <= v.len(),
            line == shard_row(width as nat),
            texts(r@) == v@.take(i as int).map_values(line),
        decreases v.len() - i,
    {
        let s = &v[i];
        let text = "    ".to_owned().concat(padded_right(s.name.as_str(), width).as_str()).concat(
            "  ",
        ).concat(padded_left(format_size(s.apparent).as_str(), 9).as_str()).concat(" → ").concat(
            padded_left(format_size(s.allocated).as_str(), 9).as_str(),
        ).concat("  (").concat(ratio_phrase(s.apparent, s.allocated).as_str()).concat(")");
        add_line(&mut r, text);
        proof {
            assert(text@ == line(v@[i as int]));
            assert(v@.take(i + 1).map_values(line) =~= v@.take(i as int).map_values(line).push(
                line(v@[i as int]),
            ));
        }
        i = i + 1;
    }
    proof {
        assert(v@.take(i as int) =~= v@);
    }
    r
}

/// What is known of the files that could be measured: name, length and allocation.
pub open spec fn measured(paths: Seq<Seq<char>>, found: Seq<Option<(u64, u64)>>) -> Seq<
    (Seq<char>, int, int),
>
    decreases paths.len(),
{
    if paths.len() == 0 {
        Seq::empty()
    } else {
        let r = measured(paths.drop_last(), found.drop_last());
        match found.last() {
            Some((len, blocks)) => r.push((base_name(paths.last()), len as int, blocks * 512)),
            None => r,
        }
    }
}

/// The sum of the lengths.
pub open spec fn length_sum(files: Seq<(Seq<char>, int, int)>) -> int
    decreases files.len(),
{
    if files.len() == 0 {
        0
    } else {
        length_sum(files.drop_last()) + files.last().1
    }
}

/// The sum of the allocations.
pub open spec fn allocation_sum(files: Seq<(Seq<char>, int, int)>) -> int
    decreases files.len(),
{
    if files.len() == 0 {
        0
    } else {
        allocation_sum(files.drop_last()) + files.last().2
    }
}

/// The files of a usage: name, length and allocation.
pub open spec fn shard_views(shards: Seq<ShardDisk>) -> Seq<(Seq<char>, int, int)> {
    shards.map_values(|s: ShardDisk| (s.name@, s.apparent as int, s.allocated as int))
}

proof fn lemma_shard_sums(shards: Seq<ShardDisk>)
    ensures
        shard_sum(shards, apparent_size()) == length_sum(shard_views(shards)),
        shard_sum(shards, allocated_size()) == allocation_sum(shard_views(shards)),
    decreases shards.len(),
{
    if shards.len() > 0 {
        lemma_shard_sums(shards.drop_last());
        assert(shard_views(shards).drop_last() =~= shard_views(shards.drop_last()));
    }
}

proof fn lemma_measured_prefix(paths: Seq<Seq<char>>, found: Seq<Option<(u64, u64)>>, n: int)
    requires
        0 <= n <= paths.len(),
        paths.len() == found.len(),
    ensures
        0 <= length_sum(measured(paths.take(n), found.take(n))) <= length_sum(
            measured(paths, found),
        ),
        0 <= allocation_sum(measured(paths.take(n), found.take(n))) <= allocation_sum(
            measured(paths, found),
        ),
    decreases paths.len(),
{
    if n == paths.len() {
        assert(paths.take(n) =~= paths);
        assert(found.take(n) =~= found);
        if n > 0 {
            lemma_measured_prefix(paths.drop_last(), found.drop_last(), n - 1);
            assert(paths.drop_last().take(n - 1) =~= paths.drop_last());
            assert(found.drop_last().take(n - 1) =~= found.drop_last());
            lemma_last_measured(paths, found);
        }
    } else {
        lemma_measured_prefix(paths.drop_last(), found.drop_last(), n);
        assert(paths.drop_last().take(n) =~= paths.take(n));
        assert(found.drop_last().take(n) =~= found.take(n));
        lemma_last_measured(paths, found);
    }
}

proof fn lemma_last_measured(paths: Seq<Seq<char>>, found: Seq<Option<(u64, u64)>>)
    requires
        paths.len() > 0,
    ensures
        match found.last() {
            Some((len, blocks)) => length_sum(measured(paths, found)) == length_sum(
                measured(paths.drop_last(), found.drop_last()),
            ) + len && allocation_sum(measured(paths, found)) == allocation_sum(
                measured(paths.drop_last(), found.drop_last()),
            ) + blocks * 512,
            None => measured(paths, found) == measured(paths.drop_last(), found.drop_last()),
        },
{
    let r = measured(paths.drop_last(), found.drop_last());
    match found.last() {
        Some((len, blocks)) => {
            let e = (base_name(paths.last()), len as int, blocks * 512);
            assert(measured(paths, found) == r.push(e));
            assert(r.push(e).drop_last() =~= r);
        },
        None => {},
    }
}

impl DiskUsage {
    /// The usage over local files, given the length of each and the number of its
    /// 512-byte blocks. A file that could not be measured is skipped.
    pub fn from_local(paths: &Vec<String>, found: &Vec<Option<(u64, u64)>>) -> (r: Option<DiskUsage>)
        requires
            paths.len() == found.len(),
            length_sum(measured(texts(paths@), found@)) <= u64::MAX,
            allocation_sum(measured(texts(paths@), found@)) <= u64::MAX,
        ensures
            ({
                let files = measured(texts(paths@), found@);
                match r {
                    Some(du) => files.len() > 0 && shard_views(du.shards@) == files
                        && du.total_apparent == length_sum(files) && du.total_allocated
                        == allocation_sum(files),
                    None => files.len() == 0,
                }
            }),
    {
        let ghost names = texts(paths@);
        let ghost fs = found@;
        let mut shards: Vec<ShardDisk> = Vec::new();
        let mut i: usize = 0;
        proof {
            assert(shard_views(shards@) =~= measured(names.take(0), fs.take(0)));
        }
        while i < paths.len()
            invariant
                i <= paths.len(),
                paths.len() == found.len(),
                names == texts(paths@),
                fs == found@,
                length_sum(measured(names, fs)) <= u64::MAX,
                allocation_sum(measured(names, fs)) <= u64::MAX,
                shard_views(shards@) == measured(names.take(i as int), fs.take(i as int)),
            decreases paths.len() - i,
        {
            let ghost before = shard_views(shards@);
            proof {
                assert(names.take(i + 1).drop_last() =~= names.take(i as int));
                assert(fs.take(i + 1).drop_last() =~= fs.take(i as int));
                assert(names.take(i + 1).last() == paths@[i as int]@);
                assert(fs.take(i + 1).last() == found@[i as int]);
                lemma_measured_prefix(names, fs, i + 1);
                lemma_measured_prefix(names, fs, i as int);
                lemma_last_measured(names.take(i + 1), fs.take(i + 1));
            }
            if let Some((len, blocks)) = found[i] {
                shards.push(
                    ShardDisk {
                        name: shard_name(paths[i].as_str()),
                        apparent: len,
                        allocated: blocks * 512,
                    },
                );
                proof {
                    assert(shard_views(shards@) =~= before.push(
                        (base_name(names[i as int]), len as int, blocks * 512),
                    ));
                }
            }
            i = i + 1;
        }
        proof {
            assert(names.take(i as int) =~= names);
            assert(fs.take(i as int) =~= fs);
            lemma_shard_sums(shards@);
        }
        DiskUsage::from_shards(shards)
    }
}

// ---------------------------------------------------------------------------
// What the breakdown adds up to

/// How many tensors a breakdown counts.
pub open spec fn tallied_count(v: Seq<TallyModel>) -> nat
    decreases v.len(),
{
    if v.len() == 0 {
        0
    } else {
        tallied_count(v.drop_last()) + v.last().count as nat
    }
}

/// How many bytes a breakdown counts.
pub open spec fn tallied_bytes(v: Seq<TallyModel>) -> nat
    decreases v.len(),
{
    if v.len() == 0 {
        0
    } else {
        tallied_bytes(v.drop_last()) + v.last().bytes as nat
    }
}

proof fn lemma_tallied_insert(v: Seq<TallyModel>, p: int, x: TallyModel)
    requires
        0 <= p <= v.len(),
    ensures
        tallied_count(v.insert(p, x)) == tallied_count(v) + x.count,
        tallied_bytes(v.insert(p, x)) == tallied_bytes(v) + x.bytes,
    decreases v.len(),
{
    let r = v.insert(p, x);
    if p == v.len() {
        assert(r.drop_last() =~= v);
    } else {
        lemma_tallied_insert(v.drop_last(), p, x);
        assert(r.drop_last() =~= v.drop_last().insert(p, x));
        assert(r.last() == v.last());
    }
}

proof fn lemma_larger_share()
    ensures
        total_preorder(larger_share()),
{
    assert forall|a: TallyModel, b: TallyModel| true implies #[trigger] larger_share()(a, b)
        || larger_share()(b, a) by {
        lemma_order(a.name, b.name, b.name);
    }
    assert forall|a: TallyModel, b: TallyModel, c: TallyModel| #[trigger]
        larger_share()(a, b) && #[trigger] larger_share()(b, c) implies larger_share()(a, c) by {
        lemma_order(a.name, b.name, c.name);
    }
}

proof fn lemma_tallied_sort(v: Seq<TallyModel>)
    ensures
        tallied_count(stable_sort(v, larger_share())) == tallied_count(v),
        tallied_bytes(stable_sort(v, larger_share())) == tallied_bytes(v),
    decreases v.len(),
{
    if v.len() > 0 {
        let le = larger_share();
        let r = stable_sort(v.drop_last(), le);
        lemma_larger_share();
        lemma_tallied_sort(v.drop_last());
        lemma_stable_sort(v.drop_last(), le);
        lemma_sorted_position(r, v.last(), le);
        lemma_tallied_insert(r, sorted_position(r, v.last(), le), v.last());
    }
}

/// The sum of a number over the tensors under some keys.
spec fn keyed_sum(
    ts: Seq<TensorModel>,
    key: spec_fn(TensorModel) -> Option<Seq<char>>,
    names: Seq<Seq<char>>,
    f: spec_fn(TensorModel) -> usize,
) -> nat
    decreases names.len(),
{
    if names.len() == 0 {
        0
    } else {
        keyed_sum(ts, key, names.drop_last(), f) + sum_of(members(ts, key, Some(names.last())), f)
    }
}

/// One tensor more adds to the key it falls under, and to no other.
proof fn lemma_keyed_push(
    ts: Seq<TensorModel>,
    key: spec_fn(TensorModel) -> Option<Seq<char>>,
    names: Seq<Seq<char>>,
    f: spec_fn(TensorModel) -> usize,
    x: TensorModel,
)
    requires
        names.no_duplicates(),
    ensures
        keyed_sum(ts.push(x), key, names, f) == keyed_sum(ts, key, names, f) + if key(x) is Some
            && names.contains(key(x)->0) {
            f(x) as nat
        } else {
            0
        },
    decreases names.len(),
{
    if names.len() > 0 {
        let rest = names.drop_last();
        let k = names.last();
        assert(rest.no_duplicates());
        lemma_keyed_push(ts, key, rest, f, x);
        let keep = falls_into(key, Some(k));
        let own = members(ts, key, Some(k));
        ts.lemma_filter_push(x, keep);
        if keep(x) {
            assert(own.push(x).drop_last() =~= own);
            assert(names[names.len() - 1] == k);
            assert(names.contains(k));
            if rest.contains(k) {
                let i = choose|i: int| 0 <= i < rest.len() && rest[i] == k;
                assert(names[i] == k);
            }
        } else if key(x) is Some {
            let b = key(x)->0;
            if names.contains(b) {
                let i = choose|i: int| 0 <= i < names.len() && names[i] == b;
                assert(rest[i] == b);
            }
            if rest.contains(b) {
                let i = choose|i: int| 0 <= i < rest.len() && rest[i] == b;
                assert(names[i] == b);
            }
        }
    }
}

/// Where every tensor has a key, the sums under the keys add up to the whole.
proof fn lemma_keyed_whole(
    ts: Seq<TensorModel>,
    key: spec_fn(TensorModel) -> Option<Seq<char>>,
    f: spec_fn(TensorModel) -> usize,
)
    requires
        forall|t: TensorModel| (#[trigger] key(t)) is Some,
    ensures
        keyed_sum(ts, key, bucket_names(ts, key), f) == sum_of(ts, f),
    decreases ts.len(),
{
    if ts.len() > 0 {
        let t = ts.drop_last();
        let x = ts.last();
        let names = bucket_names(t, key);
        let k = key(x)->0;
        assert(key(x) is Some);
        assert(ts =~= t.push(x));
        lemma_keyed_whole(t, key, f);
        lemma_bucket_names_distinct(t, key);
        lemma_keyed_push(t, key, names, f, x);
        if !names.contains(k) {
            let keep = falls_into(key, Some(k));
            t.lemma_filter_push(x, keep);
            assert(members(t, key, Some(k)).len() == 0);
            assert(members(t, key, Some(k)) =~= Seq::empty());
            assert(members(ts, key, Some(k)) =~= seq![x]);
            assert(seq![x].drop_last() =~= Seq::empty());
            assert(sum_of(seq![x].drop_last(), f) == 0);
            assert(seq![x].last() == x);
            assert(sum_of(seq![x], f) == f(x));
            assert(names.push(k).drop_last() =~= names);
        }
    }
}

proof fn lemma_sum_ones(ts: Seq<TensorModel>)
    ensures
        sum_of(ts, |t: TensorModel| 1usize) == ts.len(),
    decreases ts.len(),
{
    if ts.len() > 0 {
        lemma_sum_ones(ts.drop_last());
    }
}

/// The breakdown by dtype counts every tensor once, and every byte.
pub proof fn law_breakdown_adds_up(ts: Seq<TensorModel>)
    requires
        countable(ts),
        ts.len() <= usize::MAX,
    ensures
        tallied_count(dtype_breakdown(ts)) == ts.len(),
        tallied_bytes(dtype_breakdown(ts)) == sum_of(ts, logical_bytes()),
{
    let key = by_dtype();
    let names = bucket_names(ts, key);
    let ones = |t: TensorModel| 1usize;
    lemma_tallied_sort(tallies(ts, key));
    lemma_keyed_whole(ts, key, logical_bytes());
    lemma_keyed_whole(ts, key, ones);
    lemma_sum_ones(ts);
    lemma_tallied_names(ts, key, names);
    assert(names.map_values(|k: Seq<char>| tally_of(ts, key, k)) == tallies(ts, key));
}

proof fn lemma_tallied_names(
    ts: Seq<TensorModel>,
    key: spec_fn(TensorModel) -> Option<Seq<char>>,
    names: Seq<Seq<char>>,
)
    requires
        countable(ts),
        ts.len() <= usize::MAX,
    ensures
        tallied_count(names.map_values(|k: Seq<char>| tally_of(ts, key, k))) == keyed_sum(
            ts,
            key,
            names,
            |t: TensorModel| 1usize,
        ),
        tallied_bytes(names.map_values(|k: Seq<char>| tally_of(ts, key, k))) == keyed_sum(
            ts,
            key,
            names,
            logical_bytes(),
        ),
    decreases names.len(),
{
    let f = |k: Seq<char>| tally_of(ts, key, k);
    let v = names.map_values(f);
    if names.len() > 0 {
        let k = names.last();
        let own = members(ts, key, Some(k));
        lemma_tallied_names(ts, key, names.drop_last());
        assert(v.drop_last() =~= names.drop_last().map_values(f));
        assert(v.last() == tally_of(ts, key, k));
        lemma_sum_ones(own);
        lemma_sum_filter(ts, logical_bytes(), falls_into(key, Some(k)));
        ts.lemma_filter_len(falls_into(key, Some(k)));
    }
}

} // verus!
