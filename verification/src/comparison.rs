//! Comparing two checkpoints from start to end: what is compared, what is said, and the
//! exit code.
use vstd::prelude::*;

use crate::diff::{
    compare, compare_found, difference, focus_lines, metadata_rows, name_schema, no_extras, render_histogram_table,
    render_tensor_focus, row_names, same_numbers, schema_of, shared, strs, tensor_focus_differs,
    tensor_rows, CheckpointSummary, DiffOpts, DiffReport, HistogramDiff, MetaModel, SigModel, TensorExtras,
    TensorSig, ValueCmp, ValueDiff,
};
use crate::filter::TensorFilter;
use crate::namemap::NameMap;
use crate::open::{find_tensor, tensor_named};
use crate::prompts::optional;
use crate::schema::{distinct, distinct_strings, law_distinct_strings};
use crate::text::{add_line, add_lines, decimal, decimal_string, join, terminated, texts};
use crate::tree::{MetadataInfo, TensorInfo};

verus! {

/// How many tensors are compared at a time: as many as asked for, else as many as the
/// machine can, else four.
pub fn choose_jobs(asked: Option<usize>, available: Option<usize>) -> (r: usize)
    ensures
        r == match asked {
            Some(n) if n > 0 => n,
            _ => match available {
                Some(n) => n,
                None => 4,
            },
        },
{
    match asked {
        Some(n) if n > 0 => n,
        _ => match available {
            Some(n) => n,
            None => 4,
        },
    }
}

/// What a comparison shows. Metadata is left out on request and when only some of the
/// tensors are compared.
pub fn diff_opts(
    color: bool,
    only_tensors: bool,
    filter: &TensorFilter,
    full: bool,
    values: bool,
    histogram: bool,
) -> (r: DiffOpts)
    ensures
        r.color == color,
        r.metadata == (!only_tensors && !filter.active()),
        r.group == !full,
        r.values == values,
        r.histogram == histogram,
        r.filtered == filter.active(),
{
    let filtered = filter.is_active();
    DiffOpts { color, metadata: !only_tensors && !filtered, group: !full, values, histogram, filtered }
}

// ---------------------------------------------------------------------------
// All tensors

/// The names on either side, each once, in order.
pub open spec fn names_of_both<T>(a: Seq<(Seq<char>, T)>, b: Seq<(Seq<char>, T)>) -> Seq<Seq<char>> {
    distinct(row_names(a) + row_names(b))
}

fn both_names(a: &NameMap<TensorSig>, b: &NameMap<TensorSig>) -> (r: Vec<String>)
    requires
        a.wf(),
        b.wf(),
    ensures
        texts(r@) == names_of_both(a.rows(), b.rows()),
{
    let mut all = a.keys();
    let more = b.keys();
    add_lines(&mut all, more);
    proof {
        assert(texts(all@) =~= row_names(a.rows()) + row_names(b.rows()));
    }
    distinct_strings(&all)
}

/// The two sides as they are compared.
#[derive(Debug)]
pub struct Sides {
    pub old_sum: CheckpointSummary,
    pub new_sum: CheckpointSummary,
    /// How many tensors there are on either side, before any are left out.
    pub total: usize,
}

/// The tensors of one side that are compared.
pub open spec fn scoped(
    filter: TensorFilter,
    rows: Seq<(Seq<char>, SigModel)>,
    old_rows: Seq<(Seq<char>, SigModel)>,
    new_rows: Seq<(Seq<char>, SigModel)>,
) -> Seq<(Seq<char>, SigModel)> {
    if filter.active() {
        rows.filter(filter.keeps(old_rows, new_rows))
    } else {
        rows
    }
}

/// Reduce two loaded checkpoints to what is compared: the tensors that the filter keeps,
/// and the metadata where it is shown.
pub fn prepare(
    old_t: &Vec<TensorInfo>,
    old_m: &Vec<MetadataInfo>,
    new_t: &Vec<TensorInfo>,
    new_m: &Vec<MetadataInfo>,
    opts: DiffOpts,
    filter: &TensorFilter,
) -> (r: Sides)
    requires
        filter.wf(),
    ensures
        r.old_sum.wf(),
        r.new_sum.wf(),
        ({
            let a = tensor_rows(old_t.deep_view());
            let b = tensor_rows(new_t.deep_view());
            &&& r.total == names_of_both(a, b).len()
            &&& r.old_sum.tensors.rows() == scoped(*filter, a, a, b)
            &&& r.new_sum.tensors.rows() == scoped(*filter, b, a, b)
        }),
        r.old_sum.metadata.rows() == if opts.metadata {
            metadata_rows(old_m.deep_view())
        } else {
            Seq::empty()
        },
        r.new_sum.metadata.rows() == if opts.metadata {
            metadata_rows(new_m.deep_view())
        } else {
            Seq::empty()
        },
{
    let nothing: Vec<MetadataInfo> = Vec::new();
    let a = if opts.metadata {
        old_m
    } else {
        &nothing
    };
    let b = if opts.metadata {
        new_m
    } else {
        &nothing
    };
    let (old_ts, old_ms) = (old_t.as_slice(), a.as_slice());
    let (new_ts, new_ms) = (new_t.as_slice(), b.as_slice());
    let mut old_sum = CheckpointSummary::from_loaded(old_ts, old_ms);
    let mut new_sum = CheckpointSummary::from_loaded(new_ts, new_ms);
    proof {
        assert(nothing.deep_view() =~= Seq::empty());
        assert(metadata_rows(nothing.deep_view()) =~= Seq::<(Seq<char>, MetaModel)>::empty());
        assert(old_ts.deep_view() =~= old_t.deep_view());
        assert(old_ms.deep_view() =~= a.deep_view());
        assert(new_ts.deep_view() =~= new_t.deep_view());
        assert(new_ms.deep_view() =~= b.deep_view());
    }
    let names = both_names(&old_sum.tensors, &new_sum.tensors);
    let total: usize = names.len();
    proof {
        assert(texts(names@).len() == total);
    }
    filter.apply(&mut old_sum, &mut new_sum);
    Sides { old_sum, new_sum, total }
}

/// The difference, given what was found about each tensor on both sides, where the data
/// was read.
pub fn difference_of(sides: &Sides, extras: Option<Vec<TensorExtras>>) -> (r: DiffReport)
    requires
        sides.old_sum.wf(),
        sides.new_sum.wf(),
        extras is Some ==> extras->0.len() == shared(
            sides.old_sum.tensors.rows(),
            sides.new_sum.tensors.rows(),
        ).len(),
    ensures
        r.deep_view() == difference(
            sides.old_sum.tensors.rows(),
            sides.new_sum.tensors.rows(),
            sides.old_sum.metadata.rows(),
            sides.new_sum.metadata.rows(),
            match extras {
                Some(v) => v.deep_view(),
                None => no_extras(
                    shared(sides.old_sum.tensors.rows(), sides.new_sum.tensors.rows()).len(),
                ),
            },
        ),
{
    match extras {
        Some(v) => compare_found(&sides.old_sum, &sides.new_sum, v),
        None => compare(&sides.old_sum, &sides.new_sum),
    }
}

/// The exit code of a comparison: 1 where something differs.
pub fn exit_code(report: &DiffReport) -> (r: i32)
    ensures
        r == if report.deep_view().any() {
            1i32
        } else {
            0i32
        },
{
    if report.has_differences() {
        1
    } else {
        0
    }
}

/// How many name templates are listed.
pub const MAX_SCHEMA_LINES: usize = 40;

/// The line of a name template.
pub open spec fn schema_line(e: (Seq<char>, nat)) -> Seq<char> {
    if e.1 > 1 {
        "    "@ + e.0 + "  (×"@ + decimal(e.1) + ")"@
    } else {
        "    "@ + e.0
    }
}

/// What is said of a filter: how many tensors it kept, and their names collapsed into
/// templates.
pub open spec fn filter_lines(desc: Seq<char>, names: Seq<Seq<char>>, total: nat) -> Seq<Seq<char>> {
    let head = "checkpoint-explorer diff: filter ["@ + desc + "] matched "@ + decimal(names.len())
        + " of "@ + decimal(total) + " tensor(s)"@;
    if names.len() == 0 {
        seq![head]
    } else {
        let schema = schema_of(names);
        let n = if schema.len() > MAX_SCHEMA_LINES {
            MAX_SCHEMA_LINES as int
        } else {
            schema.len() as int
        };
        seq![head + ":"@] + Seq::new(n as nat, |i: int| schema_line(schema[i])) + (if schema.len()
            > MAX_SCHEMA_LINES {
            seq![
                "    … and "@ + decimal((schema.len() - MAX_SCHEMA_LINES) as nat)
                    + " more template(s)"@,
            ]
        } else {
            seq![]
        })
    }
}

/// What is said of the filter, where one is active.
pub fn filter_notes(filter: &TensorFilter, sides: &Sides) -> (r: Vec<String>)
    requires
        sides.old_sum.wf(),
        sides.new_sum.wf(),
    ensures
        texts(r@) == if filter.active() {
            filter_lines(
                join(filter.description(), ", "@),
                names_of_both(sides.old_sum.tensors.rows(), sides.new_sum.tensors.rows()),
                sides.total as nat,
            )
        } else {
            Seq::empty()
        },
{
    let mut r: Vec<String> = Vec::new();
    proof {
        assert(texts(r@) =~= Seq::empty());
    }
    let desc = match filter.describe() {
        Some(d) => d,
        None => {
            return r;
        },
    };
    let names = both_names(&sides.old_sum.tensors, &sides.new_sum.tensors);
    let ghost all = texts(names@);
    let head = "checkpoint-explorer diff: filter [".to_owned().concat(desc.as_str()).concat(
        "] matched ",
    ).concat(decimal_string(names.len() as u128).as_str()).concat(" of ").concat(
        decimal_string(sides.total as u128).as_str(),
    ).concat(" tensor(s)");
    if names.len() == 0 {
        add_line(&mut r, head);
        proof {
            assert(texts(r@) =~= filter_lines(desc@, all, sides.total as nat));
        }
        return r;
    }
    let ghost first = head@ + ":"@;
    add_line(&mut r, head.concat(":"));
    let mut refs: Vec<&str> = Vec::new();
    let mut i: usize = 0;
    while i < names.len()
        invariant
            i <= names.len(),
            all == texts(names@),
            strs(refs@) =~= all.take(i as int),
        decreases names.len() - i,
    {
        let ghost had = refs@;
        refs.push(names[i].as_str());
        proof {
            assert(strs(refs@) =~= strs(had).push(names@[i as int]@));
            assert(all.take(i + 1) =~= all.take(i as int).push(all[i as int]));
        }
        i = i + 1;
    }
    proof {
        assert(strs(refs@) =~= all);
    }
    let schema = name_schema(refs.as_slice());
    let ghost want = schema_of(all);
    let n: usize = if schema.len() > MAX_SCHEMA_LINES {
        MAX_SCHEMA_LINES
    } else {
        schema.len()
    };
    let ghost body = Seq::new(n as nat, |i: int| schema_line(want[i]));
    let mut k: usize = 0;
    while k < n
        invariant
            k <= n <= schema.len(),
            schema.len() == want.len(),
            forall|i: int|
                0 <= i < schema.len() ==> (#[trigger] schema@[i]).0@ == want[i].0 && schema@[i].1
                    == want[i].1,
            body == Seq::new(n as nat, |i: int| schema_line(want[i])),
            texts(r@) =~= seq![first] + body.take(k as int),
        decreases n - k,
    {
        let (template, count) = (&schema[k].0, schema[k].1);
        let line = if count > 1 {
            "    ".to_owned().concat(template.as_str()).concat("  (×").concat(
                decimal_string(count as u128).as_str(),
            ).concat(")")
        } else {
            "    ".to_owned().concat(template.as_str())
        };
        add_line(&mut r, line);
        k = k + 1;
    }
    if schema.len() > MAX_SCHEMA_LINES {
        add_line(
            &mut r,
            "    … and ".to_owned().concat(
                decimal_string((schema.len() - MAX_SCHEMA_LINES) as u128).as_str(),
            ).concat(" more template(s)"),
        );
    }
    proof {
        assert(texts(r@) =~= filter_lines(desc@, all, sides.total as nat));
    }
    r
}

// ---------------------------------------------------------------------------
// One tensor

/// How two tensors' values compare, from their element-wise comparison, which needs one
/// shape.
pub fn value_cmp(a: &TensorInfo, b: &TensorInfo, compared: Result<ValueDiff, String>) -> (r: ValueCmp)
    ensures
        a.shape@ != b.shape@ ==> (r matches ValueCmp::Skipped(why) && why@ == "shapes differ"@),
        a.shape@ == b.shape@ ==> match compared {
            Ok(vd) => if vd.differing == 0 {
                r is Identical
            } else {
                r matches ValueCmp::Differ(d) && d == vd
            },
            Err(e) => r matches ValueCmp::Skipped(why) && why == e,
        },
{
    if !same_numbers(&a.shape, &b.shape) {
        return ValueCmp::Skipped("shapes differ".to_owned());
    }
    match compared {
        Ok(vd) => if vd.differing == 0 {
            ValueCmp::Identical
        } else {
            ValueCmp::Differ(vd)
        },
        Err(e) => ValueCmp::Skipped(e),
    }
}

/// Where a tensor is on each side, or the complaint that it is on neither.
pub fn find_both(name: &str, old_t: &Vec<TensorInfo>, new_t: &Vec<TensorInfo>) -> (r: Result<
    (Option<usize>, Option<usize>),
    String,
>)
    ensures
        ({
            let a = tensor_named(old_t.deep_view(), name@, 0);
            let b = tensor_named(new_t.deep_view(), name@, 0);
            match r {
                Ok(p) => p == (a, b) && (a is Some || b is Some),
                Err(e) => a is None && b is None && e@ == "checkpoint-explorer diff: tensor '"@
                    + name@ + "' not found in either checkpoint"@,
            }
        }),
{
    let a = find_tensor(old_t, name);
    let b = find_tensor(new_t, name);
    if a.is_none() && b.is_none() {
        return Err(
            "checkpoint-explorer diff: tensor '".to_owned().concat(name).concat(
                "' not found in either checkpoint",
            ),
        );
    }
    Ok((a, b))
}

/// What came of comparing two histograms.
#[derive(Debug)]
pub enum HistogramCmp {
    /// They were not compared.
    Unread,
    /// They were compared; whether they differ.
    Read(HistogramDiff, bool),
    /// They could not be read.
    Failed(String),
}

/// The report on one tensor.
#[derive(Debug)]
pub struct Focus {
    pub text: String,
    /// What is said beside the report.
    pub trouble: Option<String>,
    pub code: i32,
}

/// Whether two tensors' histograms are compared.
pub fn compares_histograms(opts: DiffOpts, a: Option<&TensorInfo>, b: Option<&TensorInfo>) -> (r: bool)
    ensures
        r == (opts.histogram && a is Some && b is Some && a->0.shape@ == b->0.shape@),
{
    match (a, b) {
        (Some(x), Some(y)) => opts.histogram && same_numbers(&x.shape, &y.shape),
        _ => false,
    }
}

/// Report on one tensor: its signature on both sides, its values, and the table of its
/// histogram. The exit code is 1 where any of them differs.
pub fn focus_on(
    old_label: &str,
    new_label: &str,
    name: &str,
    old_sig: Option<&TensorSig>,
    new_sig: Option<&TensorSig>,
    values: Option<&ValueCmp>,
    histogram: &HistogramCmp,
    color: bool,
) -> (r: Focus)
    requires
        histogram matches HistogramCmp::Read(hd, _) ==> hd.wf(),
    ensures
        r.text@ == terminated(
            seq!["--- "@ + old_label@, "+++ "@ + new_label@, ""@] + focus_lines(
                name@,
                old_sig,
                new_sig,
                values,
                color,
            ),
        ) + (match *histogram {
            HistogramCmp::Read(hd, _) => terminated(hd.table(name@, color)),
            _ => Seq::empty(),
        }),
        optional(r.trouble) == match *histogram {
            HistogramCmp::Failed(e) => Some("checkpoint-explorer diff: histogram: "@ + e@),
            _ => None,
        },
        r.code == if (match (old_sig, new_sig) {
            (Some(x), Some(y)) => x.deep_view() != y.deep_view() || (values is Some
                && values->0 is Differ),
            _ => true,
        }) || (*histogram matches HistogramCmp::Read(_, d) && d) {
            1i32
        } else {
            0i32
        },
{
    let head = render_tensor_focus(old_label, new_label, name, old_sig, new_sig, values, color);
    let differs = tensor_focus_differs(old_sig, new_sig, values);
    let (text, trouble, shifted) = match histogram {
        HistogramCmp::Read(hd, d) => (
            head.concat(render_histogram_table(name, hd, color).as_str()),
            None,
            *d,
        ),
        HistogramCmp::Failed(e) => {
            proof {
                assert(head@ + Seq::<char>::empty() =~= head@);
            }
            (
                head,
                Some("checkpoint-explorer diff: histogram: ".to_owned().concat(e.as_str())),
                false,
            )
        },
        HistogramCmp::Unread => {
            proof {
                assert(head@ + Seq::<char>::empty() =~= head@);
            }
            (head, None, false)
        },
    };
    Focus {
        text,
        trouble,
        code: if differs || shifted {
            1
        } else {
            0
        },
    }
}

/// A filter is reported with what it matched of how many; below, the templates of the names
/// that it matched, one to a line, up to a limit, and how many are left out beyond it.
pub proof fn law_filters_are_reported(desc: Seq<char>, names: Seq<Seq<char>>, total: nat)
    ensures
        ({
            let lines = filter_lines(desc, names, total);
            let head = "checkpoint-explorer diff: filter ["@ + desc + "] matched "@ + decimal(
                names.len(),
            ) + " of "@ + decimal(total) + " tensor(s)"@;
            let n = schema_of(names).len();
            &&& names.len() == 0 ==> lines == seq![head]
            &&& names.len() > 0 ==> lines[0] == head + ":"@
            &&& names.len() > 0 && n <= MAX_SCHEMA_LINES ==> lines.len() == n + 1
            &&& names.len() > 0 && n > MAX_SCHEMA_LINES ==> lines.len() == MAX_SCHEMA_LINES + 2
                && lines.last() == "    … and "@ + decimal((n - MAX_SCHEMA_LINES) as nat)
                + " more template(s)"@
            &&& forall|i: int|
                names.len() > 0 && 0 <= i < n && i < MAX_SCHEMA_LINES ==> #[trigger] lines[i + 1]
                    == "    "@ + schema_of(names)[i].0 + (if schema_of(names)[i].1 > 1 {
                    "  (×"@ + decimal(schema_of(names)[i].1) + ")"@
                } else {
                    ""@
                })
        }),
{
    reveal_strlit("");
    let lines = filter_lines(desc, names, total);
    let schema = schema_of(names);
    assert forall|i: int|
        names.len() > 0 && 0 <= i < schema.len() && i < MAX_SCHEMA_LINES implies #[trigger] lines[i
        + 1] == "    "@ + schema[i].0 + (if schema[i].1 > 1 {
        "  (×"@ + decimal(schema[i].1) + ")"@
    } else {
        ""@
    }) by {
        assert(lines[i + 1] == schema_line(schema[i]));
        if schema[i].1 > 1 {
            assert("    "@ + schema[i].0 + "  (×"@ + decimal(schema[i].1) + ")"@ =~= "    "@
                + schema[i].0 + ("  (×"@ + decimal(schema[i].1) + ")"@));
        } else {
            assert("    "@ + schema[i].0 + ""@ =~= "    "@ + schema[i].0);
        }
    }
}

/// The names of both sides are each counted once; where no filter is active nothing is left
/// out, and otherwise what does not pass.
pub proof fn law_scope_is_what_passes(
    filter: TensorFilter,
    rows: Seq<(Seq<char>, SigModel)>,
    a: Seq<(Seq<char>, SigModel)>,
    b: Seq<(Seq<char>, SigModel)>,
    x: Seq<char>,
)
    ensures
        !filter.active() ==> scoped(filter, rows, a, b) == rows,
        filter.active() ==> scoped(filter, rows, a, b) == rows.filter(filter.keeps(a, b)),
        names_of_both(a, b).contains(x) <==> (exists|i: int|
            0 <= i < a.len() && (#[trigger] a[i]).0 == x) || (exists|i: int|
            0 <= i < b.len() && (#[trigger] b[i]).0 == x),
{
    let all = row_names(a) + row_names(b);
    law_distinct_strings(all);
    assert(names_of_both(a, b).contains(x) <==> all.contains(x));
    if all.contains(x) {
        let k = all.index_of(x);
        if k < a.len() {
            assert(a[k].0 == x);
        } else {
            assert(b[k - a.len()].0 == x);
        }
    }
    if exists|i: int| 0 <= i < a.len() && (#[trigger] a[i]).0 == x {
        let i = choose|i: int| 0 <= i < a.len() && (#[trigger] a[i]).0 == x;
        assert(all[i] == x);
    }
    if exists|i: int| 0 <= i < b.len() && (#[trigger] b[i]).0 == x {
        let i = choose|i: int| 0 <= i < b.len() && (#[trigger] b[i]).0 == x;
        assert(all[a.len() + i] == x);
    }
}

} // verus!
