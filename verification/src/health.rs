//! Comparing an index file against the files that are there.
use vstd::prelude::*;

use crate::diff::{entries_where, lemma_filter_none, only_in, row_in, row_names, shared, NoKey};
use crate::header::only_entry;
use crate::json::{json_entries, json_value, law_members_are_found, parse_json, Json, JsonModel};
use crate::namemap::lemma_unique;
use crate::namemap::{has_row, lemma_with_row, lemma_with_row_ascends, names_ascend, with_row, NameMap};
use crate::order::stable_sort;
use crate::paths::{extension_of, split_name};
use crate::schema::{entry_models, law_sorted_strings, sort_strings, text_ascending};
use crate::text::{add_line, same, texts};

verus! {

/// The result of comparing an index against the files on disk.
#[derive(Debug)]
pub struct HealthReport {
    /// The index file that was checked.
    pub index_path: String,
    /// Files referenced by the index but absent on disk.
    pub missing_files: Vec<String>,
    /// Files present on disk but not referenced by the index.
    pub extra_files: Vec<String>,
    /// Tensors that the index assigns to a present file that does not contain them.
    pub missing_tensors: Vec<String>,
    /// Tensors found in a referenced file that the index does not assign there.
    pub extra_tensors: Vec<String>,
}

impl HealthReport {
    pub open spec fn issues(self) -> bool {
        self.missing_files.len() > 0 || self.extra_files.len() > 0 || self.missing_tensors.len() > 0
            || self.extra_tensors.len() > 0
    }

    /// Whether anything is amiss.
    pub fn has_issues(&self) -> (b: bool)
        ensures
            b == self.issues(),
    {
        self.missing_files.len() > 0 || self.extra_files.len() > 0 || self.missing_tensors.len() > 0
            || self.extra_tensors.len() > 0
    }
}

/// A name that stands for a file.
#[derive(Debug)]
pub struct FileName {
    pub name: String,
}

impl DeepView for FileName {
    type V = Seq<char>;

    open spec fn deep_view(&self) -> Seq<char> {
        self.name@
    }
}

/// The entries of a weight map whose values are strings.
pub open spec fn map_rows(entries: Seq<(Seq<char>, JsonModel)>) -> Seq<(Seq<char>, Seq<char>)>
    decreases entries.len(),
{
    if entries.len() == 0 {
        Seq::empty()
    } else {
        let r = map_rows(entries.drop_last());
        match entries.last().1.as_str() {
            Some(file) => with_row(r, entries.last().0, file),
            None => r,
        }
    }
}

/// The rows of an index's weight map: tensor name and file name.
pub open spec fn weight_rows(index: JsonModel) -> Seq<(Seq<char>, Seq<char>)> {
    match index.get("weight_map"@) {
        Some(v) => match v.as_object() {
            Some(entries) => map_rows(entries),
            None => Seq::empty(),
        },
        None => Seq::empty(),
    }
}

/// The weight map of an index that was read.
pub fn weight_map(index: &Json) -> (r: NameMap<FileName>)
    ensures
        r.wf(),
        r.rows() == weight_rows(index.model()),
{
    let mut r: NameMap<FileName> = NameMap::new();
    match index.get("weight_map") {
        Some(v) => match v.as_object() {
            Some(entries) => {
                let ghost all = json_entries(entries@);
                let mut i: usize = 0;
                proof {
                    assert(r.rows() =~= map_rows(all.take(0)));
                }
                while i < entries.len()
                    invariant
                        i <= entries.len(),
                        all == json_entries(entries@),
                        r.wf(),
                        r.rows() == map_rows(all.take(i as int)),
                    decreases entries.len() - i,
                {
                    proof {
                        assert(all.take(i + 1).drop_last() =~= all.take(i as int));
                        assert(all.take(i + 1).last() == (
                            entries@[i as int].0@,
                            entries@[i as int].1.model(),
                        ));
                    }
                    match entries[i].1.as_str() {
                        Some(file) => {
                            r.insert(entries[i].0.clone(), FileName { name: file.to_owned() });
                        },
                        None => {},
                    }
                    i = i + 1;
                }
                proof {
                    assert(all.take(i as int) =~= all);
                }
            },
            None => {},
        },
        None => {},
    }
    r
}

/// Parse the weight map of an index into a map from tensor names to file names.
/// `path` names the index in a complaint.
pub fn parse_weight_map(content: &str, path: &str) -> (r: Result<NameMap<FileName>, String>)
    ensures
        match json_value(vstd::utf8::encode_utf8(content@)) {
            None => r is Err && r->Err_0@ == "Failed to parse index file: "@ + path@,
            Some(v) => r is Ok && r->Ok_0.wf() && r->Ok_0.rows() == weight_rows(v),
        },
{
    match parse_json(content.as_bytes()) {
        None => Err("Failed to parse index file: ".to_owned().concat(path)),
        Some(v) => Ok(weight_map(&v)),
    }
}

/// A list of names as a set, in order.
pub open spec fn name_set(names: Seq<Seq<char>>) -> Seq<(Seq<char>, ())>
    decreases names.len(),
{
    if names.len() == 0 {
        Seq::empty()
    } else {
        with_row(name_set(names.drop_last()), names.last(), ())
    }
}

/// A list of names as a set.
pub fn set_of(names: &Vec<String>) -> (r: NameMap<NoKey>)
    ensures
        r.wf(),
        r.rows() == name_set(texts(names@)),
{
    let ghost all = texts(names@);
    let mut r: NameMap<NoKey> = NameMap::new();
    let mut i: usize = 0;
    proof {
        assert(r.rows() =~= name_set(all.take(0)));
    }
    while i < names.len()
        invariant
            i <= names.len(),
            all == texts(names@),
            r.wf(),
            r.rows() == name_set(all.take(i as int)),
        decreases names.len() - i,
    {
        proof {
            assert(all.take(i + 1).drop_last() =~= all.take(i as int));
            assert(all.take(i + 1).last() == names@[i as int]@);
        }
        r.insert(names[i].clone(), NoKey);
        i = i + 1;
    }
    proof {
        assert(all.take(i as int) =~= all);
    }
    r
}

/// Whether a file name is that of a safetensors file.
pub open spec fn is_safetensors() -> spec_fn(Seq<char>) -> bool {
    |name: Seq<char>| extension_of(name) == Some("safetensors"@)
}

/// The safetensors files among the file names of a directory, as a set.
pub fn list_safetensors(names: &Vec<String>) -> (r: NameMap<NoKey>)
    ensures
        r.wf(),
        r.rows() == name_set(texts(names@).filter(is_safetensors())),
{
    let ghost all = texts(names@);
    let ghost keep = is_safetensors();
    let mut picked: Vec<String> = Vec::new();
    let mut i: usize = 0;
    proof {
        all.take(0).lemma_filter_len(keep);
        assert(texts(picked@) =~= all.take(0).filter(keep));
    }
    while i < names.len()
        invariant
            i <= names.len(),
            all == texts(names@),
            keep == is_safetensors(),
            texts(picked@) == all.take(i as int).filter(keep),
        decreases names.len() - i,
    {
        proof {
            assert(all.take(i + 1) =~= all.take(i as int).push(all[i as int]));
            all.take(i as int).lemma_filter_push(all[i as int], keep);
        }
        let is = match split_name(names[i].as_str()).1 {
            Some(e) => same(e.as_str(), "safetensors"),
            None => false,
        };
        if is {
            add_line(&mut picked, names[i].clone());
        }
        i = i + 1;
    }
    proof {
        assert(all.take(i as int) =~= all);
    }
    set_of(&picked)
}

/// The second parts of rows.
pub open spec fn row_files(rows: Seq<(Seq<char>, Seq<char>)>) -> Seq<Seq<char>> {
    rows.map_values(|e: (Seq<char>, Seq<char>)| e.1)
}

/// The files that the weight map refers to.
pub open spec fn referenced(rows: Seq<(Seq<char>, Seq<char>)>) -> Seq<(Seq<char>, ())> {
    name_set(row_files(rows))
}

/// Whether a row assigns its tensor to `file`.
pub open spec fn assigned_to(file: Seq<char>) -> spec_fn((Seq<char>, Seq<char>)) -> bool {
    |e: (Seq<char>, Seq<char>)| e.1 == file
}

/// The tensors that the weight map assigns to a file.
pub open spec fn claimed(rows: Seq<(Seq<char>, Seq<char>)>, file: Seq<char>) -> Seq<
    (Seq<char>, ()),
> {
    name_set(row_names(rows.filter(assigned_to(file))))
}

/// The files whose tensors are compared: those referenced and present.
pub open spec fn files_compared(
    rows: Seq<(Seq<char>, Seq<char>)>,
    actual: Seq<(Seq<char>, ())>,
) -> Seq<Seq<char>> {
    row_names(shared(referenced(rows), actual))
}

/// Each of the tensors with a remark on its file.
pub open spec fn remarked(
    tensors: Seq<(Seq<char>, ())>,
    remark: Seq<char>,
    file: Seq<char>,
) -> Seq<Seq<char>> {
    tensors.map_values(|e: (Seq<char>, ())| e.0 + remark + file + ")"@)
}

/// The tensors that are claimed but not present, file by file. A file whose header
/// could not be read is passed over.
pub open spec fn absent(
    rows: Seq<(Seq<char>, Seq<char>)>,
    files: Seq<Seq<char>>,
    found: Seq<Option<Seq<Seq<char>>>>,
) -> Seq<Seq<char>>
    decreases files.len(),
{
    if files.len() == 0 {
        Seq::empty()
    } else {
        absent(rows, files.drop_last(), found.drop_last()) + match found.last() {
            Some(names) => remarked(
                only_in(claimed(rows, files.last()), name_set(names)),
                "  (expected in "@,
                files.last(),
            ),
            None => Seq::empty(),
        }
    }
}

/// The tensors that are present but not claimed, file by file.
pub open spec fn unlisted(
    rows: Seq<(Seq<char>, Seq<char>)>,
    files: Seq<Seq<char>>,
    found: Seq<Option<Seq<Seq<char>>>>,
) -> Seq<Seq<char>>
    decreases files.len(),
{
    if files.len() == 0 {
        Seq::empty()
    } else {
        unlisted(rows, files.drop_last(), found.drop_last()) + match found.last() {
            Some(names) => remarked(
                only_in(name_set(names), claimed(rows, files.last())),
                "  (in "@,
                files.last(),
            ),
            None => Seq::empty(),
        }
    }
}

/// The names that were found in each file.
pub open spec fn found_names(found: Seq<Option<Vec<String>>>) -> Seq<Option<Seq<Seq<char>>>> {
    found.map_values(
        |f: Option<Vec<String>>|
            match f {
                Some(v) => Some(texts(v@)),
                None => None,
            },
    )
}

fn names_of_entries(entries: &Vec<(String, NoKey)>) -> (r: Vec<String>)
    ensures
        texts(r@) == row_names(entry_models(entries@)),
{
    let mut r: Vec<String> = Vec::new();
    let mut i: usize = 0;
    while i < entries.len()
        invariant
            i <= entries.len(),
            r.len() == i,
            forall|j: int| 0 <= j < i ==> (#[trigger] r@[j])@ == entries@[j].0@,
        decreases entries.len() - i,
    {
        r.push(entries[i].0.clone());
        i = i + 1;
    }
    proof {
        assert(texts(r@) =~= row_names(entry_models(entries@)));
    }
    r
}

/// The files that the weight map refers to, as a set.
pub fn referenced_files(map: &NameMap<FileName>) -> (r: NameMap<NoKey>)
    ensures
        r.wf(),
        r.rows() == referenced(map.rows()),
{
    let ghost rows = map.rows();
    let mut files: Vec<String> = Vec::new();
    let mut i: usize = 0;
    while i < map.len()
        invariant
            i <= rows.len(),
            rows == map.rows(),
            files.len() == i,
            forall|j: int| 0 <= j < i ==> (#[trigger] files@[j])@ == rows[j].1,
        decreases rows.len() - i,
    {
        files.push(map.value_at(i).name.clone());
        i = i + 1;
    }
    proof {
        assert(texts(files@) =~= row_files(rows));
    }
    set_of(&files)
}

fn claimed_in(map: &NameMap<FileName>, file: &str) -> (r: NameMap<NoKey>)
    ensures
        r.wf(),
        r.rows() == claimed(map.rows(), file@),
{
    let ghost rows = map.rows();
    let ghost keep = assigned_to(file@);
    let mut names: Vec<String> = Vec::new();
    let mut i: usize = 0;
    proof {
        rows.take(0).lemma_filter_len(keep);
        assert(texts(names@) =~= row_names(rows.take(0).filter(keep)));
    }
    while i < map.len()
        invariant
            i <= rows.len(),
            rows == map.rows(),
            keep == assigned_to(file@),
            texts(names@) == row_names(rows.take(i as int).filter(keep)),
        decreases rows.len() - i,
    {
        proof {
            assert(rows.take(i + 1) =~= rows.take(i as int).push(rows[i as int]));
            rows.take(i as int).lemma_filter_push(rows[i as int], keep);
        }
        if same(map.value_at(i).name.as_str(), file) {
            let ghost before = rows.take(i as int).filter(keep);
            add_line(&mut names, map.name_at(i).to_owned());
            proof {
                assert(row_names(before.push(rows[i as int])) =~= row_names(before).push(
                    rows[i as int].0,
                ));
            }
        }
        i = i + 1;
    }
    proof {
        assert(rows.take(i as int) =~= rows);
    }
    set_of(&names)
}

/// The files whose tensors are compared: those referenced and present, in order.
pub fn files_to_compare(map: &NameMap<FileName>, actual: &NameMap<NoKey>) -> (r: Vec<String>)
    requires
        actual.wf(),
    ensures
        texts(r@) == files_compared(map.rows(), actual.rows()),
{
    let refs = referenced_files(map);
    names_of_entries(&entries_where(&refs, actual, true))
}

fn add_remarks(out: &mut Vec<String>, tensors: &Vec<(String, NoKey)>, remark: &str, file: &str)
    ensures
        texts(final(out)@) == texts(old(out)@) + remarked(entry_models(tensors@), remark@, file@),
{
    let ghost all = remarked(entry_models(tensors@), remark@, file@);
    let ghost before = texts(out@);
    let mut i: usize = 0;
    while i < tensors.len()
        invariant
            i <= tensors.len(),
            all == remarked(entry_models(tensors@), remark@, file@),
            texts(out@) =~= before + all.take(i as int),
        decreases tensors.len() - i,
    {
        proof {
            assert(entry_models(tensors@)[i as int].0 == tensors@[i as int].0@);
            assert(all[i as int] == tensors@[i as int].0@ + remark@ + file@ + ")"@);
        }
        let line = tensors[i].0.clone().concat(remark).concat(file).concat(")");
        add_line(out, line);
        i = i + 1;
    }
    proof {
        assert(all.take(i as int) =~= all);
    }
}

/// Compare an index's weight map against the files that are there. `found` gives the
/// names of the tensors in each of [`files_to_compare`], or `None` where its header
/// could not be read.
pub fn check(
    index_path: &str,
    map: &NameMap<FileName>,
    actual: &NameMap<NoKey>,
    found: &Vec<Option<Vec<String>>>,
) -> (r: HealthReport)
    requires
        actual.wf(),
        found.len() == files_compared(map.rows(), actual.rows()).len(),
    ensures
        ({
            let files = files_compared(map.rows(), actual.rows());
            let names = found_names(found@);
            &&& r.index_path@ == index_path@
            &&& texts(r.missing_files@) == row_names(only_in(referenced(map.rows()), actual.rows()))
            &&& texts(r.extra_files@) == row_names(only_in(actual.rows(), referenced(map.rows())))
            &&& texts(r.missing_tensors@) == stable_sort(
                absent(map.rows(), files, names),
                text_ascending(),
            )
            &&& texts(r.extra_tensors@) == stable_sort(
                unlisted(map.rows(), files, names),
                text_ascending(),
            )
        }),
{
    let refs = referenced_files(map);
    let missing_files = names_of_entries(&entries_where(&refs, actual, false));
    let extra_files = names_of_entries(&entries_where(actual, &refs, false));
    let both = names_of_entries(&entries_where(&refs, actual, true));
    let ghost rows = map.rows();
    let ghost files = texts(both@);
    let ghost names = found_names(found@);
    let mut missing: Vec<String> = Vec::new();
    let mut extra: Vec<String> = Vec::new();
    let mut i: usize = 0;
    proof {
        assert(texts(missing@) =~= absent(rows, files.take(0), names.take(0)));
        assert(texts(extra@) =~= unlisted(rows, files.take(0), names.take(0)));
    }
    while i < both.len()
        invariant
            i <= both.len(),
            both.len() == found.len(),
            rows == map.rows(),
            files == texts(both@),
            names == found_names(found@),
            texts(missing@) == absent(rows, files.take(i as int), names.take(i as int)),
            texts(extra@) == unlisted(rows, files.take(i as int), names.take(i as int)),
        decreases both.len() - i,
    {
        proof {
            assert(files.take(i + 1).drop_last() =~= files.take(i as int));
            assert(names.take(i + 1).drop_last() =~= names.take(i as int));
            assert(files.take(i + 1).last() == both@[i as int]@);
            assert(names.take(i + 1).last() == names[i as int]);
            assert(texts(missing@) + Seq::<Seq<char>>::empty() =~= texts(missing@));
            assert(texts(extra@) + Seq::<Seq<char>>::empty() =~= texts(extra@));
        }
        match &found[i] {
            Some(v) => {
                let present = set_of(v);
                let claims = claimed_in(map, both[i].as_str());
                add_remarks(
                    &mut missing,
                    &entries_where(&claims, &present, false),
                    "  (expected in ",
                    both[i].as_str(),
                );
                add_remarks(
                    &mut extra,
                    &entries_where(&present, &claims, false),
                    "  (in ",
                    both[i].as_str(),
                );
            },
            None => {},
        }
        i = i + 1;
    }
    proof {
        assert(files.take(i as int) =~= files);
        assert(names.take(i as int) =~= names);
    }
    HealthReport {
        index_path: index_path.to_owned(),
        missing_files,
        extra_files,
        missing_tensors: sort_strings(missing),
        extra_tensors: sort_strings(extra),
    }
}

/// Nothing is only in one of two equal sets.
proof fn lemma_only_in_itself<T>(a: Seq<(Seq<char>, T)>)
    ensures
        only_in(a, a) == Seq::<(Seq<char>, T)>::empty(),
{
    assert forall|i: int| 0 <= i < a.len() implies !row_in(a, false)(#[trigger] a[i]) by {
        assert(has_row(a, a[i].0));
    }
    lemma_filter_none(a, row_in(a, false));
}

proof fn lemma_all_match(
    rows: Seq<(Seq<char>, Seq<char>)>,
    files: Seq<Seq<char>>,
    found: Seq<Option<Seq<Seq<char>>>>,
)
    requires
        found.len() == files.len(),
        forall|i: int|
            0 <= i < files.len() && (#[trigger] found[i]) is Some ==> name_set(found[i]->0)
                == claimed(rows, files[i]),
    ensures
        absent(rows, files, found) == Seq::<Seq<char>>::empty(),
        unlisted(rows, files, found) == Seq::<Seq<char>>::empty(),
    decreases files.len(),
{
    if files.len() > 0 {
        let f = files.drop_last();
        let g = found.drop_last();
        assert forall|i: int| 0 <= i < f.len() && (#[trigger] g[i]) is Some implies name_set(g[i]->0)
            == claimed(rows, f[i]) by {
            assert(g[i] == found[i]);
        }
        lemma_all_match(rows, f, g);
        let last = found[files.len() - 1];
        if last is Some {
            lemma_only_in_itself(claimed(rows, files.last()));
            assert(remarked(Seq::empty(), "  (expected in "@, files.last()) =~= Seq::empty());
            assert(remarked(Seq::empty(), "  (in "@, files.last()) =~= Seq::empty());
        }
        assert(Seq::<Seq<char>>::empty() + Seq::<Seq<char>>::empty() =~= Seq::empty());
    }
}

/// Where the index refers to exactly the files that are there, and each file that could
/// be read holds exactly the tensors that the index assigns to it, the comparison
/// reports nothing.
pub proof fn law_matching_index_is_clean(
    rows: Seq<(Seq<char>, Seq<char>)>,
    actual: Seq<(Seq<char>, ())>,
    found: Seq<Option<Seq<Seq<char>>>>,
)
    requires
        referenced(rows) == actual,
        found.len() == files_compared(rows, actual).len(),
        forall|i: int|
            0 <= i < found.len() && (#[trigger] found[i]) is Some ==> name_set(found[i]->0)
                == claimed(rows, files_compared(rows, actual)[i]),
    ensures
        only_in(referenced(rows), actual).len() == 0,
        only_in(actual, referenced(rows)).len() == 0,
        stable_sort(
            absent(rows, files_compared(rows, actual), found),
            text_ascending(),
        ).len() == 0,
        stable_sort(
            unlisted(rows, files_compared(rows, actual), found),
            text_ascending(),
        ).len() == 0,
{
    lemma_only_in_itself(actual);
    lemma_all_match(rows, files_compared(rows, actual), found);
}

// ---------------------------------------------------------------------------
// What a report says

proof fn lemma_name_set(names: Seq<Seq<char>>, n: Seq<char>)
    ensures
        names_ascend(name_set(names)),
        has_row(name_set(names), n) <==> names.contains(n),
    decreases names.len(),
{
    if names.len() > 0 {
        let t = names.drop_last();
        let x = names[names.len() - 1];
        lemma_name_set(t, n);
        lemma_with_row(name_set(t), x, (), n);
        lemma_with_row_ascends(name_set(t), x, ());
        if t.contains(n) {
            let i = t.index_of(n);
            assert(names[i] == n);
        }
        if names.contains(n) && n != x {
            let i = names.index_of(n);
            assert(t[i] == n);
        }
    }
}

/// A row of the weight map assigns a tensor to a file.
pub open spec fn assigns(rows: Seq<(Seq<char>, Seq<char>)>, tensor: Seq<char>, file: Seq<char>) -> bool {
    exists|i: int| 0 <= i < rows.len() && #[trigger] rows[i] == (tensor, file)
}

/// A row of the weight map refers to a file.
pub open spec fn refers_to(rows: Seq<(Seq<char>, Seq<char>)>, file: Seq<char>) -> bool {
    exists|i: int| 0 <= i < rows.len() && (#[trigger] rows[i]).1 == file
}

proof fn lemma_claimed(rows: Seq<(Seq<char>, Seq<char>)>, file: Seq<char>, tensor: Seq<char>)
    ensures
        has_row(claimed(rows, file), tensor) <==> assigns(rows, tensor, file),
{
    let keep = assigned_to(file);
    let f = rows.filter(keep);
    lemma_name_set(row_names(f), tensor);
    if assigns(rows, tensor, file) {
        let i = choose|i: int| 0 <= i < rows.len() && #[trigger] rows[i] == (tensor, file);
        assert(keep(rows[i]));
        rows.lemma_filter_contains(keep, i);
        let k = f.index_of(rows[i]);
        assert(row_names(f)[k] == tensor);
    }
    if row_names(f).contains(tensor) {
        let k = row_names(f).index_of(tensor);
        assert(f[k].0 == tensor);
        rows.lemma_filter_pred(keep, k);
        assert(f.contains(f[k]));
        rows.lemma_filter_contains_rev(keep, f[k]);
        let i = rows.index_of(f[k]);
        assert(rows[i] == (tensor, file));
    }
}

proof fn lemma_referenced(rows: Seq<(Seq<char>, Seq<char>)>, file: Seq<char>)
    ensures
        has_row(referenced(rows), file) <==> refers_to(rows, file),
        names_ascend(referenced(rows)),
{
    lemma_name_set(row_files(rows), file);
    if refers_to(rows, file) {
        let i = choose|i: int| 0 <= i < rows.len() && (#[trigger] rows[i]).1 == file;
        assert(row_files(rows)[i] == file);
    }
    if row_files(rows).contains(file) {
        let i = row_files(rows).index_of(file);
        assert(rows[i].1 == file);
    }
}

proof fn lemma_names_kept<T>(rows: Seq<(Seq<char>, T)>, b: Seq<(Seq<char>, T)>, there: bool, n: Seq<char>)
    ensures
        row_names(rows.filter(row_in(b, there))).contains(n) <==> has_row(rows, n) && has_row(b, n)
            == there,
{
    let keep = row_in(b, there);
    let f = rows.filter(keep);
    if row_names(f).contains(n) {
        let k = row_names(f).index_of(n);
        assert(f[k].0 == n);
        rows.lemma_filter_pred(keep, k);
        assert(f.contains(f[k]));
        rows.lemma_filter_contains_rev(keep, f[k]);
        let i = rows.index_of(f[k]);
        assert(rows[i].0 == n);
    }
    if has_row(rows, n) && has_row(b, n) == there {
        let i = choose|i: int| 0 <= i < rows.len() && (#[trigger] rows[i]).0 == n;
        assert(keep(rows[i]));
        rows.lemma_filter_contains(keep, i);
        let k = f.index_of(rows[i]);
        assert(row_names(f)[k] == n);
    }
}

proof fn lemma_remarked(tensors: Seq<(Seq<char>, ())>, remark: Seq<char>, file: Seq<char>)
    ensures
        forall|n: Seq<char>|
            #[trigger] has_row(tensors, n) ==> remarked(tensors, remark, file).contains(
                n + remark + file + ")"@,
            ),
        forall|k: int|
            0 <= k < remarked(tensors, remark, file).len() ==> #[trigger] remarked(
                tensors,
                remark,
                file,
            )[k] == tensors[k].0 + remark + file + ")"@,
{
    let r = remarked(tensors, remark, file);
    assert forall|n: Seq<char>| #[trigger] has_row(tensors, n) implies r.contains(
        n + remark + file + ")"@,
    ) by {
        let i = choose|i: int| 0 <= i < tensors.len() && (#[trigger] tensors[i]).0 == n;
        assert(r[i] == n + remark + file + ")"@);
    }
}

proof fn lemma_only_names(a: Seq<(Seq<char>, ())>, b: Seq<(Seq<char>, ())>, n: Seq<char>)
    ensures
        has_row(only_in(a, b), n) <==> has_row(a, n) && !has_row(b, n),
{
    lemma_names_kept(a, b, false, n);
    let f = only_in(a, b);
    if has_row(f, n) {
        let i = choose|i: int| 0 <= i < f.len() && (#[trigger] f[i]).0 == n;
        assert(row_names(f)[i] == n);
    }
    if row_names(f).contains(n) {
        let i = row_names(f).index_of(n);
        assert(f[i].0 == n);
    }
}

/// A compared file lacks a tensor that is assigned to it.
pub open spec fn lacks(
    rows: Seq<(Seq<char>, Seq<char>)>,
    files: Seq<Seq<char>>,
    found: Seq<Option<Seq<Seq<char>>>>,
    k: int,
    n: Seq<char>,
) -> bool {
    0 <= k < files.len() && found[k] is Some && assigns(rows, n, files[k]) && !found[k]->0.contains(
        n,
    )
}

spec fn is_lack(
    rows: Seq<(Seq<char>, Seq<char>)>,
    files: Seq<Seq<char>>,
    found: Seq<Option<Seq<Seq<char>>>>,
    line: Seq<char>,
) -> bool {
    exists|k: int, n: Seq<char>| #[trigger]
        lacks(rows, files, found, k, n) && line == n + "  (expected in "@ + files[k] + ")"@
}

/// A compared file holds a tensor that is not assigned to it.
pub open spec fn exceeds(
    rows: Seq<(Seq<char>, Seq<char>)>,
    files: Seq<Seq<char>>,
    found: Seq<Option<Seq<Seq<char>>>>,
    k: int,
    n: Seq<char>,
) -> bool {
    0 <= k < files.len() && found[k] is Some && !assigns(rows, n, files[k]) && found[k]->0.contains(
        n,
    )
}

spec fn is_excess(
    rows: Seq<(Seq<char>, Seq<char>)>,
    files: Seq<Seq<char>>,
    found: Seq<Option<Seq<Seq<char>>>>,
    line: Seq<char>,
) -> bool {
    exists|k: int, n: Seq<char>| #[trigger]
        exceeds(rows, files, found, k, n) && line == n + "  (in "@ + files[k] + ")"@
}

proof fn lemma_absent(
    rows: Seq<(Seq<char>, Seq<char>)>,
    files: Seq<Seq<char>>,
    found: Seq<Option<Seq<Seq<char>>>>,
)
    requires
        found.len() == files.len(),
    ensures
        forall|k: int, n: Seq<char>|
            #![trigger found[k], assigns(rows, n, files[k])]
            0 <= k < files.len() && found[k] is Some && assigns(rows, n, files[k])
                && !found[k]->0.contains(n) ==> absent(rows, files, found).contains(
                n + "  (expected in "@ + files[k] + ")"@,
            ),
        forall|i: int|
            0 <= i < absent(rows, files, found).len() ==> is_lack(
                rows,
                files,
                found,
                #[trigger] absent(rows, files, found)[i],
            ),
    decreases files.len(),
{
    if files.len() > 0 {
        let (f, g) = (files.drop_last(), found.drop_last());
        let last = files.len() - 1;
        lemma_absent(rows, f, g);
        let all = absent(rows, files, found);
        let had = absent(rows, f, g);
        assert(files.last() == files[last] && found.last() == found[last]);
        let more = match found[last] {
            Some(names) => remarked(
                only_in(claimed(rows, files[last]), name_set(names)),
                "  (expected in "@,
                files[last],
            ),
            None => Seq::empty(),
        };
        assert(all == had + more);
        assert forall|k: int, n: Seq<char>|
            #![trigger found[k], assigns(rows, n, files[k])]
            0 <= k < files.len() && found[k] is Some && assigns(rows, n, files[k])
                && !found[k]->0.contains(n) implies all.contains(
            n + "  (expected in "@ + files[k] + ")"@,
        ) by {
            let line = n + "  (expected in "@ + files[k] + ")"@;
            if k < last {
                assert(f[k] == files[k] && g[k] == found[k]);
                assert(had.contains(line));
                let i = had.index_of(line);
                assert(all[i] == line);
            } else {
                let only = only_in(claimed(rows, files[last]), name_set(found[last]->0));
                lemma_claimed(rows, files[last], n);
                lemma_name_set(found[last]->0, n);
                lemma_only_names(claimed(rows, files[last]), name_set(found[last]->0), n);
                lemma_remarked(only, "  (expected in "@, files[last]);
                assert(has_row(only, n));
                let i = more.index_of(line);
                assert(all[had.len() + i] == line);
            }
        }
        assert forall|i: int| 0 <= i < all.len() implies is_lack(
            rows,
            files,
            found,
            #[trigger] all[i],
        ) by {
            if i < had.len() {
                assert(all[i] == had[i]);
                let (k, n) = choose|k: int, n: Seq<char>| #[trigger]
                    lacks(rows, f, g, k, n) && had[i] == n + "  (expected in "@ + f[k] + ")"@;
                assert(f[k] == files[k] && g[k] == found[k]);
                assert(lacks(rows, files, found, k, n));
            } else {
                let only = only_in(claimed(rows, files[last]), name_set(found[last]->0));
                lemma_remarked(only, "  (expected in "@, files[last]);
                let n = only[i - had.len()].0;
                assert(more[i - had.len()] == n + "  (expected in "@ + files[last] + ")"@);
                assert(has_row(only, n));
                lemma_only_names(claimed(rows, files[last]), name_set(found[last]->0), n);
                lemma_claimed(rows, files[last], n);
                lemma_name_set(found[last]->0, n);
                assert(lacks(rows, files, found, last, n));
            }
        }
    }
}

proof fn lemma_unlisted(
    rows: Seq<(Seq<char>, Seq<char>)>,
    files: Seq<Seq<char>>,
    found: Seq<Option<Seq<Seq<char>>>>,
)
    requires
        found.len() == files.len(),
    ensures
        forall|k: int, n: Seq<char>|
            #![trigger found[k], assigns(rows, n, files[k])]
            0 <= k < files.len() && found[k] is Some && !assigns(rows, n, files[k])
                && found[k]->0.contains(n) ==> unlisted(rows, files, found).contains(
                n + "  (in "@ + files[k] + ")"@,
            ),
        forall|i: int|
            0 <= i < unlisted(rows, files, found).len() ==> is_excess(
                rows,
                files,
                found,
                #[trigger] unlisted(rows, files, found)[i],
            ),
    decreases files.len(),
{
    if files.len() > 0 {
        let (f, g) = (files.drop_last(), found.drop_last());
        let last = files.len() - 1;
        lemma_unlisted(rows, f, g);
        let all = unlisted(rows, files, found);
        let had = unlisted(rows, f, g);
        assert(files.last() == files[last] && found.last() == found[last]);
        let more = match found[last] {
            Some(names) => remarked(
                only_in(name_set(names), claimed(rows, files[last])),
                "  (in "@,
                files[last],
            ),
            None => Seq::empty(),
        };
        assert(all == had + more);
        assert forall|k: int, n: Seq<char>|
            #![trigger found[k], assigns(rows, n, files[k])]
            0 <= k < files.len() && found[k] is Some && !assigns(rows, n, files[k])
                && found[k]->0.contains(n) implies all.contains(n + "  (in "@ + files[k] + ")"@) by {
            let line = n + "  (in "@ + files[k] + ")"@;
            if k < last {
                assert(f[k] == files[k] && g[k] == found[k]);
                assert(had.contains(line));
                let i = had.index_of(line);
                assert(all[i] == line);
            } else {
                let only = only_in(name_set(found[last]->0), claimed(rows, files[last]));
                lemma_claimed(rows, files[last], n);
                lemma_name_set(found[last]->0, n);
                lemma_only_names(name_set(found[last]->0), claimed(rows, files[last]), n);
                lemma_remarked(only, "  (in "@, files[last]);
                assert(has_row(only, n));
                let i = more.index_of(line);
                assert(all[had.len() + i] == line);
            }
        }
        assert forall|i: int| 0 <= i < all.len() implies is_excess(
            rows,
            files,
            found,
            #[trigger] all[i],
        ) by {
            if i < had.len() {
                assert(all[i] == had[i]);
                let (k, n) = choose|k: int, n: Seq<char>| #[trigger]
                    exceeds(rows, f, g, k, n) && had[i] == n + "  (in "@ + f[k] + ")"@;
                assert(f[k] == files[k] && g[k] == found[k]);
                assert(exceeds(rows, files, found, k, n));
            } else {
                let only = only_in(name_set(found[last]->0), claimed(rows, files[last]));
                lemma_remarked(only, "  (in "@, files[last]);
                let n = only[i - had.len()].0;
                assert(more[i - had.len()] == n + "  (in "@ + files[last] + ")"@);
                assert(has_row(only, n));
                lemma_only_names(name_set(found[last]->0), claimed(rows, files[last]), n);
                lemma_claimed(rows, files[last], n);
                lemma_name_set(found[last]->0, n);
                assert(exceeds(rows, files, found, last, n));
            }
        }
    }
}

/// A report's missing files are exactly those that the index refers to and that are not
/// there, its extra files exactly those that are there and that the index does not refer
/// to; the files whose tensors are compared are those referred to and there.
pub proof fn law_report_names_the_files(
    rows: Seq<(Seq<char>, Seq<char>)>,
    actual: Seq<(Seq<char>, ())>,
    file: Seq<char>,
)
    ensures
        row_names(only_in(referenced(rows), actual)).contains(file) <==> refers_to(rows, file)
            && !has_row(actual, file),
        row_names(only_in(actual, referenced(rows))).contains(file) <==> has_row(actual, file)
            && !refers_to(rows, file),
        files_compared(rows, actual).contains(file) <==> refers_to(rows, file) && has_row(
            actual,
            file,
        ),
{
    lemma_referenced(rows, file);
    lemma_names_kept(referenced(rows), actual, false, file);
    lemma_names_kept(actual, referenced(rows), false, file);
    lemma_names_kept(referenced(rows), actual, true, file);
}

/// A tensor that the index assigns to a compared file whose header could be read is
/// reported as missing wherever the file does not hold it, and nothing else is: there is
/// no such report exactly where every such file holds every tensor assigned to it.
pub proof fn law_report_names_missing_tensors(
    rows: Seq<(Seq<char>, Seq<char>)>,
    actual: Seq<(Seq<char>, ())>,
    found: Seq<Option<Seq<Seq<char>>>>,
    missing: Seq<Seq<char>>,
)
    requires
        found.len() == files_compared(rows, actual).len(),
        missing == stable_sort(
            absent(rows, files_compared(rows, actual), found),
            text_ascending(),
        ),
    ensures
        ({
            let files = files_compared(rows, actual);
            &&& forall|k: int, i: int|
                #![trigger found[k], rows[i]]
                0 <= k < files.len() && 0 <= i < rows.len() && found[k] is Some && rows[i].1
                    == files[k] && !found[k]->0.contains(rows[i].0) ==> missing.contains(
                    rows[i].0 + "  (expected in "@ + rows[i].1 + ")"@,
                )
            &&& forall|m: int|
                0 <= m < missing.len() ==> exists|k: int, n: Seq<char>|
                    lacks(rows, files, found, k, n) && #[trigger] missing[m] == #[trigger] (n
                        + "  (expected in "@ + files[k] + ")"@)
            &&& missing.len() == 0 <==> forall|k: int, i: int|
                #![trigger found[k], rows[i]]
                0 <= k < files.len() && 0 <= i < rows.len() && found[k] is Some && rows[i].1
                    == files[k] ==> found[k]->0.contains(rows[i].0)
        }),
{
    let files = files_compared(rows, actual);
    let all = absent(rows, files, found);
    lemma_absent(rows, files, found);
    law_sorted_strings(all);
    assert forall|k: int, i: int|
        #![trigger found[k], rows[i]]
        0 <= k < files.len() && 0 <= i < rows.len() && found[k] is Some && rows[i].1 == files[k]
            && !found[k]->0.contains(rows[i].0) implies missing.contains(
        rows[i].0 + "  (expected in "@ + rows[i].1 + ")"@,
    ) by {
        assert(rows[i] == (rows[i].0, files[k]));
        assert(assigns(rows, rows[i].0, files[k]));
        assert(all.contains(rows[i].0 + "  (expected in "@ + files[k] + ")"@));
    }
    assert forall|m: int| 0 <= m < missing.len() implies exists|k: int, n: Seq<char>|
        lacks(rows, files, found, k, n) && #[trigger] missing[m] == #[trigger] (n
            + "  (expected in "@ + files[k] + ")"@) by {
        assert(missing.contains(missing[m]));
        assert(all.contains(missing[m]));
        let j = all.index_of(missing[m]);
        assert(is_lack(rows, files, found, all[j]));
        let (k, n) = choose|k: int, n: Seq<char>| #[trigger]
            lacks(rows, files, found, k, n) && all[j] == n + "  (expected in "@ + files[k] + ")"@;
        assert(missing[m] == n + "  (expected in "@ + files[k] + ")"@);
    }
    if missing.len() == 0 {
        assert forall|k: int, i: int|
            #![trigger found[k], rows[i]]
            0 <= k < files.len() && 0 <= i < rows.len() && found[k] is Some && rows[i].1
                == files[k] implies found[k]->0.contains(rows[i].0) by {
            if !found[k]->0.contains(rows[i].0) {
                assert(missing.contains(rows[i].0 + "  (expected in "@ + rows[i].1 + ")"@));
            }
        }
    } else {
        let line = missing[0];
        let (k, n) = choose|k: int, n: Seq<char>|
            lacks(rows, files, found, k, n) && line == #[trigger] (n + "  (expected in "@ + files[k]
                + ")"@);
        assert(lacks(rows, files, found, k, n));
        let i = choose|i: int| 0 <= i < rows.len() && #[trigger] rows[i] == (n, files[k]);
        assert(rows[i].1 == files[k] && !found[k]->0.contains(rows[i].0));
    }
}

/// A tensor that a compared file holds is reported as extra wherever the index does not
/// assign it to that file, and nothing else is.
pub proof fn law_report_names_extra_tensors(
    rows: Seq<(Seq<char>, Seq<char>)>,
    actual: Seq<(Seq<char>, ())>,
    found: Seq<Option<Seq<Seq<char>>>>,
    extra: Seq<Seq<char>>,
)
    requires
        found.len() == files_compared(rows, actual).len(),
        extra == stable_sort(
            unlisted(rows, files_compared(rows, actual), found),
            text_ascending(),
        ),
    ensures
        ({
            let files = files_compared(rows, actual);
            &&& forall|k: int, n: Seq<char>|
                #![trigger found[k], assigns(rows, n, files[k])]
                0 <= k < files.len() && found[k] is Some && found[k]->0.contains(n) && !assigns(
                    rows,
                    n,
                    files[k],
                ) ==> extra.contains(n + "  (in "@ + files[k] + ")"@)
            &&& forall|m: int|
                0 <= m < extra.len() ==> exists|k: int, n: Seq<char>|
                    exceeds(rows, files, found, k, n) && #[trigger] extra[m] == #[trigger] (n
                        + "  (in "@ + files[k] + ")"@)
        }),
{
    let files = files_compared(rows, actual);
    let all = unlisted(rows, files, found);
    lemma_unlisted(rows, files, found);
    law_sorted_strings(all);
    assert forall|m: int| 0 <= m < extra.len() implies exists|k: int, n: Seq<char>|
        exceeds(rows, files, found, k, n) && #[trigger] extra[m] == #[trigger] (n + "  (in "@
            + files[k] + ")"@) by {
        assert(extra.contains(extra[m]));
        assert(all.contains(extra[m]));
        let j = all.index_of(extra[m]);
        assert(is_excess(rows, files, found, all[j]));
        let (k, n) = choose|k: int, n: Seq<char>| #[trigger]
            exceeds(rows, files, found, k, n) && all[j] == n + "  (in "@ + files[k] + ")"@;
        assert(extra[m] == n + "  (in "@ + files[k] + ")"@);
    }
}

/// A report has issues exactly where it names a file or a tensor.
pub proof fn law_issues_are_what_is_named(r: HealthReport)
    ensures
        r.issues() <==> r.missing_files@.len() > 0 || r.extra_files@.len() > 0
            || r.missing_tensors@.len() > 0 || r.extra_tensors@.len() > 0,
{
}

/// The weight map of an index has a row for each entry under `weight_map` whose value is a
/// text: the tensor's name and the name of its file. No other row is there.
pub proof fn law_weight_map_is_read_whole(
    entries: Seq<(Seq<char>, JsonModel)>,
    map_text: Seq<char>,
    members: Seq<(Seq<char>, JsonModel)>,
    text: Seq<char>,
    at: int,
)
    requires
        only_entry(members, "weight_map"@, at),
        members[at].1 == JsonModel::Object(entries, map_text),
        forall|i: int, j: int|
            0 <= i < j < entries.len() ==> (#[trigger] entries[i]).0 != (#[trigger] entries[j]).0,
    ensures
        names_ascend(weight_rows(JsonModel::Object(members, text))),
        forall|i: int|
            0 <= i < entries.len() && (#[trigger] entries[i]).1 is Text ==> weight_rows(
                JsonModel::Object(members, text),
            ).contains((entries[i].0, entries[i].1->Text_0)),
        forall|k: int|
            0 <= k < weight_rows(JsonModel::Object(members, text)).len() ==> stands_for_entry(
                entries,
                #[trigger] weight_rows(JsonModel::Object(members, text))[k],
            ),
{
    law_members_are_found(members, text, "weight_map"@);
    assert(members[at].0 == "weight_map"@);
    lemma_map_rows(entries);
}

/// A row is that of an entry whose value is a text.
pub open spec fn stands_for_entry(
    entries: Seq<(Seq<char>, JsonModel)>,
    row: (Seq<char>, Seq<char>),
) -> bool {
    exists|i: int|
        0 <= i < entries.len() && (#[trigger] entries[i]).0 == row.0 && entries[i].1
            == JsonModel::Text(row.1)
}

proof fn lemma_map_rows(entries: Seq<(Seq<char>, JsonModel)>)
    requires
        forall|i: int, j: int|
            0 <= i < j < entries.len() ==> (#[trigger] entries[i]).0 != (#[trigger] entries[j]).0,
    ensures
        names_ascend(map_rows(entries)),
        forall|i: int|
            0 <= i < entries.len() && (#[trigger] entries[i]).1 is Text ==> map_rows(
                entries,
            ).contains((entries[i].0, entries[i].1->Text_0)),
        forall|k: int|
            0 <= k < map_rows(entries).len() ==> stands_for_entry(
                entries,
                #[trigger] map_rows(entries)[k],
            ),
    decreases entries.len(),
{
    if entries.len() > 0 {
        let t = entries.drop_last();
        let n = entries.len() - 1;
        assert forall|i: int, j: int| 0 <= i < j < t.len() implies (#[trigger] t[i]).0 != (
        #[trigger] t[j]).0 by {
            assert(t[i] == entries[i] && t[j] == entries[j]);
        }
        lemma_map_rows(t);
        let had = map_rows(t);
        let all = map_rows(entries);
        let key = entries[n].0;
        if entries[n].1 is Text {
            let file = entries[n].1->Text_0;
            lemma_with_row_ascends(had, key, file);
            lemma_with_row(had, key, file, key);
            assert forall|i: int| 0 <= i < entries.len() && (#[trigger] entries[i]).1 is Text implies
                all.contains((entries[i].0, entries[i].1->Text_0)) by {
                let name = entries[i].0;
                if i < n {
                    assert(t[i] == entries[i]);
                    assert(entries[i].0 != entries[n].0);
                    lemma_with_row(had, key, file, name);
                    let h = had.index_of((name, entries[i].1->Text_0));
                    lemma_unique(had, name, h);
                }
                let k = choose|k: int| 0 <= k < all.len() && (#[trigger] all[k]).0 == name;
                lemma_unique(all, name, k);
                assert(all[k] == (name, entries[i].1->Text_0));
            }
            assert forall|k: int| 0 <= k < all.len() implies stands_for_entry(
                entries,
                #[trigger] all[k],
            ) by {
                let name = all[k].0;
                lemma_unique(all, name, k);
                if name == key {
                    assert(entries[n].0 == all[k].0 && entries[n].1 == JsonModel::Text(all[k].1));
                } else {
                    lemma_with_row(had, key, file, name);
                    let h = choose|h: int| 0 <= h < had.len() && (#[trigger] had[h]).0 == name;
                    lemma_unique(had, name, h);
                    assert(stands_for_entry(t, had[h]));
                    let i = choose|i: int|
                        0 <= i < t.len() && (#[trigger] t[i]).0 == had[h].0 && t[i].1
                            == JsonModel::Text(had[h].1);
                    assert(t[i] == entries[i]);
                }
            }
        } else {
            assert forall|i: int| 0 <= i < entries.len() && (#[trigger] entries[i]).1 is Text implies
                all.contains((entries[i].0, entries[i].1->Text_0)) by {
                assert(t[i] == entries[i]);
            }
            assert forall|k: int| 0 <= k < all.len() implies stands_for_entry(
                entries,
                #[trigger] all[k],
            ) by {
                assert(stands_for_entry(t, had[k]));
                let i = choose|i: int|
                    0 <= i < t.len() && (#[trigger] t[i]).0 == had[k].0 && t[i].1 == JsonModel::Text(
                        had[k].1,
                    );
                assert(t[i] == entries[i]);
            }
        }
    }
}

} // verus!
