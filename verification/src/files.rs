//! Which files make up a checkpoint.
use vstd::prelude::*;

use crate::commands::is_hdf5;
use crate::health::{parse_weight_map, row_files, weight_rows, FileName};
use crate::inputs::begins_with;
use crate::json::json_value;
use crate::namemap::NameMap;
use crate::order::{compare_chars, lemma_lex_total, lemma_order, lemma_rank_order, lemma_stable_sort};
use crate::order::{lemma_stable_sort_contains, lemma_stable_sort_map, lex, rank_order, sort_ranked};
use crate::order::{sorted, stable_sort, text_order, total_order, total_preorder, Ranked, Rel};
use crate::paths::{components, components_of, extension, has_extension, joined_path};
use crate::paths::{path_extension, path_join};
use crate::schema::{distinct, distinct_strings, law_distinct_strings};
use crate::text::{add_line, chars_of, decimal, decimal_string, matches_at, same, texts};

verus! {

// ---------------------------------------------------------------------------
// Single paths

/// What is found at a path.
#[derive(Clone, Copy, Debug, PartialEq, Eq, Structural)]
pub enum Seen {
    Missing,
    File,
    Directory,
    /// Something else.
    Neither,
}

/// What is done with a path.
#[derive(Debug)]
pub enum PathAction {
    /// Take the file.
    Take,
    /// Look for files in the directory.
    Scan,
    /// Say why it is left out.
    Warn(String),
    /// Leave it out.
    Ignore,
}

/// The mathematical content of a [`PathAction`].
pub enum PathActionModel {
    Take,
    Scan,
    Warn(Seq<char>),
    Ignore,
}

impl DeepView for PathAction {
    type V = PathActionModel;

    open spec fn deep_view(&self) -> PathActionModel {
        match *self {
            PathAction::Take => PathActionModel::Take,
            PathAction::Scan => PathActionModel::Scan,
            PathAction::Warn(s) => PathActionModel::Warn(s@),
            PathAction::Ignore => PathActionModel::Ignore,
        }
    }
}

/// The extensions of the files that can be read.
pub open spec fn is_readable(ext: Option<Seq<char>>) -> bool {
    ext == Some("safetensors"@) || ext == Some("gguf"@) || ext == Some("h5"@) || ext == Some("hdf5"@)
        || ext == Some("npy"@) || ext == Some("npz"@)
}

/// Whether a path has the extension of a file that can be read.
pub fn readable(path: &str) -> (b: bool)
    ensures
        b == is_readable(path_extension(path@)),
{
    match extension(path) {
        Some(e) => same(e.as_str(), "safetensors") || same(e.as_str(), "gguf") || same(
            e.as_str(),
            "h5",
        ) || same(e.as_str(), "hdf5") || same(e.as_str(), "npy") || same(e.as_str(), "npz"),
        None => false,
    }
}

/// What is done with a path, by what is found there.
pub open spec fn action_for(path: Seq<char>, seen: Seen) -> PathActionModel {
    match seen {
        Seen::Missing => PathActionModel::Warn("Warning: Path does not exist: "@ + path),
        Seen::File => if is_readable(path_extension(path)) {
            PathActionModel::Take
        } else {
            PathActionModel::Warn("Warning: Skipping unsupported file: "@ + path)
        },
        Seen::Directory => PathActionModel::Scan,
        Seen::Neither => PathActionModel::Ignore,
    }
}

/// Decide what is done with a path.
pub fn path_action(path: &str, seen: Seen) -> (r: PathAction)
    ensures
        r.deep_view() == action_for(path@, seen),
{
    match seen {
        Seen::Missing => PathAction::Warn("Warning: Path does not exist: ".to_owned().concat(path)),
        Seen::File => if readable(path) {
            PathAction::Take
        } else {
            PathAction::Warn("Warning: Skipping unsupported file: ".to_owned().concat(path))
        },
        Seen::Directory => PathAction::Scan,
        Seen::Neither => PathAction::Ignore,
    }
}

/// What is said of an `s3://` address, which cannot be read from here.
pub fn uri_warning(raw: &str) -> (r: Option<String>)
    ensures
        match r {
            Some(s) => begins_with(raw@, "s3://"@) && s@ == "Warning: "@ + raw@
                + ": reading an s3:// checkpoint needs --ssh-read <[user@]host>"@,
            None => !begins_with(raw@, "s3://"@),
        },
{
    let v = chars_of(raw);
    let p = chars_of("s3://");
    if matches_at(&v, &p, 0) {
        Some(
            "Warning: ".to_owned().concat(raw).concat(
                ": reading an s3:// checkpoint needs --ssh-read <[user@]host>",
            ),
        )
    } else {
        None
    }
}

// ---------------------------------------------------------------------------
// Directories

/// The patterns for the files of a directory, one for each extension. HDF5 files are
/// looked for only where they can be read.
pub open spec fn patterns_for(dir: Seq<char>, recursive: bool, hdf5: bool) -> Seq<Seq<char>> {
    let lead = dir + "/"@ + (if recursive {
        "**/"@
    } else {
        ""@
    }) + "*."@;
    if hdf5 {
        seq![
            lead + "safetensors"@,
            lead + "gguf"@,
            lead + "h5"@,
            lead + "hdf5"@,
            lead + "npy"@,
            lead + "npz"@,
        ]
    } else {
        seq![lead + "safetensors"@, lead + "gguf"@, lead + "npy"@, lead + "npz"@]
    }
}

/// The patterns for the files of a directory.
pub fn scan_patterns(dir: &str, recursive: bool, hdf5: bool) -> (r: Vec<String>)
    ensures
        texts(r@) == patterns_for(dir@, recursive, hdf5),
{
    let lead = dir.to_owned().concat("/").concat(
        if recursive {
            "**/"
        } else {
            ""
        },
    ).concat("*.");
    let mut r: Vec<String> = Vec::new();
    add_line(&mut r, lead.clone().concat("safetensors"));
    add_line(&mut r, lead.clone().concat("gguf"));
    if hdf5 {
        add_line(&mut r, lead.clone().concat("h5"));
        add_line(&mut r, lead.clone().concat("hdf5"));
    }
    add_line(&mut r, lead.clone().concat("npy"));
    add_line(&mut r, lead.clone().concat("npz"));
    proof {
        assert(texts(r@) =~= patterns_for(dir@, recursive, hdf5));
    }
    r
}

/// The files of an index whose weight map has these rows, each once, in order.
pub open spec fn files_in(rows: Seq<(Seq<char>, Seq<char>)>) -> Seq<Seq<char>> {
    distinct(row_files(rows))
}

fn map_files(map: &NameMap<FileName>) -> (r: Vec<String>)
    requires
        map.wf(),
    ensures
        texts(r@) == files_in(map.rows()),
{
    let ghost want = row_files(map.rows());
    let mut all: Vec<String> = Vec::new();
    let mut i: usize = 0;
    while i < map.len()
        invariant
            map.wf(),
            i <= map.rows().len(),
            want == row_files(map.rows()),
            texts(all@) =~= want.take(i as int),
        decreases map.rows().len() - i,
    {
        let f = map.value_at(i);
        proof {
            assert(want[i as int] == map.rows()[i as int].1);
        }
        add_line(&mut all, f.name.clone());
        i = i + 1;
    }
    proof {
        assert(texts(all@) =~= want);
    }
    distinct_strings(&all)
}

/// The files that an index names, each once, in order.
pub fn parse_safetensors_index(content: &str, path: &str) -> (r: Result<Vec<String>, String>)
    ensures
        match json_value(vstd::utf8::encode_utf8(content@)) {
            None => r is Err && r->Err_0@ == "Failed to parse index file: "@ + path@,
            Some(v) => r is Ok && texts(r->Ok_0@) == files_in(weight_rows(v)),
        },
{
    match parse_weight_map(content, path) {
        Ok(map) => Ok(map_files(&map)),
        Err(e) => Err(e),
    }
}

/// What an index gives: the files of it that are there, and what is said of the others.
#[derive(Debug)]
pub struct IndexFiles {
    pub found: Vec<String>,
    pub warnings: Vec<String>,
}

/// The files that are there, with their directory.
pub open spec fn present(dir: Seq<char>, files: Seq<Seq<char>>, there: Seq<bool>) -> Seq<Seq<char>>
    decreases files.len(),
{
    if files.len() == 0 {
        Seq::empty()
    } else if there[files.len() - 1] {
        present(dir, files.drop_last(), there).push(path_join(dir, files.last()))
    } else {
        present(dir, files.drop_last(), there)
    }
}

/// The files that are not there.
pub open spec fn lacking(files: Seq<Seq<char>>, there: Seq<bool>) -> Seq<Seq<char>>
    decreases files.len(),
{
    if files.len() == 0 {
        Seq::empty()
    } else if there[files.len() - 1] {
        lacking(files.drop_last(), there)
    } else {
        lacking(files.drop_last(), there).push(files.last())
    }
}

/// What is said of an index: that it names files that are not there, and that it names
/// none that is.
pub open spec fn index_warnings(
    dir: Seq<char>,
    index: Seq<char>,
    files: Seq<Seq<char>>,
    there: Seq<bool>,
) -> Seq<Seq<char>> {
    let gone = lacking(files, there);
    (if gone.len() > 0 {
        seq![
            "Warning: "@ + decimal(gone.len()) + " file(s) listed in "@ + index
                + " were not found on disk (e.g. "@ + gone[0] + ")."@,
        ]
    } else {
        seq![]
    }) + (if present(dir, files, there).len() == 0 {
        seq![
            "Warning: index file references no existing files (it may be stale); scanning "@ + dir
                + " directly instead."@,
        ]
    } else {
        seq![]
    })
}

/// Sort the files of an index into those that are there and those that are not.
pub fn index_files(dir: &str, index: &str, files: &Vec<String>, there: &Vec<bool>) -> (r: IndexFiles)
    requires
        there.len() == files.len(),
    ensures
        texts(r.found@) == present(dir@, texts(files@), there@),
        texts(r.warnings@) == index_warnings(dir@, index@, texts(files@), there@),
{
    let ghost all = texts(files@);
    let mut found: Vec<String> = Vec::new();
    let mut gone: Vec<String> = Vec::new();
    let mut i: usize = 0;
    proof {
        assert(texts(found@) =~= Seq::empty());
        assert(texts(gone@) =~= Seq::empty());
    }
    while i < files.len()
        invariant
            i <= files.len(),
            there.len() == files.len(),
            all == texts(files@),
            texts(found@) == present(dir@, all.take(i as int), there@),
            texts(gone@) == lacking(all.take(i as int), there@),
        decreases files.len() - i,
    {
        proof {
            assert(all.take(i + 1).drop_last() =~= all.take(i as int));
            assert(all.take(i + 1).last() == files@[i as int]@);
        }
        if there[i] {
            add_line(&mut found, joined_path(dir, files[i].as_str()));
        } else {
            add_line(&mut gone, files[i].clone());
        }
        i = i + 1;
    }
    proof {
        assert(all.take(i as int) =~= all);
    }
    let mut warnings: Vec<String> = Vec::new();
    if gone.len() > 0 {
        proof {
            assert(texts(gone@)[0] == gone@[0]@);
        }
        add_line(
            &mut warnings,
            "Warning: ".to_owned().concat(decimal_string(gone.len() as u128).as_str()).concat(
                " file(s) listed in ",
            ).concat(index).concat(" were not found on disk (e.g. ").concat(
                gone[0].as_str(),
            ).concat(")."),
        );
    }
    if found.len() == 0 {
        add_line(
            &mut warnings,
            "Warning: index file references no existing files (it may be stale); scanning ".to_owned().concat(
                dir,
            ).concat(" directly instead."),
        );
    }
    proof {
        assert(texts(found@).len() == found.len());
        assert(texts(gone@).len() == gone.len());
        assert(texts(warnings@) =~= index_warnings(dir@, index@, all, there@));
    }
    IndexFiles { found, warnings }
}

// ---------------------------------------------------------------------------
// The order of paths

/// The kind of a component: the root, `.`, `..`, and any other, in the order in which
/// they compare.
pub open spec fn component_kind(c: Seq<char>) -> int {
    if c == "/"@ {
        0
    } else if c == "."@ {
        1
    } else if c == ".."@ {
        2
    } else {
        3
    }
}

/// How two components compare.
pub open spec fn component_order() -> spec_fn(Seq<char>, Seq<char>) -> int {
    |a: Seq<char>, b: Seq<char>|
        if component_kind(a) < component_kind(b) {
            -1int
        } else if component_kind(a) > component_kind(b) {
            1int
        } else {
            text_order(a, b)
        }
}

pub proof fn lemma_component_order()
    ensures
        total_order(component_order()),
{
    let f = component_order();
    assert forall|x: Seq<char>, y: Seq<char>| #[trigger] f(x, y) == -1 || f(x, y) == 0 || f(x, y)
        == 1 by {
        lemma_order(x, y, y);
    }
    assert forall|x: Seq<char>, y: Seq<char>| #[trigger] f(x, y) == 0 <==> x == y by {
        lemma_order(x, y, y);
    }
    assert forall|x: Seq<char>, y: Seq<char>| #[trigger] f(x, y) == -f(y, x) by {
        lemma_order(x, y, y);
    }
    assert forall|x: Seq<char>, y: Seq<char>, z: Seq<char>| #[trigger]
        f(x, y) <= 0 && #[trigger] f(y, z) <= 0 implies f(x, z) <= 0 by {
        lemma_order(x, y, z);
    }
}

/// How two paths compare: component by component.
pub open spec fn path_order(a: Seq<char>, b: Seq<char>) -> int {
    lex(components_of(a), components_of(b), component_order())
}

/// Paths in ascending order.
pub open spec fn by_path() -> spec_fn(Seq<char>, Seq<char>) -> bool {
    |a: Seq<char>, b: Seq<char>| path_order(a, b) <= 0
}

/// A path with its components.
struct Located {
    parts: Vec<String>,
    path: String,
}

fn kind_of(c: &str) -> (k: u8)
    ensures
        k == component_kind(c@),
{
    if same(c, "/") {
        0
    } else if same(c, ".") {
        1
    } else if same(c, "..") {
        2
    } else {
        3
    }
}

fn compare_parts(a: &Vec<String>, b: &Vec<String>) -> (r: Rel)
    ensures
        r.sign() == lex(texts(a@), texts(b@), component_order()),
{
    let ghost (x, y) = (texts(a@), texts(b@));
    let mut i: usize = 0;
    proof {
        assert(x.skip(0) =~= x);
        assert(y.skip(0) =~= y);
    }
    while i < a.len() && i < b.len()
        invariant
            i <= a.len(),
            i <= b.len(),
            x == texts(a@),
            y == texts(b@),
            lex(x.skip(i as int), y.skip(i as int), component_order()) == lex(
                x,
                y,
                component_order(),
            ),
        decreases a.len() - i,
    {
        let ghost (p, q) = (a@[i as int]@, b@[i as int]@);
        proof {
            assert(x.skip(i as int)[0] == p);
            assert(y.skip(i as int)[0] == q);
            assert(x.skip(i as int).skip(1) =~= x.skip(i + 1));
            assert(y.skip(i as int).skip(1) =~= y.skip(i + 1));
            lemma_order(p, q, q);
        }
        let (j, k) = (kind_of(a[i].as_str()), kind_of(b[i].as_str()));
        if j < k {
            return Rel::Less;
        }
        if j > k {
            return Rel::Greater;
        }
        let c = compare_chars(&chars_of(a[i].as_str()), &chars_of(b[i].as_str()));
        if c != Rel::Same {
            return c;
        }
        i = i + 1;
    }
    if i < b.len() {
        Rel::Less
    } else if i < a.len() {
        Rel::Greater
    } else {
        Rel::Same
    }
}

impl Ranked for Located {
    closed spec fn ranks_before(self, other: Self) -> bool {
        lex(texts(self.parts@), texts(other.parts@), component_order()) <= 0
    }

    proof fn lemma_ranks() {
        lemma_component_order();
        assert forall|x: Self, y: Self| true implies #[trigger] x.ranks_before(y) || y.ranks_before(
            x,
        ) by {
            lemma_lex_total(
                texts(x.parts@),
                texts(y.parts@),
                texts(y.parts@),
                component_order(),
            );
        }
        assert forall|x: Self, y: Self, z: Self| #[trigger]
            x.ranks_before(y) && #[trigger] y.ranks_before(z) implies x.ranks_before(z) by {
            lemma_lex_total(
                texts(x.parts@),
                texts(y.parts@),
                texts(z.parts@),
                component_order(),
            );
        }
    }

    fn may_precede(&self, other: &Self) -> (b: bool) {
        proof {
            lemma_component_order();
            lemma_lex_total(
                texts(self.parts@),
                texts(other.parts@),
                texts(other.parts@),
                component_order(),
            );
        }
        compare_parts(&self.parts, &other.parts) != Rel::Greater
    }
}

/// A list of paths without those that name the same file as their predecessor.
pub open spec fn without_same(v: Seq<Seq<char>>) -> Seq<Seq<char>>
    decreases v.len(),
{
    if v.len() <= 1 {
        v
    } else if components_of(v[v.len() - 2]) == components_of(v.last()) {
        without_same(v.drop_last())
    } else {
        without_same(v.drop_last()).push(v.last())
    }
}

/// The files of a checkpoint, each once, in the order of their paths.
pub open spec fn in_path_order(files: Seq<Seq<char>>) -> Seq<Seq<char>> {
    without_same(stable_sort(files, by_path()))
}

/// Put the files of a checkpoint in order and leave out repeats: a file can be named by
/// an index and be found in its directory too.
pub fn order_files(files: &Vec<String>) -> (r: Vec<String>)
    ensures
        texts(r@) == in_path_order(texts(files@)),
{
    let ghost all = texts(files@);
    let mut keyed: Vec<Located> = Vec::new();
    let mut i: usize = 0;
    while i < files.len()
        invariant
            i <= files.len(),
            keyed.len() == i,
            forall|j: int|
                0 <= j < i ==> (#[trigger] keyed@[j]).path@ == files@[j]@ && texts(keyed@[j].parts@)
                    == components_of(files@[j]@),
        decreases files.len() - i,
    {
        let parts = components(files[i].as_str());
        keyed.push(Located { parts, path: files[i].clone() });
        i = i + 1;
    }
    let ghost before = keyed@;
    let ghost f = |k: Located| k.path@;
    let located = sort_ranked(keyed);
    proof {
        lemma_rank_order::<Located>();
        lemma_stable_sort_map(before, rank_order::<Located>(), f, by_path());
        lemma_stable_sort_contains(before, rank_order::<Located>());
        assert(before.map_values(f) =~= all);
    }
    let ghost ordered = stable_sort(all, by_path());
    proof {
        assert(located@.map_values(f) == ordered);
        assert forall|j: int| 0 <= j < located.len() implies texts((#[trigger] located@[j]).parts@)
            == components_of(ordered[j]) by {
            assert(located@.contains(located@[j]));
            assert(before.contains(located@[j]));
            let k = choose|k: int| 0 <= k < before.len() && before[k] == located@[j];
            assert(ordered[j] == f(located@[j]));
        }
    }
    let mut r: Vec<String> = Vec::new();
    let mut n: usize = 0;
    proof {
        assert(texts(r@) =~= Seq::empty());
    }
    while n < located.len()
        invariant
            n <= located.len(),
            f == (|k: Located| k.path@),
            located@.map_values(f) == ordered,
            located.len() == ordered.len(),
            forall|j: int|
                0 <= j < located.len() ==> texts((#[trigger] located@[j]).parts@) == components_of(
                    ordered[j],
                ),
            texts(r@) == without_same(ordered.take(n as int)),
        decreases located.len() - n,
    {
        proof {
            assert(ordered.take(n + 1).drop_last() =~= ordered.take(n as int));
            assert(ordered[n as int] == located@[n as int].path@);
            if n > 0 {
                assert(ordered.take(n + 1)[n - 1] == ordered[n - 1]);
                lemma_component_order();
                lemma_lex_total(
                    components_of(ordered[n - 1]),
                    components_of(ordered[n as int]),
                    components_of(ordered[n as int]),
                    component_order(),
                );
            } else {
                assert(ordered.take(1) =~= seq![ordered[0]]);
            }
        }
        let repeat = n > 0 && compare_parts(&located[n - 1].parts, &located[n].parts) == Rel::Same;
        if !repeat {
            let ghost had = texts(r@);
            add_line(&mut r, located[n].path.clone());
            proof {
                assert(texts(r@) =~= without_same(ordered.take(n + 1)));
            }
        }
        n = n + 1;
    }
    proof {
        assert(ordered.take(n as int) =~= ordered);
    }
    r
}

/// The paths of a list without repeats name all that the list names.
proof fn lemma_all_named(v: Seq<Seq<char>>, i: int)
    requires
        0 <= i < v.len(),
    ensures
        names_file(without_same(v), v[i]),
    decreases v.len(),
{
    let r = without_same(v);
    if v.len() == 1 {
        assert(r[0] == v[i]);
    } else {
        let t = v.drop_last();
        if i < v.len() - 1 {
            lemma_all_named(t, i);
            assert(t[i] == v[i]);
            let k = choose|k: int|
                0 <= k < without_same(t).len() && components_of(#[trigger] without_same(t)[k])
                    == components_of(v[i]);
            assert(r[k] == without_same(t)[k]);
        } else if components_of(v[v.len() - 2]) == components_of(v.last()) {
            lemma_all_named(t, v.len() - 2);
            assert(t[v.len() - 2] == v[v.len() - 2]);
        } else {
            assert(r[r.len() - 1] == v.last());
        }
    }
}

/// Whether a path in a list names the same file as a path.
pub open spec fn names_file(v: Seq<Seq<char>>, path: Seq<char>) -> bool {
    exists|k: int| 0 <= k < v.len() && components_of(#[trigger] v[k]) == components_of(path)
}

/// No file is lost when files are put in order: whether it was named by an index or found
/// in a directory, it is listed.
pub proof fn law_no_file_is_lost(files: Seq<Seq<char>>, i: int)
    requires
        0 <= i < files.len(),
    ensures
        names_file(in_path_order(files), files[i]),
{
    let ordered = stable_sort(files, by_path());
    lemma_by_path();
    lemma_stable_sort(files, by_path());
    assert(files.contains(files[i]));
    vstd::seq_lib::to_multiset_contains(files, files[i]);
    vstd::seq_lib::to_multiset_contains(ordered, files[i]);
    assert(ordered.contains(files[i]));
    let k = choose|k: int| 0 <= k < ordered.len() && ordered[k] == files[i];
    lemma_all_named(ordered, k);
}

proof fn lemma_by_path()
    ensures
        total_preorder(by_path()),
{
    let le = by_path();
    lemma_component_order();
    assert forall|x: Seq<char>, y: Seq<char>| true implies #[trigger] le(x, y) || le(y, x) by {
        lemma_lex_total(components_of(x), components_of(y), components_of(y), component_order());
    }
    assert forall|x: Seq<char>, y: Seq<char>, z: Seq<char>| #[trigger]
        le(x, y) && #[trigger] le(y, z) implies le(x, z) by {
        lemma_lex_total(components_of(x), components_of(y), components_of(z), component_order());
    }
}

/// The files stand in strictly ascending order, so none is listed twice.
pub proof fn law_files_ascend(files: Seq<Seq<char>>, i: int, j: int)
    requires
        0 <= i < j < in_path_order(files).len(),
    ensures
        path_order(in_path_order(files)[i], in_path_order(files)[j]) < 0,
{
    let ordered = stable_sort(files, by_path());
    lemma_by_path();
    lemma_stable_sort(files, by_path());
    lemma_strictly(ordered, i, j);
}

proof fn lemma_strictly(v: Seq<Seq<char>>, i: int, j: int)
    requires
        sorted(v, by_path()),
        0 <= i < j < without_same(v).len(),
    ensures
        path_order(without_same(v)[i], without_same(v)[j]) < 0,
        components_of(without_same(v).last()) == components_of(v.last()),
    decreases v.len(),
{
    let t = v.drop_last();
    let le = by_path();
    lemma_last_kept(v);
    assert forall|a: int, b: int| #![trigger t[a], t[b]] 0 <= a < b < t.len() implies le(t[a], t[b]) by {
        assert(le(v[a], v[b]));
    }
    if components_of(v[v.len() - 2]) == components_of(v.last()) {
        lemma_strictly(t, i, j);
    } else if j < without_same(t).len() {
        lemma_strictly(t, i, j);
    } else {
        let r = without_same(t);
        lemma_last_kept(t);
        let p = v[v.len() - 2];
        assert(t.last() == p);
        assert(le(p, v.last()));
        lemma_component_order();
        lemma_lex_total(components_of(p), components_of(v.last()), components_of(v.last()), component_order());
        if i < r.len() - 1 {
            lemma_strictly(t, i, r.len() - 1);
            let f = component_order();
            let (a, b, c) = (components_of(r[i]), components_of(p), components_of(v.last()));
            lemma_lex_total(a, b, c, f);
            lemma_lex_total(b, c, a, f);
            lemma_lex_total(c, a, b, f);
            lemma_lex_total(a, c, b, f);
        }
    }
}

proof fn lemma_last_kept(v: Seq<Seq<char>>)
    ensures
        v.len() > 0 ==> without_same(v).len() > 0 && components_of(without_same(v).last())
            == components_of(v.last()),
    decreases v.len(),
{
    if v.len() > 1 {
        lemma_last_kept(v.drop_last());
        assert(v.drop_last().last() == v[v.len() - 2]);
    }
}

// ---------------------------------------------------------------------------
// Builds without HDF5

/// The lines that name the HDF5 files among some.
pub open spec fn hdf5_lines(files: Seq<Seq<char>>) -> Seq<Seq<char>> {
    files.filter(|f: Seq<char>| is_hdf5(f)).map_values(|f: Seq<char>| "  "@ + f)
}

/// What a build without HDF5 says of the files that it cannot read; `None` where there
/// are none of them.
pub open spec fn hdf5_refused(files: Seq<Seq<char>>) -> Option<Seq<Seq<char>>> {
    if hdf5_lines(files).len() == 0 {
        None
    } else {
        Some(
            seq![
                "Error: this build of checkpoint-explorer was compiled without HDF5 support, so it cannot read:"@,
            ] + hdf5_lines(files) + seq![
                ""@,
                "Rebuild and reinstall with the `hdf5` feature, e.g.:"@,
                "  cargo install --path . --features hdf5"@,
            ],
        )
    }
}

/// Refuse the HDF5 files among some, in a build that cannot read them.
pub fn refuse_hdf5(files: &Vec<String>) -> (r: Option<Vec<String>>)
    ensures
        (match r {
            Some(v) => Some(texts(v@)),
            None => None,
        }) == hdf5_refused(texts(files@)),
{
    let ghost all = texts(files@);
    let ghost keep = |f: Seq<char>| is_hdf5(f);
    let ghost show = |f: Seq<char>| "  "@ + f;
    let ghost first = seq![
        "Error: this build of checkpoint-explorer was compiled without HDF5 support, so it cannot read:"@,
    ];
    let mut lines: Vec<String> = Vec::new();
    proof {
        assert(texts(lines@) =~= Seq::empty());
    }
    add_line(
        &mut lines,
        "Error: this build of checkpoint-explorer was compiled without HDF5 support, so it cannot read:".to_owned(),
    );
    let mut i: usize = 0;
    proof {
        all.take(0).lemma_filter_len(keep);
        assert(texts(lines@) =~= first + all.take(0).filter(keep).map_values(show));
    }
    while i < files.len()
        invariant
            i <= files.len(),
            all == texts(files@),
            keep == (|f: Seq<char>| is_hdf5(f)),
            show == (|f: Seq<char>| "  "@ + f),
            texts(lines@) == first + all.take(i as int).filter(keep).map_values(show),
        decreases files.len() - i,
    {
        proof {
            assert(all[i as int] == files@[i as int]@);
            assert(all.take(i + 1) =~= all.take(i as int).push(all[i as int]));
            all.take(i as int).lemma_filter_push(all[i as int], keep);
        }
        let f = files[i].as_str();
        let ghost kept = all.take(i as int).filter(keep);
        if has_extension(f, "h5") || has_extension(f, "hdf5") {
            add_line(&mut lines, "  ".to_owned().concat(f));
            proof {
                assert(kept.push(f@).map_values(show) =~= kept.map_values(show).push("  "@ + f@));
                assert(texts(lines@) =~= first + kept.push(f@).map_values(show));
            }
        }
        i = i + 1;
    }
    proof {
        assert(all.take(i as int) =~= all);
        assert(texts(lines@).len() == lines@.len());
    }
    if lines.len() == 1 {
        return None;
    }
    add_line(&mut lines, "".to_owned());
    add_line(&mut lines, "Rebuild and reinstall with the `hdf5` feature, e.g.:".to_owned());
    add_line(&mut lines, "  cargo install --path . --features hdf5".to_owned());
    proof {
        assert(texts(lines@) =~= hdf5_refused(all)->0);
    }
    Some(lines)
}

// ---------------------------------------------------------------------------
// The files of an index

/// A file of an index that is there is taken, under the index's directory; one that is not
/// is counted as lacking; each is one or the other.
pub proof fn law_index_files_are_there_or_lacking(
    dir: Seq<char>,
    files: Seq<Seq<char>>,
    there: Seq<bool>,
)
    requires
        files.len() == there.len(),
    ensures
        present(dir, files, there).len() + lacking(files, there).len() == files.len(),
        forall|i: int|
            0 <= i < files.len() && there[i] ==> present(dir, files, there).contains(
                path_join(dir, #[trigger] files[i]),
            ),
        forall|i: int|
            0 <= i < files.len() && !there[i] ==> lacking(files, there).contains(#[trigger] files[i]),
        lacking(files, there).len() == 0 <==> forall|i: int|
            0 <= i < files.len() ==> #[trigger] there[i],
    decreases files.len(),
{
    if files.len() > 0 {
        let (f, t) = (files.drop_last(), there.drop_last());
        let n = files.len() - 1;
        law_index_files_are_there_or_lacking(dir, f, t);
        lemma_one_less(dir, f, t, there);
        let (had, gone) = (present(dir, f, t), lacking(f, t));
        let (p, l) = (present(dir, files, there), lacking(files, there));
        assert forall|i: int| 0 <= i < files.len() && there[i] implies p.contains(
            path_join(dir, #[trigger] files[i]),
        ) by {
            if i < n {
                assert(f[i] == files[i]);
                assert(t[i]);
                let k = had.index_of(path_join(dir, f[i]));
                assert(p[k] == path_join(dir, files[i]));
            } else {
                assert(p.last() == path_join(dir, files[i]));
            }
        }
        assert forall|i: int| 0 <= i < files.len() && !there[i] implies l.contains(
            #[trigger] files[i],
        ) by {
            if i < n {
                assert(f[i] == files[i]);
                assert(!t[i]);
                let k = gone.index_of(f[i]);
                assert(l[k] == files[i]);
            } else {
                assert(l.last() == files[i]);
            }
        }
        if l.len() == 0 {
            assert(there[n]);
            assert forall|i: int| 0 <= i < files.len() implies #[trigger] there[i] by {
                if i < n {
                    assert(t[i]);
                }
            }
        }
        if forall|i: int| 0 <= i < files.len() ==> #[trigger] there[i] {
            assert forall|i: int| 0 <= i < f.len() implies #[trigger] t[i] by {
                assert(there[i]);
            }
        }
    }
}

/// Only the answers for the files at hand count.
proof fn lemma_one_less(dir: Seq<char>, f: Seq<Seq<char>>, t: Seq<bool>, there: Seq<bool>)
    requires
        f.len() <= t.len(),
        f.len() <= there.len(),
        forall|i: int| 0 <= i < f.len() ==> #[trigger] t[i] == there[i],
    ensures
        present(dir, f, t) == present(dir, f, there),
        lacking(f, t) == lacking(f, there),
    decreases f.len(),
{
    if f.len() > 0 {
        lemma_one_less(dir, f.drop_last(), t, there);
        assert(t[f.len() - 1] == there[f.len() - 1]);
    }
}

/// An index is warned of where one of its files is lacking, and where none is there; not
/// otherwise.
pub proof fn law_index_warnings(
    dir: Seq<char>,
    index: Seq<char>,
    files: Seq<Seq<char>>,
    there: Seq<bool>,
)
    requires
        files.len() == there.len(),
    ensures
        index_warnings(dir, index, files, there).len() == 0 <==> files.len() > 0 && forall|i: int|
            0 <= i < files.len() ==> #[trigger] there[i],
        files.len() > 0 && (forall|i: int| 0 <= i < files.len() ==> !#[trigger] there[i])
            ==> index_warnings(dir, index, files, there).len() == 2,
{
    law_index_files_are_there_or_lacking(dir, files, there);
    if files.len() > 0 && forall|i: int| 0 <= i < files.len() ==> !#[trigger] there[i] {
        lemma_none_there(dir, files, there);
        assert(!there[0]);
    }
}

proof fn lemma_none_there(dir: Seq<char>, files: Seq<Seq<char>>, there: Seq<bool>)
    requires
        files.len() <= there.len(),
        forall|i: int| 0 <= i < files.len() ==> !#[trigger] there[i],
    ensures
        present(dir, files, there).len() == 0,
    decreases files.len(),
{
    if files.len() > 0 {
        lemma_none_there(dir, files.drop_last(), there);
        assert(!there[files.len() - 1]);
    }
}

/// A directory is searched for the same endings that a single file is taken by: one pattern
/// each, HDF5's only where it can be read, below the directory where it is searched
/// recursively.
pub proof fn law_patterns_ask_for_readable_files(dir: Seq<char>, ext: Seq<char>, recursive: bool)
    ensures
        is_readable(Some(ext)) ==> patterns_for(dir, false, true).contains(dir + "/"@ + "*."@ + ext),
        is_readable(Some(ext)) ==> patterns_for(dir, true, true).contains(
            dir + "/"@ + "**/"@ + "*."@ + ext,
        ),
        patterns_for(dir, recursive, true).len() == 6,
        patterns_for(dir, recursive, false).len() == 4,
        is_readable(Some(ext)) && ext != "h5"@ && ext != "hdf5"@ ==> patterns_for(
            dir,
            false,
            false,
        ).contains(dir + "/"@ + "*."@ + ext),
        !is_readable(None),
{
    reveal_strlit("");
    let flat = patterns_for(dir, false, true);
    let deep = patterns_for(dir, true, true);
    let few = patterns_for(dir, false, false);
    assert(dir + "/"@ + ""@ + "*."@ =~= dir + "/"@ + "*."@);
    assert(flat[0] == dir + "/"@ + "*."@ + "safetensors"@);
    assert(flat[1] == dir + "/"@ + "*."@ + "gguf"@);
    assert(flat[2] == dir + "/"@ + "*."@ + "h5"@);
    assert(flat[3] == dir + "/"@ + "*."@ + "hdf5"@);
    assert(flat[4] == dir + "/"@ + "*."@ + "npy"@);
    assert(flat[5] == dir + "/"@ + "*."@ + "npz"@);
    assert(deep[0] == dir + "/"@ + "**/"@ + "*."@ + "safetensors"@);
    assert(deep[1] == dir + "/"@ + "**/"@ + "*."@ + "gguf"@);
    assert(deep[2] == dir + "/"@ + "**/"@ + "*."@ + "h5"@);
    assert(deep[3] == dir + "/"@ + "**/"@ + "*."@ + "hdf5"@);
    assert(deep[4] == dir + "/"@ + "**/"@ + "*."@ + "npy"@);
    assert(deep[5] == dir + "/"@ + "**/"@ + "*."@ + "npz"@);
    assert(few[0] == dir + "/"@ + "*."@ + "safetensors"@);
    assert(few[1] == dir + "/"@ + "*."@ + "gguf"@);
    assert(few[2] == dir + "/"@ + "*."@ + "npy"@);
    assert(few[3] == dir + "/"@ + "*."@ + "npz"@);
}

/// A file that is there is taken where it can be read, and warned of where it cannot; what is
/// missing is warned of; a directory is searched.
pub proof fn law_paths_are_taken_or_warned_of(path: Seq<char>)
    ensures
        is_readable(path_extension(path)) ==> action_for(path, Seen::File) == PathActionModel::Take,
        !is_readable(path_extension(path)) ==> action_for(path, Seen::File) is Warn,
        action_for(path, Seen::Missing) == PathActionModel::Warn(
            "Warning: Path does not exist: "@ + path,
        ),
        action_for(path, Seen::Directory) == PathActionModel::Scan,
        action_for(path, Seen::Neither) == PathActionModel::Ignore,
{
}

/// An index names each of its files once; HDF5 files are refused by name, and nothing else is.
pub proof fn law_index_names_files_once(
    rows: Seq<(Seq<char>, Seq<char>)>,
    file: Seq<char>,
    files: Seq<Seq<char>>,
)
    ensures
        files_in(rows).contains(file) <==> exists|i: int|
            0 <= i < rows.len() && (#[trigger] rows[i]).1 == file,
        hdf5_refused(files) is None <==> forall|i: int|
            0 <= i < files.len() ==> !is_hdf5(#[trigger] files[i]),
        forall|i: int|
            0 <= i < files.len() && is_hdf5(#[trigger] files[i]) ==> hdf5_refused(
                files,
            )->0.contains("  "@ + files[i]),
{
    broadcast use vstd::seq_lib::group_filter_ensures;

    let all = row_files(rows);
    law_distinct_strings(all);
    assert(files_in(rows).contains(file) <==> all.contains(file));
    if all.contains(file) {
        let k = all.index_of(file);
        assert(rows[k].1 == file);
    }
    if exists|i: int| 0 <= i < rows.len() && (#[trigger] rows[i]).1 == file {
        let i = choose|i: int| 0 <= i < rows.len() && (#[trigger] rows[i]).1 == file;
        assert(all[i] == file);
    }
    let keep = |f: Seq<char>| is_hdf5(f);
    let own = files.filter(keep);
    let lines = hdf5_lines(files);
    assert(lines.len() == own.len());
    if own.len() > 0 {
        files.lemma_filter_pred(keep, 0);
        assert(own.contains(own[0]));
        files.lemma_filter_contains_rev(keep, own[0]);
        let i = files.index_of(own[0]);
        assert(is_hdf5(files[i]));
    }
    assert forall|i: int| 0 <= i < files.len() && is_hdf5(#[trigger] files[i]) implies hdf5_refused(
        files,
    )->0.contains("  "@ + files[i]) && own.len() > 0 by {
        assert(keep(files[i]));
        files.lemma_filter_contains(keep, i);
        let k = own.index_of(files[i]);
        assert(lines[k] == "  "@ + files[i]);
        let shown = hdf5_refused(files)->0;
        assert(shown[k + 1] == lines[k]);
    }
}

} // verus!
