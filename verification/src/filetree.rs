//! The tree of files that the browser shows of a checkpoint's directory.
use vstd::prelude::*;

use crate::order::{lemma_lex_total, lemma_rank_order, lemma_sorted_position, lemma_stable_sort};
use crate::order::{lemma_stable_sort_contains, lemma_stable_sort_map, rank_order, sort_ranked};
use crate::order::{sorted_position, stable_sort, total_preorder};
use crate::text::{chars_of, lower_ascii, lower_string, same, substring};
use crate::tree::{after_last, deeper, item_order, key_order, lemma_item_order_total, natural_key};
use crate::tree::{natural_sort_key, Keyed};

verus! {

/// What a file is.
#[derive(Clone, Copy, Debug, PartialEq, Eq, Structural)]
pub enum FileKind {
    /// A checkpoint that can be opened.
    Checkpoint,
    Json,
    /// Other text.
    Text,
    /// Anything else.
    Other,
}

/// What stands behind the last `.` of a name, or the name.
pub open spec fn suffix(name: Seq<char>) -> Seq<char> {
    name.skip(after_last(name, '.'))
}

pub open spec fn is_checkpoint_suffix(s: Seq<char>) -> bool {
    s == "safetensors"@ || s == "gguf"@ || s == "npy"@ || s == "npz"@ || s == "h5"@ || s == "hdf5"@
}

pub open spec fn is_text_suffix(s: Seq<char>) -> bool {
    s == "txt"@ || s == "md"@ || s == "py"@ || s == "yaml"@ || s == "yml"@ || s == "toml"@ || s
        == "cfg"@ || s == "ini"@ || s == "csv"@ || s == "tsv"@ || s == "jsonl"@ || s == "text"@ || s
        == "log"@ || s == "sh"@ || s == "rs"@
}

/// Names without a suffix that are text by convention.
pub open spec fn is_text_name(s: Seq<char>) -> bool {
    s == "readme"@ || s == "license"@ || s == "licence"@ || s == "notice"@ || s == "authors"@ || s
        == "copying"@ || s == "changelog"@
}

impl FileKind {
    /// The kind of a file by its name, in which case does not matter.
    pub open spec fn of_name(name: Seq<char>) -> FileKind {
        let lower = lower_ascii(name);
        let ext = suffix(lower);
        if is_checkpoint_suffix(ext) {
            FileKind::Checkpoint
        } else if ext == "json"@ {
            FileKind::Json
        } else if is_text_suffix(ext) || is_text_name(lower) {
            FileKind::Text
        } else {
            FileKind::Other
        }
    }

    /// The kind of a file by its name.
    pub fn of(name: &str) -> (r: FileKind)
        ensures
            r == FileKind::of_name(name@),
    {
        let lower = lower_string(name);
        let v = chars_of(lower.as_str());
        let mut i: usize = v.len();
        proof {
            assert(v@.take(i as int) =~= v@);
        }
        while i > 0 && v[i - 1] != '.'
            invariant
                i <= v.len(),
                after_last(v@.take(i as int), '.') == after_last(v@, '.'),
            decreases i,
        {
            proof {
                assert(v@.take(i as int).drop_last() =~= v@.take(i - 1));
                assert(v@.take(i as int).last() == v@[i - 1]);
            }
            i = i - 1;
        }
        proof {
            if i > 0 {
                assert(v@.take(i as int).last() == v@[i - 1]);
            }
        }
        let ext = substring(&v, i, v.len());
        proof {
            assert(ext@ =~= suffix(lower@));
        }
        let e = ext.as_str();
        let n = lower.as_str();
        if same(e, "safetensors") || same(e, "gguf") || same(e, "npy") || same(e, "npz") || same(
            e,
            "h5",
        ) || same(e, "hdf5") {
            FileKind::Checkpoint
        } else if same(e, "json") {
            FileKind::Json
        } else if same(e, "txt") || same(e, "md") || same(e, "py") || same(e, "yaml") || same(
            e,
            "yml",
        ) || same(e, "toml") || same(e, "cfg") || same(e, "ini") || same(e, "csv") || same(e, "tsv")
            || same(e, "jsonl") || same(e, "text") || same(e, "log") || same(e, "sh") || same(
            e,
            "rs",
        ) {
            FileKind::Text
        } else if same(n, "readme") || same(n, "license") || same(n, "licence") || same(n, "notice")
            || same(n, "authors") || same(n, "copying") || same(n, "changelog") {
            FileKind::Text
        } else {
            FileKind::Other
        }
    }
}

// ---------------------------------------------------------------------------
// The tree

/// An entry of a directory as it is on disk.
#[derive(Debug)]
pub enum Entry {
    /// A directory that is no link.
    Folder { name: String, path: String, entries: Vec<Entry> },
    /// Anything else, with its length.
    Leaf { name: String, path: String, size: u64 },
}

/// The mathematical content of an [`Entry`].
pub enum EntryModel {
    Folder { name: Seq<char>, path: Seq<char>, entries: Seq<EntryModel> },
    Leaf { name: Seq<char>, path: Seq<char>, size: u64 },
}

/// A node of the file tree.
#[derive(Debug)]
pub enum FileNode {
    Dir {
        name: String,
        path: String,
        children: Vec<FileNode>,
        expanded: bool,
        /// The size of all files below, in bytes.
        size: u64,
        /// The number of files below.
        files: usize,
    },
    File { name: String, path: String, size: u64, kind: FileKind },
}

/// The mathematical content of a [`FileNode`].
pub enum FileModel {
    Dir {
        name: Seq<char>,
        path: Seq<char>,
        children: Seq<FileModel>,
        expanded: bool,
        size: u64,
        files: usize,
    },
    File { name: Seq<char>, path: Seq<char>, size: u64, kind: FileKind },
}

impl Entry {
    pub open spec fn model(self) -> EntryModel
        decreases self,
    {
        match self {
            Entry::Folder { name, path, entries } => EntryModel::Folder {
                name: name@,
                path: path@,
                entries: Seq::new(
                    entries@.len(),
                    |i: int|
                        if 0 <= i < entries@.len() {
                            entries@[i].model()
                        } else {
                            arbitrary()
                        },
                ),
            },
            Entry::Leaf { name, path, size } => EntryModel::Leaf { name: name@, path: path@, size },
        }
    }
}

impl FileNode {
    pub open spec fn model(self) -> FileModel
        decreases self,
    {
        match self {
            FileNode::Dir { name, path, children, expanded, size, files } => FileModel::Dir {
                name: name@,
                path: path@,
                children: Seq::new(
                    children@.len(),
                    |i: int|
                        if 0 <= i < children@.len() {
                            children@[i].model()
                        } else {
                            arbitrary()
                        },
                ),
                expanded,
                size,
                files,
            },
            FileNode::File { name, path, size, kind } => FileModel::File {
                name: name@,
                path: path@,
                size,
                kind,
            },
        }
    }
}

/// The models of some entries.
pub open spec fn listing(entries: Seq<Entry>) -> Seq<EntryModel> {
    entries.map_values(|e: Entry| e.model())
}

/// The models of some nodes.
pub open spec fn file_models(nodes: Seq<FileNode>) -> Seq<FileModel> {
    nodes.map_values(|n: FileNode| n.model())
}

proof fn lemma_entries(e: Entry)
    ensures
        e is Folder ==> e.model()->entries == listing(e->entries@),
{
    if e is Folder {
        assert(e.model()->entries =~= listing(e->entries@));
    }
}

proof fn lemma_files(n: FileNode)
    ensures
        n is Dir ==> n.model()->children == file_models(n->children@),
{
    if n is Dir {
        assert(n.model()->children =~= file_models(n->children@));
    }
}

impl EntryModel {
    pub open spec fn name(self) -> Seq<char> {
        match self {
            EntryModel::Folder { name, .. } => name,
            EntryModel::Leaf { name, .. } => name,
        }
    }

    /// Whether the name does not begin with a `.`.
    pub open spec fn listed(self) -> bool {
        self.name().len() == 0 || self.name()[0] != '.'
    }
}

impl FileModel {
    pub open spec fn name(self) -> Seq<char> {
        match self {
            FileModel::Dir { name, .. } => name,
            FileModel::File { name, .. } => name,
        }
    }
}

impl FileNode {
    /// The size of a file, or of all files below a directory, in bytes.
    pub fn size(&self) -> (r: u64)
        ensures
            r == match *self {
                FileNode::Dir { size, .. } => size,
                FileNode::File { size, .. } => size,
            },
    {
        match self {
            FileNode::Dir { size, .. } => *size,
            FileNode::File { size, .. } => *size,
        }
    }

    pub fn name(&self) -> (r: &str)
        ensures
            r@ == self.model().name(),
    {
        match self {
            FileNode::Dir { name, .. } => name.as_str(),
            FileNode::File { name, .. } => name.as_str(),
        }
    }
}

/// The order of files: the natural order of their names.
pub open spec fn by_file_name() -> spec_fn(FileModel, FileModel) -> bool {
    |a: FileModel, b: FileModel| key_order(natural_key(a.name()), natural_key(b.name())) <= 0
}

/// The bytes in the listed files, down to a depth.
pub open spec fn weight(entries: Seq<EntryModel>, depth: nat) -> nat
    decreases depth, entries.len(),
{
    if entries.len() == 0 {
        0
    } else {
        weight(entries.drop_last(), depth) + (if !entries.last().listed() {
            0
        } else {
            match entries.last() {
                EntryModel::Leaf { size, .. } => size as nat,
                EntryModel::Folder { entries: sub, .. } => if depth > 0 {
                    weight(sub, (depth - 1) as nat)
                } else {
                    0
                },
            }
        })
    }
}

/// The number of listed files, down to a depth.
pub open spec fn file_count(entries: Seq<EntryModel>, depth: nat) -> nat
    decreases depth, entries.len(),
{
    if entries.len() == 0 {
        0
    } else {
        file_count(entries.drop_last(), depth) + (if !entries.last().listed() {
            0
        } else {
            match entries.last() {
                EntryModel::Leaf { .. } => 1,
                EntryModel::Folder { entries: sub, .. } => if depth > 0 {
                    file_count(sub, (depth - 1) as nat)
                } else {
                    0
                },
            }
        })
    }
}

/// The listed files among some entries.
pub open spec fn leaves(entries: Seq<EntryModel>) -> Seq<FileModel>
    decreases entries.len(),
{
    if entries.len() == 0 {
        Seq::empty()
    } else {
        match entries.last() {
            EntryModel::Leaf { name, path, size } if entries.last().listed() => leaves(
                entries.drop_last(),
            ).push(FileModel::File { name, path, size, kind: FileKind::of_name(name) }),
            _ => leaves(entries.drop_last()),
        }
    }
}

/// The listed directories among some entries. Those at the last depth are left empty.
pub open spec fn folders(entries: Seq<EntryModel>, depth: nat) -> Seq<FileModel>
    decreases depth, entries.len(), 0nat,
{
    if entries.len() == 0 {
        Seq::empty()
    } else {
        match entries.last() {
            EntryModel::Folder { name, path, entries: sub } if entries.last().listed() => folders(
                entries.drop_last(),
                depth,
            ).push(
                if depth > 0 {
                    directory(name, path, sub, (depth - 1) as nat)
                } else {
                    FileModel::Dir {
                        name,
                        path,
                        children: Seq::empty(),
                        expanded: false,
                        size: 0,
                        files: 0,
                    }
                },
            ),
            _ => folders(entries.drop_last(), depth),
        }
    }
}

/// A directory: the directories in it, then the files, each in the natural order of
/// their names, without what begins with a `.`.
pub open spec fn directory(
    name: Seq<char>,
    path: Seq<char>,
    entries: Seq<EntryModel>,
    depth: nat,
) -> FileModel
    decreases depth, entries.len(), 1nat,
{
    FileModel::Dir {
        name,
        path,
        children: stable_sort(folders(entries, depth), by_file_name()) + stable_sort(
            leaves(entries),
            by_file_name(),
        ),
        expanded: false,
        size: weight(entries, depth) as u64,
        files: file_count(entries, depth) as usize,
    }
}

impl FileModel {
    /// The directory expanded or collapsed.
    pub open spec fn with_expanded(self, on: bool) -> FileModel {
        match self {
            FileModel::Dir { name, path, children, expanded, size, files } => FileModel::Dir {
                name,
                path,
                children,
                expanded: on,
                size,
                files,
            },
            _ => self,
        }
    }

    /// The directory with other children.
    pub open spec fn with_children(self, kids: Seq<FileModel>) -> FileModel {
        match self {
            FileModel::Dir { name, path, children, expanded, size, files } => FileModel::Dir {
                name,
                path,
                children: kids,
                expanded,
                size,
                files,
            },
            _ => self,
        }
    }
}

fn sort_files(nodes: Vec<FileNode>) -> (r: Vec<FileNode>)
    ensures
        file_models(r@) == stable_sort(file_models(nodes@), by_file_name()),
{
    let ghost all = nodes@;
    let mut keyed: Vec<Keyed<FileNode>> = Vec::new();
    for n in it: nodes
        invariant
            it.seq() == all,
            keyed.len() == it.index(),
            forall|j: int|
                0 <= j < keyed.len() ==> (#[trigger] keyed@[j]).item == all[j]
                    && keyed@[j].key.deep_view() == natural_key(all[j].model().name()),
    {
        let key = natural_sort_key(n.name());
        keyed.push(Keyed { key, item: n });
    }
    let ghost before = keyed@;
    let keyed = sort_ranked(keyed);
    let ghost f = |k: Keyed<FileNode>| k.item.model();
    proof {
        lemma_rank_order::<Keyed<FileNode>>();
        lemma_stable_sort_map(before, rank_order::<Keyed<FileNode>>(), f, by_file_name());
        assert(before.map_values(f) =~= file_models(all));
    }
    let ghost ordered = keyed@;
    let mut r: Vec<FileNode> = Vec::new();
    for k in it: keyed
        invariant
            it.seq() == ordered,
            r.len() == it.index(),
            forall|j: int| 0 <= j < r.len() ==> #[trigger] r@[j] == ordered[j].item,
    {
        r.push(k.item);
    }
    proof {
        assert(file_models(r@) =~= ordered.map_values(f));
    }
    r
}

/// The first entries hold no more than all.
proof fn lemma_weight_grows(entries: Seq<EntryModel>, depth: nat, n: int)
    requires
        0 <= n <= entries.len(),
    ensures
        weight(entries.take(n), depth) <= weight(entries, depth),
        file_count(entries.take(n), depth) <= file_count(entries, depth),
    decreases entries.len() - n,
{
    if n == entries.len() {
        assert(entries.take(n) =~= entries);
    } else {
        lemma_weight_grows(entries, depth, n + 1);
        assert(entries.take(n + 1).drop_last() =~= entries.take(n));
    }
}

fn is_hidden(name: &str) -> (b: bool)
    ensures
        b == (name@.len() > 0 && name@[0] == '.'),
{
    name.unicode_len() > 0 && name.get_char(0) == '.'
}

fn build_dir(name: &str, path: &str, entries: &Vec<Entry>, depth_left: usize) -> (r: FileNode)
    requires
        weight(listing(entries@), depth_left as nat) <= u64::MAX,
        file_count(listing(entries@), depth_left as nat) <= usize::MAX,
    ensures
        r.model() == directory(name@, path@, listing(entries@), depth_left as nat),
    decreases depth_left,
{
    let ghost all = listing(entries@);
    let ghost depth = depth_left as nat;
    let mut dirs: Vec<FileNode> = Vec::new();
    let mut files: Vec<FileNode> = Vec::new();
    let mut size: u64 = 0;
    let mut count: usize = 0;
    let mut i: usize = 0;
    proof {
        assert(file_models(dirs@) =~= Seq::empty());
        assert(file_models(files@) =~= Seq::empty());
    }
    while i < entries.len()
        invariant
            i <= entries.len(),
            all == listing(entries@),
            depth == depth_left,
            weight(all, depth) <= u64::MAX,
            file_count(all, depth) <= usize::MAX,
            file_models(dirs@) == folders(all.take(i as int), depth),
            file_models(files@) == leaves(all.take(i as int)),
            size == weight(all.take(i as int), depth),
            count == file_count(all.take(i as int), depth),
        decreases entries.len() - i,
    {
        let ghost (had_dirs, had_files) = (dirs@, files@);
        proof {
            assert(all.take(i + 1).drop_last() =~= all.take(i as int));
            assert(all.take(i + 1).last() == entries@[i as int].model());
            lemma_entries(entries@[i as int]);
            lemma_weight_grows(all, depth, i + 1);
        }
        match &entries[i] {
            Entry::Folder { name: n, path: p, entries: sub } => {
                if !is_hidden(n.as_str()) {
                    if depth_left > 0 {
                        let dir = build_dir(n.as_str(), p.as_str(), sub, depth_left - 1);
                        if let FileNode::Dir { size: s, files: c, .. } = &dir {
                            size = size + *s;
                            count = count + *c;
                        }
                        dirs.push(dir);
                    } else {
                        dirs.push(
                            FileNode::Dir {
                                name: n.clone(),
                                path: p.clone(),
                                children: Vec::new(),
                                expanded: false,
                                size: 0,
                                files: 0,
                            },
                        );
                    }
                    proof {
                        lemma_files(dirs@[had_dirs.len() as int]);
                        assert(file_models(Seq::<FileNode>::empty()) =~= Seq::empty());
                        assert(file_models(dirs@) =~= file_models(had_dirs).push(
                            dirs@[had_dirs.len() as int].model(),
                        ));
                        assert(file_models(dirs@) =~= folders(all.take(i + 1), depth));
                    }
                }
            },
            Entry::Leaf { name: n, path: p, size: s } => {
                if !is_hidden(n.as_str()) {
                    size = size + *s;
                    count = count + 1;
                    files.push(
                        FileNode::File {
                            name: n.clone(),
                            path: p.clone(),
                            size: *s,
                            kind: FileKind::of(n.as_str()),
                        },
                    );
                    proof {
                        assert(file_models(files@) =~= file_models(had_files).push(
                            files@[had_files.len() as int].model(),
                        ));
                    }
                }
            },
        }
        i = i + 1;
    }
    proof {
        assert(all.take(i as int) =~= all);
    }
    let mut children = sort_files(dirs);
    let mut tail = sort_files(files);
    let ghost (a, b) = (children@, tail@);
    children.append(&mut tail);
    proof {
        assert(file_models(children@) =~= file_models(a) + file_models(b));
    }
    let r = FileNode::Dir {
        name: name.to_owned(),
        path: path.to_owned(),
        children,
        expanded: false,
        size,
        files: count,
    };
    proof {
        lemma_files(r);
    }
    r
}

/// The tree of a directory, at most `max_depth` directories deep below it. The directory
/// itself is expanded, those below it are collapsed.
pub fn build(name: &str, path: &str, entries: &Vec<Entry>, max_depth: usize) -> (r: FileNode)
    requires
        weight(listing(entries@), max_depth as nat) <= u64::MAX,
        file_count(listing(entries@), max_depth as nat) <= usize::MAX,
    ensures
        r.model() == directory(name@, path@, listing(entries@), max_depth as nat).with_expanded(
            true,
        ),
{
    let mut root = build_dir(name, path, entries, max_depth);
    let ghost before = root;
    match &mut root {
        FileNode::Dir { expanded, .. } => {
            *expanded = true;
        },
        _ => {},
    }
    proof {
        lemma_files(before);
        lemma_files(root);
    }
    root
}

// ---------------------------------------------------------------------------
// The visible rows

/// A visible row of the file tree.
#[derive(Debug)]
pub struct FileRow {
    pub depth: usize,
    pub name: String,
    pub path: String,
    pub size: u64,
    pub is_dir: bool,
    pub expanded: bool,
    /// The number of files below a directory.
    pub files: usize,
    /// The kind of a file; `Checkpoint` for a directory.
    pub kind: FileKind,
}

/// The mathematical content of a [`FileRow`].
pub struct FileRowModel {
    pub depth: usize,
    pub name: Seq<char>,
    pub path: Seq<char>,
    pub size: u64,
    pub is_dir: bool,
    pub expanded: bool,
    pub files: usize,
    pub kind: FileKind,
}

impl DeepView for FileRow {
    type V = FileRowModel;

    open spec fn deep_view(&self) -> FileRowModel {
        FileRowModel {
            depth: self.depth,
            name: self.name@,
            path: self.path@,
            size: self.size,
            is_dir: self.is_dir,
            expanded: self.expanded,
            files: self.files,
            kind: self.kind,
        }
    }
}

/// The row of a node.
pub open spec fn file_row(n: FileModel, depth: usize) -> FileRowModel {
    match n {
        FileModel::Dir { name, path, expanded, size, files, .. } => FileRowModel {
            depth,
            name,
            path,
            size,
            is_dir: true,
            expanded,
            files,
            kind: FileKind::Checkpoint,
        },
        FileModel::File { name, path, size, kind } => FileRowModel {
            depth,
            name,
            path,
            size,
            is_dir: false,
            expanded: false,
            files: 0,
            kind,
        },
    }
}

/// The visible rows of a list of nodes.
pub open spec fn file_rows(nodes: Seq<FileModel>, depth: usize) -> Seq<FileRowModel>
    decreases nodes, 1nat,
{
    if nodes.len() == 0 {
        Seq::empty()
    } else {
        file_rows(nodes.drop_last(), depth) + rows_under(nodes.last(), depth)
    }
}

/// The visible rows of a node: itself, then what is below it if it is expanded.
pub open spec fn rows_under(n: FileModel, depth: usize) -> Seq<FileRowModel>
    decreases n, 0nat,
{
    match n {
        FileModel::Dir { children, expanded, .. } if expanded => seq![file_row(n, depth)]
            + file_rows(children, deeper(depth)),
        _ => seq![file_row(n, depth)],
    }
}

fn flatten_node(node: &FileNode, depth: usize, out: &mut Vec<FileRow>)
    ensures
        final(out).deep_view() == old(out).deep_view() + rows_under(node.model(), depth),
    decreases node,
{
    let ghost before = out.deep_view();
    proof {
        lemma_files(*node);
    }
    match node {
        FileNode::Dir { name, path, children, expanded, size, files } => {
            out.push(
                FileRow {
                    depth,
                    name: name.clone(),
                    path: path.clone(),
                    size: *size,
                    is_dir: true,
                    expanded: *expanded,
                    files: *files,
                    kind: FileKind::Checkpoint,
                },
            );
            let ghost head = before.push(file_row(node.model(), depth));
            proof {
                assert(out.deep_view() =~= head);
            }
            if *expanded {
                let ghost all = file_models(children@);
                let below: usize = if depth < usize::MAX {
                    depth + 1
                } else {
                    depth
                };
                let mut i: usize = 0;
                proof {
                    assert(all.take(0) =~= Seq::empty());
                    assert(head + Seq::<FileRowModel>::empty() =~= head);
                }
                while i < children.len()
                    invariant
                        i <= children.len(),
                        all == file_models(children@),
                        out.deep_view() == head + file_rows(all.take(i as int), below),
                        decreases_to!(node => children),
                    decreases children.len() - i,
                {
                    proof {
                        assert(all.take(i + 1).drop_last() =~= all.take(i as int));
                        assert(all.take(i + 1).last() == children@[i as int].model());
                    }
                    let ghost had = out.deep_view();
                    flatten_node(&children[i], below, out);
                    proof {
                        assert(out.deep_view() =~= head + file_rows(all.take(i + 1), below));
                    }
                    i = i + 1;
                }
                proof {
                    assert(all.take(i as int) =~= all);
                    assert(out.deep_view() =~= before + rows_under(node.model(), depth));
                }
            } else {
                proof {
                    assert(out.deep_view() =~= before + rows_under(node.model(), depth));
                }
            }
        },
        FileNode::File { name, path, size, kind } => {
            out.push(
                FileRow {
                    depth,
                    name: name.clone(),
                    path: path.clone(),
                    size: *size,
                    is_dir: false,
                    expanded: false,
                    files: 0,
                    kind: *kind,
                },
            );
            proof {
                assert(out.deep_view() =~= before + rows_under(node.model(), depth));
            }
        },
    }
}

/// The visible rows of the tree, its root first. A collapsed directory hides what is
/// below it.
pub fn flatten(root: &FileNode) -> (r: Vec<FileRow>)
    ensures
        r.deep_view() == rows_under(root.model(), 0),
{
    let mut out: Vec<FileRow> = Vec::new();
    flatten_node(root, 0, &mut out);
    proof {
        assert(Seq::<FileRowModel>::empty() + rows_under(root.model(), 0) =~= rows_under(
            root.model(),
            0,
        ));
    }
    out
}

// ---------------------------------------------------------------------------
// Expanding and collapsing

/// How many rows some nodes show.
pub open spec fn shown(nodes: Seq<FileModel>) -> nat
    decreases nodes, 1nat,
{
    if nodes.len() == 0 {
        0
    } else {
        shown_under(nodes[0]) + shown(nodes.skip(1))
    }
}

/// How many rows a node shows.
pub open spec fn shown_under(n: FileModel) -> nat
    decreases n, 0nat,
{
    match n {
        FileModel::Dir { children, expanded, .. } if expanded => 1 + shown(children),
        _ => 1,
    }
}

/// Some nodes with the directory in the visible row `idx` turned over.
pub open spec fn turned(nodes: Seq<FileModel>, idx: nat) -> Seq<FileModel>
    decreases nodes, 1nat,
{
    if nodes.len() == 0 {
        nodes
    } else if idx < shown_under(nodes[0]) {
        seq![turned_under(nodes[0], idx)] + nodes.skip(1)
    } else {
        seq![nodes[0]] + turned(nodes.skip(1), (idx - shown_under(nodes[0])) as nat)
    }
}

/// A node with the directory in the visible row `idx` turned from expanded to collapsed
/// or back; the node itself is row 0.
pub open spec fn turned_under(n: FileModel, idx: nat) -> FileModel
    decreases n, 0nat,
{
    match n {
        FileModel::Dir { children, expanded, .. } => if idx == 0 {
            n.with_expanded(!expanded)
        } else if expanded {
            n.with_children(turned(children, (idx - 1) as nat))
        } else {
            n
        },
        _ => n,
    }
}

/// Whether the visible row `idx` of some nodes is a directory.
pub open spec fn dir_in_row(nodes: Seq<FileModel>, idx: nat) -> bool
    decreases nodes, 1nat,
{
    if nodes.len() == 0 {
        false
    } else if idx < shown_under(nodes[0]) {
        dir_at(nodes[0], idx)
    } else {
        dir_in_row(nodes.skip(1), (idx - shown_under(nodes[0])) as nat)
    }
}

/// Whether the visible row `idx` of a node is a directory.
pub open spec fn dir_at(n: FileModel, idx: nat) -> bool
    decreases n, 0nat,
{
    match n {
        FileModel::Dir { children, expanded, .. } => if idx == 0 {
            true
        } else if expanded {
            dir_in_row(children, (idx - 1) as nat)
        } else {
            false
        },
        _ => false,
    }
}

/// The first `i` nodes passed over, the rest turned.
proof fn lemma_turned_step(nodes: Seq<FileModel>, i: int, idx: nat, left: nat)
    requires
        0 <= i <= nodes.len(),
        idx == shown(nodes.take(i)) + left,
    ensures
        turned(nodes, idx) == nodes.take(i) + turned(nodes.skip(i), left),
        dir_in_row(nodes, idx) == dir_in_row(nodes.skip(i), left),
        shown(nodes) == shown(nodes.take(i)) + shown(nodes.skip(i)),
    decreases i,
{
    if i == 0 {
        assert(nodes.skip(0) =~= nodes);
        assert(nodes.take(0) =~= Seq::empty());
        assert(nodes.take(0) + turned(nodes, left) =~= turned(nodes, left));
    } else {
        let t = nodes.skip(1);
        let front = nodes.take(i);
        assert(front.skip(1) =~= t.take(i - 1));
        assert(front[0] == nodes[0]);
        assert(shown(front) == shown_under(nodes[0]) + shown(t.take(i - 1)));
        lemma_turned_step(t, i - 1, (idx - shown_under(nodes[0])) as nat, left);
        assert(t.skip(i - 1) =~= nodes.skip(i));
        assert(seq![nodes[0]] + (t.take(i - 1) + turned(nodes.skip(i), left)) =~= nodes.take(i)
            + turned(nodes.skip(i), left));
    }
}

proof fn lemma_shown_push(nodes: Seq<FileModel>)
    requires
        nodes.len() > 0,
    ensures
        shown(nodes) == shown(nodes.drop_last()) + shown_under(nodes.last()),
    decreases nodes.len(),
{
    if nodes.len() == 1 {
        assert(nodes.drop_last() =~= Seq::empty());
        assert(nodes.skip(1) =~= Seq::empty());
    } else {
        lemma_shown_push(nodes.skip(1));
        assert(nodes.skip(1).drop_last() =~= nodes.drop_last().skip(1));
        assert(nodes.drop_last()[0] == nodes[0]);
    }
}

/// How a walk over the visible rows went on.
#[derive(Clone, Copy, Debug, PartialEq, Eq, Structural)]
enum Walk {
    /// The row was not reached; so many rows are left to pass.
    Passed(usize),
    /// The row was reached; whether it is a directory.
    Reached(bool),
}

fn toggle_walk(node: &mut FileNode, left: usize) -> (r: Walk)
    ensures
        match r {
            Walk::Passed(k) => left >= shown_under(old(node).model()) && k == left - shown_under(
                old(node).model(),
            ) && final(node).model() == old(node).model(),
            Walk::Reached(hit) => left < shown_under(old(node).model()) && hit == dir_at(
                old(node).model(),
                left as nat,
            ) && final(node).model() == turned_under(old(node).model(), left as nat),
        },
    decreases *old(node),
{
    let ghost before = *node;
    proof {
        lemma_files(before);
    }
    let r = match node {
        FileNode::File { .. } => if left == 0 {
            Walk::Reached(false)
        } else {
            Walk::Passed(left - 1)
        },
        FileNode::Dir { children, expanded, .. } => {
            if left == 0 {
                *expanded = !*expanded;
                Walk::Reached(true)
            } else if *expanded {
                toggle_list(children, left - 1)
            } else {
                Walk::Passed(left - 1)
            }
        },
    };
    proof {
        lemma_files(*node);
    }
    r
}

fn toggle_list(nodes: &mut Vec<FileNode>, left: usize) -> (r: Walk)
    ensures
        match r {
            Walk::Passed(k) => left >= shown(file_models(old(nodes)@)) && k == left - shown(
                file_models(old(nodes)@),
            ) && file_models(final(nodes)@) == file_models(old(nodes)@),
            Walk::Reached(hit) => left < shown(file_models(old(nodes)@)) && hit == dir_in_row(
                file_models(old(nodes)@),
                left as nat,
            ) && file_models(final(nodes)@) == turned(file_models(old(nodes)@), left as nat),
        },
    decreases *old(nodes),
{
    let ghost all = file_models(nodes@);
    let ghost before = nodes@;
    let mut to_go: usize = left;
    let mut i: usize = 0;
    proof {
        assert(all.take(0) =~= Seq::empty());
    }
    while i < nodes.len()
        invariant
            i <= nodes.len(),
            before == old(nodes)@,
            all == file_models(before),
            nodes.len() == before.len(),
            file_models(nodes@) == all,
            forall|j: int| i <= j < nodes.len() ==> #[trigger] nodes@[j] == before[j],
            left == shown(all.take(i as int)) + to_go,
        decreases nodes.len() - i,
    {
        proof {
            assert(all[i as int] == before[i as int].model());
            assert(all.take(i + 1).drop_last() =~= all.take(i as int));
            lemma_shown_push(all.take(i + 1));
            lemma_turned_step(all, i as int, left as nat, to_go as nat);
            assert(all.skip(i as int)[0] == all[i as int]);
        }
        let step = toggle_walk(&mut nodes[i], to_go);
        match step {
            Walk::Reached(hit) => {
                proof {
                    assert(file_models(nodes@) =~= turned(all, left as nat));
                }
                return Walk::Reached(hit);
            },
            Walk::Passed(k) => {
                proof {
                    assert(file_models(nodes@) =~= all);
                }
                to_go = k;
            },
        }
        i = i + 1;
    }
    proof {
        assert(all.take(i as int) =~= all);
    }
    Walk::Passed(to_go)
}

/// Expand or collapse the directory in the visible row `idx`. Returns whether there is a
/// directory in that row.
pub fn toggle_by_index(root: &mut FileNode, idx: usize) -> (hit: bool)
    ensures
        hit == dir_at(old(root).model(), idx as nat),
        final(root).model() == if idx < shown_under(old(root).model()) {
            turned_under(old(root).model(), idx as nat)
        } else {
            old(root).model()
        },
{
    let ghost before = root.model();
    match toggle_walk(root, idx) {
        Walk::Reached(hit) => hit,
        Walk::Passed(_) => {
            proof {
                lemma_no_row(before, idx as nat);
            }
            false
        },
    }
}

proof fn lemma_no_row(n: FileModel, idx: nat)
    requires
        idx >= shown_under(n),
    ensures
        !dir_at(n, idx),
    decreases n, 0nat,
{
    if n is Dir && n->expanded {
        lemma_no_row_in(n->children, (idx - 1) as nat);
    }
}

proof fn lemma_no_row_in(nodes: Seq<FileModel>, idx: nat)
    requires
        idx >= shown(nodes),
    ensures
        !dir_in_row(nodes, idx),
    decreases nodes, 1nat,
{
    if nodes.len() > 0 {
        lemma_no_row_in(nodes.skip(1), (idx - shown_under(nodes[0])) as nat);
    }
}

/// As many rows are shown as there are visible rows, and a row is that of a directory
/// exactly where the directory can be turned over.
pub proof fn law_rows_and_directories_agree(n: FileModel, depth: usize, idx: int)
    ensures
        rows_under(n, depth).len() == shown_under(n),
        0 <= idx < shown_under(n) ==> rows_under(n, depth)[idx].is_dir == dir_at(n, idx as nat),
    decreases n, 0nat,
{
    if n is Dir && n->expanded {
        lemma_rows_agree(n->children, deeper(depth), idx - 1);
    }
}

proof fn lemma_rows_front(nodes: Seq<FileModel>, depth: usize)
    requires
        nodes.len() > 0,
    ensures
        file_rows(nodes, depth) == rows_under(nodes[0], depth) + file_rows(nodes.skip(1), depth),
    decreases nodes.len(),
{
    if nodes.len() == 1 {
        assert(nodes.drop_last() =~= Seq::empty());
        assert(nodes.skip(1) =~= Seq::empty());
        assert(file_rows(nodes, depth) =~= rows_under(nodes[0], depth) + file_rows(
            nodes.skip(1),
            depth,
        ));
    } else {
        lemma_rows_front(nodes.drop_last(), depth);
        assert(nodes.skip(1).drop_last() =~= nodes.drop_last().skip(1));
        assert(file_rows(nodes, depth) =~= rows_under(nodes[0], depth) + file_rows(
            nodes.skip(1),
            depth,
        ));
    }
}

proof fn lemma_rows_agree(nodes: Seq<FileModel>, depth: usize, idx: int)
    ensures
        file_rows(nodes, depth).len() == shown(nodes),
        0 <= idx < shown(nodes) ==> file_rows(nodes, depth)[idx].is_dir == dir_in_row(
            nodes,
            idx as nat,
        ),
    decreases nodes, 1nat,
{
    if nodes.len() > 0 {
        lemma_rows_front(nodes, depth);
        law_rows_and_directories_agree(nodes[0], depth, idx);
        lemma_rows_agree(nodes.skip(1), depth, idx - shown_under(nodes[0]));
    }
}

/// Turning a row over twice brings the tree back.
pub proof fn law_turning_twice_restores(n: FileModel, idx: nat)
    requires
        idx < shown_under(n),
    ensures
        idx < shown_under(turned_under(n, idx)),
        turned_under(turned_under(n, idx), idx) == n,
    decreases n, 0nat,
{
    if n is Dir && idx > 0 && n->expanded {
        lemma_turning_twice(n->children, (idx - 1) as nat);
    }
}

proof fn lemma_turning_twice(nodes: Seq<FileModel>, idx: nat)
    requires
        idx < shown(nodes),
    ensures
        idx < shown(turned(nodes, idx)),
        turned(turned(nodes, idx), idx) == nodes,
    decreases nodes, 1nat,
{
    let first = shown_under(nodes[0]);
    if idx < first {
        law_turning_twice_restores(nodes[0], idx);
        let once = turned(nodes, idx);
        assert(once.skip(1) =~= nodes.skip(1));
        assert(turned(once, idx) =~= nodes);
    } else {
        lemma_turning_twice(nodes.skip(1), (idx - first) as nat);
        let once = turned(nodes, idx);
        assert(once.skip(1) =~= turned(nodes.skip(1), (idx - first) as nat));
        assert(turned(once, idx) =~= nodes);
    }
}

// ---------------------------------------------------------------------------
// What a directory adds up

/// The size that a row shows.
pub open spec fn size_shown(n: FileModel) -> nat {
    match n {
        FileModel::Dir { size, .. } => size as nat,
        FileModel::File { size, .. } => size as nat,
    }
}

/// The number of files that a row stands for.
pub open spec fn files_shown(n: FileModel) -> nat {
    match n {
        FileModel::Dir { files, .. } => files as nat,
        FileModel::File { .. } => 1,
    }
}

/// A number added up over rows.
pub open spec fn over_rows(nodes: Seq<FileModel>, f: spec_fn(FileModel) -> nat) -> nat
    decreases nodes.len(),
{
    if nodes.len() == 0 {
        0
    } else {
        over_rows(nodes.drop_last(), f) + f(nodes.last())
    }
}

proof fn lemma_over_insert(v: Seq<FileModel>, p: int, x: FileModel, f: spec_fn(FileModel) -> nat)
    requires
        0 <= p <= v.len(),
    ensures
        over_rows(v.insert(p, x), f) == over_rows(v, f) + f(x),
    decreases v.len(),
{
    let r = v.insert(p, x);
    if p == v.len() {
        assert(r.drop_last() =~= v);
    } else {
        lemma_over_insert(v.drop_last(), p, x, f);
        assert(r.drop_last() =~= v.drop_last().insert(p, x));
        assert(r.last() == v.last());
    }
}

proof fn lemma_over_sort(v: Seq<FileModel>, f: spec_fn(FileModel) -> nat)
    ensures
        over_rows(stable_sort(v, by_file_name()), f) == over_rows(v, f),
    decreases v.len(),
{
    if v.len() > 0 {
        let le = by_file_name();
        let r = stable_sort(v.drop_last(), le);
        lemma_file_names();
        lemma_over_sort(v.drop_last(), f);
        lemma_stable_sort(v.drop_last(), le);
        lemma_sorted_position(r, v.last(), le);
        lemma_over_insert(r, sorted_position(r, v.last(), le), v.last(), f);
    }
}

proof fn lemma_file_names()
    ensures
        total_preorder(by_file_name()),
{
    let le = by_file_name();
    lemma_item_order_total();
    assert forall|x: FileModel, y: FileModel| true implies #[trigger] le(x, y) || le(y, x) by {
        lemma_lex_total(
            natural_key(x.name()),
            natural_key(y.name()),
            natural_key(y.name()),
            item_order(),
        );
    }
    assert forall|x: FileModel, y: FileModel, z: FileModel| #[trigger]
        le(x, y) && #[trigger] le(y, z) implies le(x, z) by {
        lemma_lex_total(
            natural_key(x.name()),
            natural_key(y.name()),
            natural_key(z.name()),
            item_order(),
        );
    }
}

proof fn lemma_over_join(a: Seq<FileModel>, b: Seq<FileModel>, f: spec_fn(FileModel) -> nat)
    ensures
        over_rows(a + b, f) == over_rows(a, f) + over_rows(b, f),
    decreases b.len(),
{
    if b.len() == 0 {
        assert(a + b =~= a);
    } else {
        lemma_over_join(a, b.drop_last(), f);
        assert((a + b).drop_last() =~= a + b.drop_last());
        assert((a + b).last() == b.last());
    }
}

/// The row of a directory that is listed last.
proof fn lemma_folder_row(entries: Seq<EntryModel>, depth: nat)
    requires
        entries.len() > 0,
        entries.last() is Folder,
        entries.last().listed(),
    ensures
        folders(entries, depth).len() > 0,
        ({
            let d = folders(entries, depth).last();
            &&& d is Dir
            &&& d->Dir_name == entries.last()->Folder_name
            &&& d->Dir_path == entries.last()->Folder_path
            &&& depth > 0 ==> d->Dir_size == weight(
                entries.last()->Folder_entries,
                (depth - 1) as nat,
            ) as u64 && d->Dir_files == file_count(
                entries.last()->Folder_entries,
                (depth - 1) as nat,
            ) as usize
            &&& depth == 0 ==> d->Dir_size == 0 && d->Dir_files == 0
        }),
{
    if depth > 0 {
        let e = entries.last();
        let d = directory(
            e->Folder_name,
            e->Folder_path,
            e->Folder_entries,
            (depth - 1) as nat,
        );
        assert(d is Dir);
        assert(folders(entries, depth).last() == d);
    }
}

proof fn lemma_entries_add_up(entries: Seq<EntryModel>, depth: nat)
    requires
        weight(entries, depth) <= u64::MAX,
        file_count(entries, depth) <= usize::MAX,
    ensures
        over_rows(folders(entries, depth), |n: FileModel| size_shown(n)) + over_rows(
            leaves(entries),
            |n: FileModel| size_shown(n),
        ) == weight(entries, depth),
        over_rows(folders(entries, depth), |n: FileModel| files_shown(n)) + over_rows(
            leaves(entries),
            |n: FileModel| files_shown(n),
        ) == file_count(entries, depth),
    decreases entries.len(),
{
    if entries.len() > 0 {
        let t = entries.drop_last();
        lemma_entries_add_up(t, depth);
        let (d, l) = (folders(t, depth), leaves(t));
        let (now_d, now_l) = (folders(entries, depth), leaves(entries));
        if entries.last().listed() {
            if entries.last() is Leaf {
                assert(now_l.drop_last() =~= l);
                assert(now_d == d);
            } else {
                assert(now_d.drop_last() =~= d);
                assert(now_l == l);
                lemma_folder_row(entries, depth);
            }
        }
    }
}

/// The size of a directory is what the sizes of its rows add up to, and its number of files
/// what theirs do, a file being one.
pub proof fn law_directories_add_up(
    name: Seq<char>,
    path: Seq<char>,
    entries: Seq<EntryModel>,
    depth: nat,
)
    requires
        weight(entries, depth) <= u64::MAX,
        file_count(entries, depth) <= usize::MAX,
    ensures
        ({
            let d = directory(name, path, entries, depth);
            &&& d is Dir
            &&& d.name() == name
            &&& d->Dir_path == path
            &&& d->Dir_size == over_rows(d->Dir_children, |n: FileModel| size_shown(n))
            &&& d->Dir_files == over_rows(d->Dir_children, |n: FileModel| files_shown(n))
        }),
{
    let (a, b) = (folders(entries, depth), leaves(entries));
    let (x, y) = (stable_sort(a, by_file_name()), stable_sort(b, by_file_name()));
    let (f, g) = (|n: FileModel| size_shown(n), |n: FileModel| files_shown(n));
    lemma_entries_add_up(entries, depth);
    lemma_over_sort(a, f);
    lemma_over_sort(b, f);
    lemma_over_sort(a, g);
    lemma_over_sort(b, g);
    lemma_over_join(x, y, f);
    lemma_over_join(x, y, g);
}

/// Whether a row is of an entry: it has its name and its path, and a file its size.
pub open spec fn shows_entry(n: FileModel, e: EntryModel) -> bool {
    match (n, e) {
        (
            FileModel::File { name, path, size, .. },
            EntryModel::Leaf { name: own_name, path: own_path, size: own_size },
        ) => name == own_name && path == own_path && size == own_size,
        (
            FileModel::Dir { name, path, .. },
            EntryModel::Folder { name: own_name, path: own_path, .. },
        ) => name == own_name && path == own_path,
        _ => false,
    }
}

proof fn lemma_rows_of_entries(entries: Seq<EntryModel>, depth: nat)
    ensures
        folders(entries, depth).len() + leaves(entries).len() == entries.filter(
            |e: EntryModel| e.listed(),
        ).len(),
        forall|i: int| 0 <= i < folders(entries, depth).len() ==> (
        #[trigger] folders(entries, depth)[i]) is Dir,
        forall|i: int| 0 <= i < leaves(entries).len() ==> (#[trigger] leaves(entries)[i]) is File,
        forall|k: int|
            0 <= k < entries.len() && (#[trigger] entries[k]).listed() ==> {
                ||| exists|i: int|
                    0 <= i < folders(entries, depth).len() && shows_entry(
                        #[trigger] folders(entries, depth)[i],
                        entries[k],
                    )
                ||| exists|i: int|
                    0 <= i < leaves(entries).len() && shows_entry(
                        #[trigger] leaves(entries)[i],
                        entries[k],
                    )
            },
    decreases entries.len(),
{
    reveal(Seq::filter);
    if entries.len() > 0 {
        let t = entries.drop_last();
        lemma_rows_of_entries(t, depth);
        let (d, l) = (folders(t, depth), leaves(t));
        let (now_d, now_l) = (folders(entries, depth), leaves(entries));
        if entries.last() is Folder && entries.last().listed() {
            lemma_folder_row(entries, depth);
        }
        assert forall|i: int| 0 <= i < now_d.len() implies (#[trigger] now_d[i]) is Dir by {
            if i < d.len() {
                assert(now_d[i] == d[i]);
            }
        }
        assert forall|k: int| 0 <= k < entries.len() && (#[trigger] entries[k]).listed() implies {
            ||| exists|i: int| 0 <= i < now_d.len() && shows_entry(#[trigger] now_d[i], entries[k])
            ||| exists|i: int| 0 <= i < now_l.len() && shows_entry(#[trigger] now_l[i], entries[k])
        } by {
            if k < t.len() {
                assert(t[k] == entries[k]);
                if exists|i: int| 0 <= i < d.len() && shows_entry(#[trigger] d[i], t[k]) {
                    let i = choose|i: int| 0 <= i < d.len() && shows_entry(#[trigger] d[i], t[k]);
                    assert(now_d[i] == d[i]);
                } else {
                    let i = choose|i: int| 0 <= i < l.len() && shows_entry(#[trigger] l[i], t[k]);
                    assert(now_l[i] == l[i]);
                }
            } else if entries.last() is Leaf {
                assert(shows_entry(now_l[now_l.len() - 1], entries[k]));
            } else {
                assert(shows_entry(now_d[now_d.len() - 1], entries[k]));
            }
        }
    }
}

/// A directory lists each entry whose name does not begin with a dot, once, the directories
/// first, then the files, each in the natural order of their names.
pub proof fn law_directories_list_their_entries(
    name: Seq<char>,
    path: Seq<char>,
    entries: Seq<EntryModel>,
    depth: nat,
)
    ensures
        ({
            let rows = directory(name, path, entries, depth)->Dir_children;
            &&& rows.len() == entries.filter(|e: EntryModel| e.listed()).len()
            &&& forall|k: int|
                0 <= k < entries.len() && (#[trigger] entries[k]).listed() ==> exists|i: int|
                    0 <= i < rows.len() && shows_entry(#[trigger] rows[i], entries[k])
            &&& forall|i: int, j: int|
                #![trigger rows[i], rows[j]]
                0 <= i < j < rows.len() ==> !(rows[i] is File && rows[j] is Dir)
            &&& forall|i: int, j: int|
                #![trigger rows[i], rows[j]]
                0 <= i < j < rows.len() && (rows[i] is File <==> rows[j] is File) ==> key_order(
                    natural_key(rows[i].name()),
                    natural_key(rows[j].name()),
                ) <= 0
        }),
{
    broadcast use vstd::seq_lib::group_to_multiset_ensures;

    let le = by_file_name();
    let (a, b) = (folders(entries, depth), leaves(entries));
    let (x, y) = (stable_sort(a, le), stable_sort(b, le));
    let rows = x + y;
    lemma_rows_of_entries(entries, depth);
    lemma_file_names();
    lemma_stable_sort(a, le);
    lemma_stable_sort(b, le);
    lemma_stable_sort_contains(a, le);
    lemma_stable_sort_contains(b, le);
    assert forall|i: int| 0 <= i < x.len() implies (#[trigger] x[i]) is Dir by {
        assert(a.contains(x[i]));
        let k = a.index_of(x[i]);
        assert(a[k] is Dir);
    }
    assert forall|i: int| 0 <= i < y.len() implies (#[trigger] y[i]) is File by {
        assert(b.contains(y[i]));
        let k = b.index_of(y[i]);
        assert(b[k] is File);
    }
    assert forall|k: int| 0 <= k < entries.len() && (#[trigger] entries[k]).listed() implies exists|
        i: int,
    |
        0 <= i < rows.len() && shows_entry(#[trigger] rows[i], entries[k]) by {
        if exists|i: int| 0 <= i < a.len() && shows_entry(#[trigger] a[i], entries[k]) {
            let i = choose|i: int| 0 <= i < a.len() && shows_entry(#[trigger] a[i], entries[k]);
            assert(a.contains(a[i]));
            assert(x.to_multiset().count(a[i]) > 0);
            let j = x.index_of(a[i]);
            assert(rows[j] == a[i]);
        } else {
            let i = choose|i: int| 0 <= i < b.len() && shows_entry(#[trigger] b[i], entries[k]);
            assert(b.contains(b[i]));
            assert(y.to_multiset().count(b[i]) > 0);
            let j = y.index_of(b[i]);
            assert(rows[x.len() + j] == b[i]);
        }
    }
    assert forall|i: int, j: int|
        #![trigger rows[i], rows[j]]
        0 <= i < j < rows.len() implies !(rows[i] is File && rows[j] is Dir) && ((rows[i] is File
        <==> rows[j] is File) ==> key_order(
        natural_key(rows[i].name()),
        natural_key(rows[j].name()),
    ) <= 0) by {
        let n = x.len() as int;
        if j < n {
            assert(rows[i] == x[i] && rows[j] == x[j]);
            assert(le(x[i], x[j]));
        } else if i >= n {
            assert(rows[i] == y[i - n] && rows[j] == y[j - n]);
            assert(le(y[i - n], y[j - n]));
        } else {
            assert(rows[i] == x[i] && rows[j] == y[j - n]);
        }
    }
}

proof fn lemma_suffix(stem: Seq<char>, ext: Seq<char>)
    requires
        !ext.contains('.'),
    ensures
        suffix(stem + "."@ + ext) == ext,
    decreases ext.len(),
{
    reveal_strlit(".");
    lemma_after_last(stem, ext);
    assert((stem + "."@ + ext).skip(stem.len() as int + 1) =~= ext);
}

proof fn lemma_after_last(stem: Seq<char>, ext: Seq<char>)
    requires
        !ext.contains('.'),
    ensures
        after_last(stem + "."@ + ext, '.') == stem.len() + 1,
    decreases ext.len(),
{
    reveal_strlit(".");
    let name = stem + "."@ + ext;
    if ext.len() > 0 {
        assert(ext.contains(ext[ext.len() - 1]));
        assert(name.last() == ext.last());
        let t = ext.drop_last();
        assert forall|i: int| 0 <= i < t.len() implies t[i] != '.' by {
            assert(ext.contains(ext[i]));
        }
        lemma_after_last(stem, t);
        assert(name.drop_last() =~= stem + "."@ + t);
    }
}

/// The kind of a file follows from what is behind its last dot, in whatever case it is
/// written.
pub proof fn law_kinds_follow_the_ending(stem: Seq<char>, ext: Seq<char>)
    requires
        !lower_ascii(ext).contains('.'),
    ensures
        ({
            let kind = FileKind::of_name(stem + "."@ + ext);
            let low = lower_ascii(ext);
            &&& low == "safetensors"@ || low == "gguf"@ || low == "npy"@ || low == "npz"@ || low
                == "h5"@ || low == "hdf5"@ ==> kind == FileKind::Checkpoint
            &&& low == "json"@ ==> kind == FileKind::Json
            &&& low == "txt"@ || low == "md"@ || low == "py"@ || low == "yaml"@ || low == "toml"@
                || low == "log"@ ==> kind == FileKind::Text
            &&& kind == FileKind::of_name(lower_ascii(stem) + "."@ + low)
        }),
{
    reveal_strlit(".");
    let name = stem + "."@ + ext;
    let low = lower_ascii(ext);
    let lower = lower_ascii(stem) + "."@ + low;
    assert(lower_ascii(name) =~= lower);
    lemma_suffix(lower_ascii(stem), low);
    assert(lower_ascii(low) =~= low);
    assert(lower_ascii(lower) =~= lower);
    reveal_strlit("json");
    reveal_strlit("safetensors");
    reveal_strlit("gguf");
    reveal_strlit("npy");
    reveal_strlit("npz");
    reveal_strlit("h5");
    reveal_strlit("hdf5");
    reveal_strlit("txt");
    reveal_strlit("md");
    reveal_strlit("py");
    reveal_strlit("yaml");
    reveal_strlit("toml");
    reveal_strlit("log");
    assert("json"@[0] == 'j');
    assert("safetensors"@[0] == 's' && "gguf"@[0] == 'g' && "h5"@[0] == 'h' && "hdf5"@[0] == 'h');
    assert("npy"@[0] == 'n' && "npz"@[0] == 'n' && "txt"@[0] == 't' && "toml"@[0] == 't');
    assert("md"@[0] == 'm' && "py"@[0] == 'p' && "yaml"@[0] == 'y' && "log"@[0] == 'l');
}

} // verus!
