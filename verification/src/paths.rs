//! Paths as text, with `/` between the components.
use vstd::prelude::*;

use crate::text::{add_line, chars_of, law_joined_parts_split_again, law_split_at_a_separator, same};
use crate::text::{split, split_on, substring, texts};

verus! {

/// Where the last component of `path[..n]` ends: trailing separators and `.` components
/// do not count.
pub open spec fn component_end(path: Seq<char>, n: int) -> int
    decreases n,
{
    if n <= 0 {
        0
    } else if path[n - 1] == '/' || (path[n - 1] == '.' && n >= 2 && path[n - 2] == '/') {
        component_end(path, n - 1)
    } else {
        n
    }
}

/// Where the component that ends at `n` begins.
pub open spec fn component_start(path: Seq<char>, n: int) -> int
    decreases n,
{
    if n <= 0 || path[n - 1] == '/' {
        n
    } else {
        component_start(path, n - 1)
    }
}

/// The last component.
pub open spec fn last_component(path: Seq<char>) -> Seq<char> {
    let e = component_end(path, path.len() as int);
    path.subrange(component_start(path, e), e)
}

/// The name of the file that a path leads to. There is none where the path is empty,
/// the root, `.` or ends in `..`.
pub open spec fn name_of(path: Seq<char>) -> Option<Seq<char>> {
    let last = last_component(path);
    if last.len() == 0 || last == ".."@ || last == "."@ {
        None
    } else {
        Some(last)
    }
}

/// The path without its last component. The root and the empty path have none.
pub open spec fn parent_of(path: Seq<char>) -> Option<Seq<char>> {
    let e = component_end(path, path.len() as int);
    if e == 0 {
        None
    } else {
        let p = component_end(path, component_start(path, e));
        if p > 0 {
            Some(path.take(p))
        } else if path[0] == '/' {
            Some("/"@)
        } else {
            Some(""@)
        }
    }
}

fn find_end(v: &Vec<char>, from: usize) -> (r: usize)
    requires
        from <= v.len(),
    ensures
        r == component_end(v@, from as int),
        r <= from,
{
    let mut n: usize = from;
    while n > 0 && (v[n - 1] == '/' || (v[n - 1] == '.' && n >= 2 && v[n - 2] == '/'))
        invariant
            n <= from <= v.len(),
            component_end(v@, n as int) == component_end(v@, from as int),
        decreases n,
    {
        n = n - 1;
    }
    n
}

fn find_start(v: &Vec<char>, from: usize) -> (r: usize)
    requires
        from <= v.len(),
    ensures
        r == component_start(v@, from as int),
        r <= from,
{
    let mut n: usize = from;
    while n > 0 && v[n - 1] != '/'
        invariant
            n <= from <= v.len(),
            component_start(v@, n as int) == component_start(v@, from as int),
        decreases n,
    {
        n = n - 1;
    }
    n
}

/// The name of the file that a path leads to, if it has one.
pub fn name_in(path: &str) -> (r: Option<String>)
    ensures
        match r {
            Some(s) => name_of(path@) == Some(s@),
            None => name_of(path@) is None,
        },
{
    let v = chars_of(path);
    let e = find_end(&v, v.len());
    let s = find_start(&v, e);
    let last = substring(&v, s, e);
    if s == e || same(last.as_str(), "..") || same(last.as_str(), ".") {
        None
    } else {
        Some(last)
    }
}

/// The path without its last component.
pub fn parent_path(path: &str) -> (r: Option<String>)
    ensures
        match r {
            Some(s) => parent_of(path@) == Some(s@),
            None => parent_of(path@) is None,
        },
{
    let v = chars_of(path);
    let e = find_end(&v, v.len());
    if e == 0 {
        return None;
    }
    let s = find_start(&v, e);
    let p = find_end(&v, s);
    if p > 0 {
        let r = substring(&v, 0, p);
        proof {
            assert(v@.subrange(0, p as int) =~= v@.take(p as int));
        }
        Some(r)
    } else if v[0] == '/' {
        Some("/".to_owned())
    } else {
        Some("".to_owned())
    }
}

/// The final component of a path, or the path itself where it has none.
pub open spec fn final_name(path: Seq<char>) -> Seq<char> {
    match name_of(path) {
        Some(s) => s,
        None => path,
    }
}

/// The final path component (file name) of a path string.
pub fn file_name(path: &str) -> (r: String)
    ensures
        r@ == final_name(path@),
{
    match name_in(path) {
        Some(s) => s,
        None => path.to_owned(),
    }
}

/// The pieces that count as components.
pub open spec fn kept_pieces(pieces: Seq<Seq<char>>) -> Seq<Seq<char>>
    decreases pieces.len(),
{
    if pieces.len() == 0 {
        Seq::empty()
    } else {
        let r = kept_pieces(pieces.drop_last());
        if pieces.last() == ""@ || (pieces.last() == "."@ && pieces.len() > 1) {
            r
        } else {
            r.push(pieces.last())
        }
    }
}

/// The components of a path; a leading `/` for an absolute one. Two paths are equal
/// where their components are.
pub open spec fn components_of(path: Seq<char>) -> Seq<Seq<char>> {
    (if path.len() > 0 && path[0] == '/' {
        seq!["/"@]
    } else {
        seq![]
    }) + kept_pieces(split(path, '/'))
}

/// The components of a path.
pub fn components(path: &str) -> (r: Vec<String>)
    ensures
        texts(r@) == components_of(path@),
{
    let v = chars_of(path);
    let pieces = split_on(&v, '/');
    let ghost all = texts(pieces@);
    let mut r: Vec<String> = Vec::new();
    if v.len() > 0 && v[0] == '/' {
        add_line(&mut r, "/".to_owned());
    }
    let ghost head = texts(r@);
    let mut i: usize = 0;
    proof {
        reveal_strlit("");
        assert(head =~= (if path@.len() > 0 && path@[0] == '/' {
            seq!["/"@]
        } else {
            seq![]
        }));
        assert(head + kept_pieces(all.take(0)) =~= head);
    }
    while i < pieces.len()
        invariant
            i <= pieces.len(),
            all == texts(pieces@),
            texts(r@) == head + kept_pieces(all.take(i as int)),
        decreases pieces.len() - i,
    {
        proof {
            assert(all.take(i + 1).drop_last() =~= all.take(i as int));
            assert(all.take(i + 1).last() == pieces@[i as int]@);
        }
        let p = pieces[i].as_str();
        if !(same(p, "") || (same(p, ".") && i > 0)) {
            let ghost before = texts(r@);
            add_line(&mut r, p.to_owned());
            proof {
                assert(texts(r@) =~= head + kept_pieces(all.take(i + 1)));
            }
        }
        i = i + 1;
    }
    proof {
        assert(all.take(i as int) =~= all);
    }
    r
}

/// The index of the last `.`, or -1.
pub open spec fn last_dot(name: Seq<char>) -> int
    decreases name.len(),
{
    if name.len() == 0 {
        -1
    } else if name.last() == '.' {
        name.len() - 1
    } else {
        last_dot(name.drop_last())
    }
}

/// The extension of a file name: what stands behind its last `.`, unless that is its
/// first character.
pub open spec fn extension_of(name: Seq<char>) -> Option<Seq<char>> {
    if name != ".."@ && last_dot(name) > 0 {
        Some(name.skip(last_dot(name) + 1))
    } else {
        None
    }
}

/// A file name without its extension.
pub open spec fn stem_of(name: Seq<char>) -> Seq<char> {
    if name != ".."@ && last_dot(name) > 0 {
        name.take(last_dot(name))
    } else {
        name
    }
}

proof fn lemma_last_dot(name: Seq<char>)
    ensures
        -1 <= last_dot(name) < name.len(),
    decreases name.len(),
{
    if name.len() > 0 {
        lemma_last_dot(name.drop_last());
    }
}

/// A file name's stem and its extension.
pub fn split_name(name: &str) -> (r: (String, Option<String>))
    ensures
        r.0@ == stem_of(name@),
        match r.1 {
            Some(s) => extension_of(name@) == Some(s@),
            None => extension_of(name@) is None,
        },
{
    let v = chars_of(name);
    let mut n: usize = v.len();
    proof {
        assert(v@.take(n as int) =~= v@);
        lemma_last_dot(v@);
    }
    while n > 0 && v[n - 1] != '.'
        invariant
            n <= v.len(),
            last_dot(v@.take(n as int)) == last_dot(v@),
        decreases n,
    {
        proof {
            assert(v@.take(n as int).drop_last() =~= v@.take(n - 1));
        }
        n = n - 1;
    }
    if n > 1 && !same(name, "..") {
        let stem = substring(&v, 0, n - 1);
        let ext = substring(&v, n, v.len());
        proof {
            assert(v@.subrange(0, n - 1) =~= v@.take(n - 1));
            assert(v@.subrange(n as int, v.len() as int) =~= v@.skip(n as int));
        }
        (stem, Some(ext))
    } else {
        (name.to_owned(), None)
    }
}

/// The extension of the file that a path leads to.
pub open spec fn path_extension(path: Seq<char>) -> Option<Seq<char>> {
    match name_of(path) {
        Some(name) => extension_of(name),
        None => None,
    }
}

/// The extension of the file that a path leads to.
pub fn extension(path: &str) -> (r: Option<String>)
    ensures
        match r {
            Some(s) => path_extension(path@) == Some(s@),
            None => path_extension(path@) is None,
        },
{
    match name_in(path) {
        Some(name) => split_name(name.as_str()).1,
        None => None,
    }
}

/// Whether the file has the given extension.
pub fn has_extension(path: &str, ext: &str) -> (b: bool)
    ensures
        b == (path_extension(path@) == Some(ext@)),
{
    match extension(path) {
        Some(e) => same(e.as_str(), ext),
        None => false,
    }
}

/// A path with another behind it, which takes its place where it is absolute.
pub open spec fn path_join(dir: Seq<char>, name: Seq<char>) -> Seq<char> {
    if name.len() > 0 && name[0] == '/' {
        name
    } else if dir.len() == 0 || dir.last() == '/' {
        dir + name
    } else {
        dir + "/"@ + name
    }
}

/// A path with another behind it, which takes its place where it is absolute.
pub fn joined_path(dir: &str, name: &str) -> (r: String)
    ensures
        r@ == path_join(dir@, name@),
{
    let v = chars_of(dir);
    let w = chars_of(name);
    if w.len() > 0 && w[0] == '/' {
        name.to_owned()
    } else if v.len() == 0 || v[v.len() - 1] == '/' {
        dir.to_owned().concat(name)
    } else {
        dir.to_owned().concat("/").concat(name)
    }
}

/// A path with another file name in its place.
pub open spec fn path_renamed(path: Seq<char>, name: Seq<char>) -> Seq<char> {
    if name_of(path) is Some && parent_of(path) is Some {
        path_join(parent_of(path)->0, name)
    } else {
        path_join(path, name)
    }
}

/// The default name of a repacked file.
pub open spec fn repacked_name(input: Seq<char>) -> Seq<char> {
    let stem = match name_of(input) {
        Some(name) => stem_of(name),
        None => "checkpoint"@,
    };
    let ext = match path_extension(input) {
        Some(e) => e,
        None => "h5"@,
    };
    path_renamed(input, stem + ".repacked."@ + ext)
}

/// Default output name for a repack: `<stem>.repacked.<ext>` beside the input.
pub fn default_repacked_name(input: &str) -> (r: String)
    ensures
        r@ == repacked_name(input@),
{
    let ext = match extension(input) {
        Some(e) => e,
        None => "h5".to_owned(),
    };
    match name_in(input) {
        Some(name) => {
            let stem = split_name(name.as_str()).0;
            let new_name = stem.concat(".repacked.").concat(ext.as_str());
            match parent_path(input) {
                Some(dir) => joined_path(dir.as_str(), new_name.as_str()),
                None => joined_path(input, new_name.as_str()),
            }
        },
        None => {
            let new_name = "checkpoint".to_owned().concat(".repacked.").concat(ext.as_str());
            joined_path(input, new_name.as_str())
        },
    }
}

/// The directory of the first path, where all paths are in it.
pub open spec fn shared_dir(paths: Seq<Seq<char>>) -> Option<Seq<char>> {
    if paths.len() > 0 && parent_of(paths[0]) is Some && (forall|i: int|
        0 <= i < paths.len() ==> parent_of(#[trigger] paths[i]) == parent_of(paths[0])) {
        parent_of(paths[0])
    } else {
        None
    }
}

/// The directory shared by all paths, or `None` if they do not all share one.
pub fn common_dir(paths: &Vec<String>) -> (r: Option<String>)
    ensures
        match r {
            Some(s) => shared_dir(texts(paths@)) == Some(s@),
            None => shared_dir(texts(paths@)) is None,
        },
{
    let ghost all = texts(paths@);
    if paths.len() == 0 {
        return None;
    }
    proof {
        assert(all[0] == paths@[0]@);
    }
    let first = match parent_path(paths[0].as_str()) {
        Some(d) => d,
        None => {
            return None;
        },
    };
    let mut i: usize = 1;
    while i < paths.len()
        invariant
            1 <= i <= paths.len(),
            all == texts(paths@),
            parent_of(all[0]) == Some(first@),
            forall|j: int| 0 <= j < i ==> parent_of(#[trigger] all[j]) == parent_of(all[0]),
        decreases paths.len() - i,
    {
        proof {
            assert(all[i as int] == paths@[i as int]@);
        }
        match parent_path(paths[i].as_str()) {
            Some(d) => {
                if d != first {
                    return None;
                }
            },
            None => {
                return None;
            },
        }
        i = i + 1;
    }
    Some(first)
}

// ---------------------------------------------------------------------------
// Paths taken apart and put together

/// A plain name of a file: it is no separator, and not a directory's own or its parent's.
pub open spec fn is_plain(name: Seq<char>) -> bool {
    name.len() > 0 && !name.contains('/') && name != "."@ && name != ".."@
}

proof fn lemma_component_start(path: Seq<char>, from: int, n: int)
    requires
        0 <= from <= n <= path.len(),
        from == 0 || path[from - 1] == '/',
        forall|i: int| from <= i < n ==> #[trigger] path[i] != '/',
    ensures
        component_start(path, n) == from,
    decreases n - from,
{
    if n > from {
        lemma_component_start(path, from, n - 1);
    }
}

/// A name that is joined to a directory is the name of the path; the directory is its parent,
/// where it does not end in a separator or a dot; and the path's parts are those of the
/// directory and the name.
pub proof fn law_joined_paths_come_apart(dir: Seq<char>, name: Seq<char>)
    requires
        is_plain(name),
    ensures
        name_of(path_join(dir, name)) == Some(name),
        dir.len() > 0 && dir.last() != '/' && dir.last() != '.' ==> parent_of(path_join(dir, name))
            == Some(dir),
        parent_of(path_join(Seq::empty(), name)) == Some(""@),
        dir.len() > 0 && dir.last() != '/' ==> components_of(path_join(dir, name)) == components_of(
            dir,
        ).push(name),
        components_of(name) == seq![name],
{
    reveal_strlit("/");
    reveal_strlit(".");
    reveal_strlit("..");
    reveal_strlit("");
    let lead = if dir.len() == 0 || dir.last() == '/' {
        dir
    } else {
        dir + "/"@
    };
    let path = lead + name;
    let (from, n) = (lead.len() as int, path.len() as int);
    assert forall|i: int| 0 <= i < name.len() implies name[i] != '/' by {
        assert(name.contains(name[i]));
    }
    assert(name[0] != '/');
    assert(path_join(dir, name) =~= path);
    if name.len() == 1 {
        assert(name[0] != '.') by {
            if name[0] == '.' {
                assert(name =~= "."@);
            }
        }
    }
    assert(component_end(path, n) == n) by {
        assert(path[n - 1] == name[name.len() - 1]);
        if path[n - 1] == '.' && n >= 2 && path[n - 2] == '/' {
            if name.len() >= 2 {
                assert(path[n - 2] == name[name.len() - 2]);
            }
        }
    }
    lemma_component_start(path, from, n);
    assert(path.subrange(from, n) =~= name);
    if dir.len() > 0 && dir.last() != '/' && dir.last() != '.' {
        let d = dir.len() as int;
        assert(path[d] == '/');
        assert(path[d - 1] == dir.last());
        assert(component_end(path, from) == component_end(path, d));
        assert(component_end(path, d) == d);
        assert(path.take(d) =~= dir);
    }
    if dir.len() == 0 {
        assert(component_end(path, 0) == 0);
        assert(path[0] == name[0]);
    }
    let alone = Seq::<char>::empty() + name;
    assert(alone =~= name);
    assert(component_end(name, name.len() as int) == name.len()) by {
        let m = name.len() as int;
        if name[m - 1] == '.' && m >= 2 && name[m - 2] == '/' {
        }
    }
    lemma_component_start(name, 0, name.len() as int);
    assert(component_end(name, 0) == 0);
    assert(path_join(Seq::empty(), name) =~= name);
    law_joined_parts_split_again(seq![name], '/');
    assert(crate::text::join(seq![name], seq!['/']) == name);
    assert(split(name, '/') == seq![name]);
    assert(seq![name].drop_last() =~= Seq::empty());
    assert(name != ""@);
    assert(kept_pieces(Seq::<Seq<char>>::empty()) =~= Seq::empty());
    assert(seq![name].last() == name);
    assert(kept_pieces(seq![name]) =~= seq![name]);
    assert(components_of(name) =~= seq![name]);
    if dir.len() > 0 && dir.last() != '/' {
        assert(path =~= dir + seq!['/'] + name);
        law_split_at_a_separator(dir, name, '/');
        let pieces = split(dir, '/');
        assert(split(path, '/') =~= pieces.push(name));
        assert(pieces.push(name).drop_last() =~= pieces);
        assert(components_of(path) =~= components_of(dir).push(name));
    }
}

proof fn lemma_dot_between(stem: Seq<char>, ext: Seq<char>)
    requires
        !ext.contains('.'),
    ensures
        last_dot(stem + "."@ + ext) == stem.len(),
    decreases ext.len(),
{
    reveal_strlit(".");
    let name = stem + "."@ + ext;
    if ext.len() > 0 {
        assert(ext.contains(ext[ext.len() - 1]));
        assert(name.last() == ext.last());
        let t = ext.drop_last();
        assert forall|i: int| 0 <= i < t.len() implies t[i] != '.' by {
            assert(ext.contains(ext[i]));
        }
        lemma_dot_between(stem, t);
        assert(name.drop_last() =~= stem + "."@ + t);
    }
}

proof fn lemma_no_dot(name: Seq<char>)
    requires
        !name.contains('.'),
    ensures
        last_dot(name) == -1,
    decreases name.len(),
{
    if name.len() > 0 {
        assert(name.contains(name[name.len() - 1]));
        let t = name.drop_last();
        assert forall|i: int| 0 <= i < t.len() implies t[i] != '.' by {
            assert(name.contains(name[i]));
        }
        lemma_no_dot(t);
    }
}

/// A name's extension is what is behind its last dot, and its stem what is before it; a name
/// without a dot, or with none but its first character, has no extension.
pub proof fn law_extensions_are_behind_the_last_dot(stem: Seq<char>, ext: Seq<char>)
    requires
        !ext.contains('.'),
    ensures
        stem.len() > 0 && stem + "."@ + ext != ".."@ ==> extension_of(stem + "."@ + ext) == Some(ext)
            && stem_of(stem + "."@ + ext) == stem,
        extension_of(ext) is None,
        stem_of(ext) == ext,
        extension_of("."@ + ext) is None,
        stem_of("."@ + ext) == "."@ + ext,
{
    reveal_strlit(".");
    lemma_dot_between(stem, ext);
    lemma_dot_between(Seq::empty(), ext);
    lemma_no_dot(ext);
    let name = stem + "."@ + ext;
    assert(name.skip(stem.len() as int + 1) =~= ext);
    assert(name.take(stem.len() as int) =~= stem);
    assert(Seq::<char>::empty() + "."@ + ext =~= "."@ + ext);
}

/// A repacked file stands beside its source, under the source's stem and extension.
pub proof fn law_repacked_stands_beside(dir: Seq<char>, stem: Seq<char>, ext: Seq<char>)
    requires
        dir.len() > 0,
        dir.last() != '/',
        dir.last() != '.',
        stem.len() > 0,
        !stem.contains('/'),
        !ext.contains('/'),
        !ext.contains('.'),
        ext.len() > 0,
    ensures
        repacked_name(path_join(dir, stem + "."@ + ext)) == path_join(
            dir,
            stem + ".repacked."@ + ext,
        ),
{
    reveal_strlit(".");
    reveal_strlit("..");
    let name = stem + "."@ + ext;
    assert(!name.contains('/')) by {
        if name.contains('/') {
            let i = name.index_of('/');
            if i < stem.len() {
                assert(stem[i] == '/');
            } else if i > stem.len() {
                assert(ext[i - stem.len() - 1] == '/');
            }
        }
    }
    assert(name != ".."@) by {
        assert(ext.contains(ext[ext.len() - 1]));
        assert(name.last() == ext.last());
        if name == ".."@ {
            assert(".."@[1] == '.');
            assert(name[1] == '.');
        }
    }
    assert(name.len() >= 3 || name != "."@);
    law_joined_paths_come_apart(dir, name);
    law_extensions_are_behind_the_last_dot(stem, ext);
}

} // verus!
