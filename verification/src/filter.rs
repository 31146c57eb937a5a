//! Which tensors a comparison is restricted to.
use vstd::prelude::*;

use crate::diff::{difference, no_extras, row_in, shared, ChangeModel, MetaModel};
use crate::diff::{CheckpointSummary, NoKey, SigModel, TensorSig};
use crate::diff_laws::{lemma_changes_narrow, lemma_filter_ascends};
use crate::health::{name_set, set_of};
use crate::inputs::{trim, trimmed};
use crate::namemap::{has_row, lemma_unique, names_ascend, row_value, NameMap};
use crate::order::text_order;
use crate::prompts::optional;
use crate::schema::ChangeKey;
use crate::text::{add_line, add_lines, chars_of, decimal, decimal_string, join, joined};
use crate::text::{law_ended_lines_are_read_back, law_joined_parts_split_again, lines, lines_of};
use crate::text::{split, split_on, terminated, texts};
use crate::units::{number_strings, number_texts};

verus! {

/// Whether `text` matches the glob `pattern`, where with `separators` a `/` is matched
/// by a `/` alone. `None` where the pattern is malformed.
pub uninterp spec fn glob_match(pattern: Seq<char>, text: Seq<char>, separators: bool) -> Option<bool>;

/// What is wrong with the glob `pattern`, if anything.
pub uninterp spec fn glob_fault(pattern: Seq<char>) -> Option<Seq<char>>;

/// A string with every character in upper case.
pub uninterp spec fn uppercase(s: Seq<char>) -> Seq<char>;

/// Calls `glob::Pattern::new` and, on what it gives, `glob::Pattern::matches_with`
/// with the options of `glob::MatchOptions::new()` but for `require_literal_separator`.
/// The result is `glob_match` of the arguments; it is `None` exactly where
/// `Pattern::new` rejects the pattern, whatever the text.
#[verifier::external_body]
fn match_glob(pattern: &str, text: &str, separators: bool) -> (r: Option<bool>)
    ensures
        r == glob_match(pattern@, text@, separators),
        r is None <==> glob_fault(pattern@) is Some,
{
    let options = glob::MatchOptions {
        case_sensitive: true,
        require_literal_separator: separators,
        require_literal_leading_dot: false,
    };
    match glob::Pattern::new(pattern) {
        Ok(p) => Some(p.matches_with(text, options)),
        Err(_) => None,
    }
}

/// Calls `glob::Pattern::new`. The result is the text of the error that it returns, by
/// the name `glob_fault`, or `None` where it accepts the pattern.
#[verifier::external_body]
fn check_glob(pattern: &str) -> (r: Option<String>)
    ensures
        (match r {
            Some(s) => Some(s@),
            None => None,
        }) == glob_fault(pattern@),
{
    match glob::Pattern::new(pattern) {
        Ok(_) => None,
        Err(e) => Some(format!("{e}")),
    }
}

/// Calls `str::to_uppercase`, whose result is named `uppercase`.
#[verifier::external_body]
pub(crate) fn to_upper(s: &str) -> (r: String)
    ensures
        r@ == uppercase(s@),
{
    s.to_uppercase()
}

/// A shape as a path, one dimension to a component.
pub open spec fn shape_path(shape: Seq<usize>) -> Seq<char> {
    join(number_texts(shape), "/"@)
}

/// A shape as a path that a glob can match: `*` stands for one dimension, `**` for any
/// number.
pub fn shape_key(shape: &[usize]) -> (r: String)
    ensures
        r@ == shape_path(shape@),
{
    let parts = number_strings(shape);
    joined(&parts, "/")
}

/// A selection of tensors. A tensor is kept if it satisfies every constraint that is
/// given.
#[derive(Debug)]
pub struct TensorFilter {
    /// Name globs; a tensor passes if it matches any (none: no constraint).
    pub name_globs: Vec<String>,
    /// Exact names.
    pub names_exact: Option<NameMap<NoKey>>,
    /// A glob for the dtype in upper case.
    pub dtype: Option<String>,
    /// A glob for the shape as a path.
    pub shape: Option<String>,
}

/// Whether a constraint that is given is met.
pub open spec fn met(hit: Option<bool>) -> bool {
    hit is Some ==> hit->0
}

/// Whether all constraints that are given are met.
pub fn all_met(names: Option<bool>, exact: Option<bool>, dtype: Option<bool>, shape: Option<bool>) -> (r:
    bool)
    ensures
        r == (met(names) && met(exact) && met(dtype) && met(shape)),
{
    let a = match names {
        Some(b) => b,
        None => true,
    };
    let b = match exact {
        Some(b) => b,
        None => true,
    };
    let c = match dtype {
        Some(b) => b,
        None => true,
    };
    let d = match shape {
        Some(b) => b,
        None => true,
    };
    a && b && c && d
}

/// Whether one of the globs matches.
pub open spec fn any_glob(globs: Seq<Seq<char>>, name: Seq<char>) -> bool {
    exists|i: int|
        0 <= i < globs.len() && glob_match(#[trigger] globs[i], name, false) == Some(true)
}

/// Whether the signature on either side satisfies `hit`.
pub open spec fn either(
    old_sig: Option<SigModel>,
    new_sig: Option<SigModel>,
    hit: spec_fn(SigModel) -> bool,
) -> bool {
    (old_sig is Some && hit(old_sig->0)) || (new_sig is Some && hit(new_sig->0))
}

/// Whether a signature's dtype matches.
pub open spec fn dtype_hit(glob: Seq<char>) -> spec_fn(SigModel) -> bool {
    |s: SigModel| glob_match(glob, uppercase(s.dtype), false) == Some(true)
}

/// Whether a signature's shape matches.
pub open spec fn shape_hit(glob: Seq<char>) -> spec_fn(SigModel) -> bool {
    |s: SigModel| glob_match(glob, shape_path(s.shape), true) == Some(true)
}

/// The content of an optional signature.
pub open spec fn sig_view(s: Option<&TensorSig>) -> Option<SigModel> {
    match s {
        Some(v) => Some(v.deep_view()),
        None => None,
    }
}

/// What stands under a name, if it occurs.
pub open spec fn lookup(rows: Seq<(Seq<char>, SigModel)>, name: Seq<char>) -> Option<SigModel> {
    if has_row(rows, name) {
        Some(row_value(rows, name))
    } else {
        None
    }
}

impl Default for TensorFilter {
    /// A filter without constraints.
    fn default() -> (f: TensorFilter)
        ensures
            f.wf(),
            !f.active(),
    {
        TensorFilter { name_globs: Vec::new(), names_exact: None, dtype: None, shape: None }
    }
}

impl TensorFilter {
    pub open spec fn wf(self) -> bool {
        self.names_exact is Some ==> self.names_exact->0.wf()
    }

    pub open spec fn active(self) -> bool {
        self.name_globs.len() > 0 || self.names_exact is Some || self.dtype is Some || self.shape
            is Some
    }

    /// Whether a tensor passes every constraint.
    pub open spec fn passes(
        self,
        name: Seq<char>,
        old_sig: Option<SigModel>,
        new_sig: Option<SigModel>,
    ) -> bool {
        &&& self.name_globs.len() > 0 ==> any_glob(texts(self.name_globs@), name)
        &&& self.names_exact is Some ==> has_row(self.names_exact->0.rows(), name)
        &&& self.dtype is Some ==> either(old_sig, new_sig, dtype_hit(self.dtype->0@))
        &&& self.shape is Some ==> either(old_sig, new_sig, shape_hit(self.shape->0@))
    }

    /// Whether a row is kept, given what both sides hold.
    pub open spec fn keeps(
        self,
        old_rows: Seq<(Seq<char>, SigModel)>,
        new_rows: Seq<(Seq<char>, SigModel)>,
    ) -> spec_fn((Seq<char>, SigModel)) -> bool {
        |e: (Seq<char>, SigModel)|
            self.passes(e.0, lookup(old_rows, e.0), lookup(new_rows, e.0))
    }

    /// Whether any constraint is set.
    pub fn is_active(&self) -> (b: bool)
        ensures
            b == self.active(),
    {
        self.name_globs.len() > 0 || self.names_exact.is_some() || self.dtype.is_some()
            || self.shape.is_some()
    }

    fn name_hit(&self, name: &str) -> (r: bool)
        ensures
            r == any_glob(texts(self.name_globs@), name@),
    {
        let ghost globs = texts(self.name_globs@);
        let mut i: usize = 0;
        while i < self.name_globs.len()
            invariant
                i <= self.name_globs.len(),
                globs == texts(self.name_globs@),
                forall|j: int|
                    0 <= j < i ==> glob_match(#[trigger] globs[j], name@, false) != Some(true),
            decreases self.name_globs.len() - i,
        {
            proof {
                assert(globs[i as int] == self.name_globs@[i as int]@);
            }
            if match_glob(self.name_globs[i].as_str(), name, false) == Some(true) {
                return true;
            }
            i = i + 1;
        }
        false
    }

    /// Whether `name`, with its signature on either side, passes every constraint. A
    /// dtype or shape constraint matches if either side does.
    pub fn matches(&self, name: &str, old_sig: Option<&TensorSig>, new_sig: Option<&TensorSig>) -> (r:
        bool)
        requires
            self.wf(),
        ensures
            r == self.passes(name@, sig_view(old_sig), sig_view(new_sig)),
    {
        let names = if self.name_globs.len() > 0 {
            Some(self.name_hit(name))
        } else {
            None
        };
        let exact = match &self.names_exact {
            Some(set) => Some(set.contains_key(name)),
            None => None,
        };
        let dtype = match &self.dtype {
            Some(p) => Some(dtype_either(p.as_str(), old_sig, new_sig)),
            None => None,
        };
        let shape = match &self.shape {
            Some(p) => Some(shape_either(p.as_str(), old_sig, new_sig)),
            None => None,
        };
        all_met(names, exact, dtype, shape)
    }

    /// The entries of `own` that pass.
    fn kept(
        &self,
        own: &NameMap<TensorSig>,
        old_t: &NameMap<TensorSig>,
        new_t: &NameMap<TensorSig>,
    ) -> (r: NameMap<TensorSig>)
        requires
            self.wf(),
            own.wf(),
            old_t.wf(),
            new_t.wf(),
        ensures
            r.wf(),
            r.rows() == own.rows().filter(self.keeps(old_t.rows(), new_t.rows())),
    {
        let ghost rows = own.rows();
        let ghost keep = self.keeps(old_t.rows(), new_t.rows());
        let mut r: NameMap<TensorSig> = NameMap::new();
        let mut i: usize = 0;
        proof {
            rows.take(0).lemma_filter_len(keep);
            assert(r.rows() =~= rows.take(0).filter(keep));
        }
        while i < own.len()
            invariant
                i <= rows.len(),
                rows == own.rows(),
                self.wf(),
                own.wf(),
                old_t.wf(),
                new_t.wf(),
                keep == self.keeps(old_t.rows(), new_t.rows()),
                r.wf(),
                r.rows() == rows.take(i as int).filter(keep),
            decreases rows.len() - i,
        {
            proof {
                assert(rows.take(i + 1) =~= rows.take(i as int).push(rows[i as int]));
                rows.take(i as int).lemma_filter_push(rows[i as int], keep);
            }
            let name = own.name_at(i);
            if self.matches(name, old_t.get(name), new_t.get(name)) {
                proof {
                    if r.rows().len() > 0 {
                        let last = r.rows().last();
                        assert(r.rows().contains(last));
                        rows.take(i as int).lemma_filter_contains_rev(keep, last);
                        let j = choose|j: int| 0 <= j < i && rows.take(i as int)[j] == last;
                        assert(rows[j] == last);
                        assert(text_order(rows[j].0, rows[i as int].0) < 0);
                    }
                }
                r.push(name.to_owned(), own.value_at(i).dup());
            }
            i = i + 1;
        }
        proof {
            assert(rows.take(i as int) =~= rows);
        }
        r
    }

    /// Restrict both summaries to the tensors that pass. A tensor that is on one side
    /// only is kept if it passes, and still shows as added or removed.
    pub fn apply(&self, old_sum: &mut CheckpointSummary, new_sum: &mut CheckpointSummary)
        requires
            self.wf(),
            old(old_sum).wf(),
            old(new_sum).wf(),
        ensures
            final(old_sum).wf(),
            final(new_sum).wf(),
            final(old_sum).metadata == old(old_sum).metadata,
            final(new_sum).metadata == old(new_sum).metadata,
            !self.active() ==> final(old_sum).tensors == old(old_sum).tensors,
            !self.active() ==> final(new_sum).tensors == old(new_sum).tensors,
            self.active() ==> final(old_sum).tensors.rows() == old(old_sum).tensors.rows().filter(
                self.keeps(old(old_sum).tensors.rows(), old(new_sum).tensors.rows()),
            ),
            self.active() ==> final(new_sum).tensors.rows() == old(new_sum).tensors.rows().filter(
                self.keeps(old(old_sum).tensors.rows(), old(new_sum).tensors.rows()),
            ),
    {
        if !self.is_active() {
            return;
        }
        let a = self.kept(&old_sum.tensors, &old_sum.tensors, &new_sum.tensors);
        let b = self.kept(&new_sum.tensors, &old_sum.tensors, &new_sum.tensors);
        old_sum.tensors = a;
        new_sum.tensors = b;
    }

    /// The parts of the description, one for each constraint.
    pub open spec fn description(self) -> Seq<Seq<char>> {
        (if self.name_globs.len() > 0 {
            seq!["name~"@ + join(texts(self.name_globs@), "|"@)]
        } else {
            seq![]
        }) + (match self.names_exact {
            Some(set) => seq!["names("@ + decimal(set.rows().len()) + ")"@],
            None => seq![],
        }) + (match self.dtype {
            Some(p) => seq!["dtype~"@ + p@],
            None => seq![],
        }) + (match self.shape {
            Some(p) => seq!["shape~"@ + with_commas(p@)],
            None => seq![],
        })
    }

    /// The active constraints in one line, or `None` when there are none.
    pub fn describe(&self) -> (r: Option<String>)
        ensures
            match r {
                Some(s) => self.active() && s@ == join(self.description(), ", "@),
                None => !self.active(),
            },
    {
        if !self.is_active() {
            return None;
        }
        let mut parts: Vec<String> = Vec::new();
        if self.name_globs.len() > 0 {
            add_line(
                &mut parts,
                "name~".to_owned().concat(joined(&self.name_globs, "|").as_str()),
            );
        }
        if let Some(set) = &self.names_exact {
            add_line(
                &mut parts,
                "names(".to_owned().concat(decimal_string(set.len() as u128).as_str()).concat(")"),
            );
        }
        if let Some(p) = &self.dtype {
            add_line(&mut parts, "dtype~".to_owned().concat(p.as_str()));
        }
        if let Some(p) = &self.shape {
            add_line(&mut parts, "shape~".to_owned().concat(commas(p.as_str()).as_str()));
        }
        proof {
            assert(texts(parts@) =~= self.description());
        }
        Some(joined(&parts, ", "))
    }
}

fn dtype_either(glob: &str, old_sig: Option<&TensorSig>, new_sig: Option<&TensorSig>) -> (r: bool)
    ensures
        r == either(sig_view(old_sig), sig_view(new_sig), dtype_hit(glob@)),
{
    let a = match old_sig {
        Some(s) => match_glob(glob, to_upper(s.dtype.as_str()).as_str(), false) == Some(true),
        None => false,
    };
    let b = match new_sig {
        Some(s) => match_glob(glob, to_upper(s.dtype.as_str()).as_str(), false) == Some(true),
        None => false,
    };
    a || b
}

fn shape_either(glob: &str, old_sig: Option<&TensorSig>, new_sig: Option<&TensorSig>) -> (r: bool)
    ensures
        r == either(sig_view(old_sig), sig_view(new_sig), shape_hit(glob@)),
{
    let a = match old_sig {
        Some(s) => match_glob(glob, shape_key(s.shape.as_slice()).as_str(), true) == Some(true),
        None => false,
    };
    let b = match new_sig {
        Some(s) => match_glob(glob, shape_key(s.shape.as_slice()).as_str(), true) == Some(true),
        None => false,
    };
    a || b
}

/// `s` with each `/` turned into `,`.
pub open spec fn with_commas(s: Seq<char>) -> Seq<char> {
    s.map_values(
        |c: char|
            if c == '/' {
                ','
            } else {
                c
            },
    )
}

fn commas(s: &str) -> (r: String)
    ensures
        r@ == with_commas(s@),
{
    let v = chars_of(s);
    let mut r = String::new();
    let mut i: usize = 0;
    while i < v.len()
        invariant
            i <= v.len(),
            v@ == s@,
            r@ =~= with_commas(v@.take(i as int)),
        decreases v.len() - i,
    {
        if v[i] == '/' {
            r.push(',');
        } else {
            r.push(v[i]);
        }
        i = i + 1;
    }
    proof {
        assert(v@.take(i as int) =~= v@);
    }
    r
}

// ---------------------------------------------------------------------------
// Building a filter

/// A text as Rust's debug format quotes it.
pub uninterp spec fn debug_quoted(s: Seq<char>) -> Seq<char>;

/// The `Debug` format of a `str`, by `format!("{:?}")`: the text in quotes and escaped,
/// named `debug_quoted`.
#[verifier::external_body]
fn quote_debug(s: &str) -> (r: String)
    ensures
        r@ == debug_quoted(s@),
{
    format!("{s:?}")
}

/// Whether a trimmed entry counts: it is not empty, and with comments no comment.
pub open spec fn counts(entry: Seq<char>, comments: bool) -> bool {
    entry.len() > 0 && !(comments && entry[0] == '#')
}

/// The entries that count, trimmed.
pub open spec fn kept_entries(entries: Seq<Seq<char>>, comments: bool) -> Seq<Seq<char>>
    decreases entries.len(),
{
    if entries.len() == 0 {
        Seq::empty()
    } else {
        let e = trimmed(entries.last());
        if counts(e, comments) {
            kept_entries(entries.drop_last(), comments).push(e)
        } else {
            kept_entries(entries.drop_last(), comments)
        }
    }
}

/// The names in a list with commas.
pub open spec fn list_names(list: Seq<char>) -> Seq<Seq<char>> {
    kept_entries(split(list, ','), false)
}

/// The names in a file, one on a line; empty lines and those that begin with `#` are
/// left out.
pub open spec fn file_names(text: Seq<char>) -> Seq<Seq<char>> {
    kept_entries(lines_of(text), true)
}

fn keep_entries(entries: &Vec<String>, comments: bool) -> (r: Vec<String>)
    ensures
        texts(r@) == kept_entries(texts(entries@), comments),
{
    let ghost all = texts(entries@);
    let mut r: Vec<String> = Vec::new();
    let mut i: usize = 0;
    proof {
        assert(texts(r@) =~= Seq::empty());
    }
    while i < entries.len()
        invariant
            i <= entries.len(),
            all == texts(entries@),
            texts(r@) == kept_entries(all.take(i as int), comments),
        decreases entries.len() - i,
    {
        proof {
            assert(all.take(i + 1).drop_last() =~= all.take(i as int));
            assert(all.take(i + 1).last() == entries@[i as int]@);
        }
        let e = trim(entries[i].as_str());
        if e.as_str().unicode_len() > 0 && !(comments && e.as_str().get_char(0) == '#') {
            add_line(&mut r, e);
        }
        i = i + 1;
    }
    proof {
        assert(all.take(i as int) =~= all);
    }
    r
}

/// The shape as a path: commas and crosses become `/`.
pub open spec fn as_path(s: Seq<char>) -> Seq<char> {
    s.map_values(
        |c: char|
            if c == ',' || c == 'x' || c == 'X' {
                '/'
            } else {
                c
            },
    )
}

fn shape_as_path(s: &str) -> (r: String)
    ensures
        r@ == as_path(s@),
{
    let v = chars_of(s);
    let mut r = String::new();
    let mut i: usize = 0;
    while i < v.len()
        invariant
            i <= v.len(),
            v@ == s@,
            r@ =~= as_path(v@.take(i as int)),
        decreases v.len() - i,
    {
        if v[i] == ',' || v[i] == 'x' || v[i] == 'X' {
            r.push('/');
        } else {
            r.push(v[i]);
        }
        i = i + 1;
    }
    proof {
        assert(v@.take(i as int) =~= v@);
    }
    r
}

/// What is said of a malformed pattern.
pub open spec fn pattern_complaint(what: Seq<char>, given: Seq<char>, fault: Seq<char>) -> Seq<char> {
    what + debug_quoted(given) + ": "@ + fault
}

/// The complaint about the first malformed name pattern from the `i`-th on.
pub open spec fn globs_complaint(globs: Seq<Seq<char>>, i: int) -> Option<Seq<char>>
    decreases globs.len() - i,
{
    if i < 0 || i >= globs.len() {
        None
    } else {
        match glob_fault(globs[i]) {
            Some(f) => Some(pattern_complaint("invalid --name glob "@, globs[i], f)),
            None => globs_complaint(globs, i + 1),
        }
    }
}

/// The complaint about what selects tensors, if there is one: about the name patterns,
/// the names file, the dtype or the shape, in this order.
pub open spec fn filter_complaint(
    name: Seq<Seq<char>>,
    names_from: Option<Result<Seq<char>, Seq<char>>>,
    dtype_is: Option<Seq<char>>,
    shape_is: Option<Seq<char>>,
) -> Option<Seq<char>> {
    if globs_complaint(name, 0) is Some {
        globs_complaint(name, 0)
    } else if names_from is Some && names_from->0 is Err {
        Some(names_from->0->Err_0)
    } else if dtype_is is Some && glob_fault(uppercase(dtype_is->0)) is Some {
        Some(
            pattern_complaint(
                "invalid --dtype-is glob "@,
                dtype_is->0,
                glob_fault(uppercase(dtype_is->0))->0,
            ),
        )
    } else if shape_is is Some && glob_fault(as_path(shape_is->0)) is Some {
        Some(
            pattern_complaint(
                "invalid --shape-is pattern "@,
                shape_is->0,
                glob_fault(as_path(shape_is->0))->0,
            ),
        )
    } else {
        None
    }
}

/// The text of a file that was to be read, or why it could not be.
pub open spec fn file_text(f: Option<Result<String, String>>) -> Option<Result<Seq<char>, Seq<char>>> {
    match f {
        Some(Ok(s)) => Some(Ok(s@)),
        Some(Err(e)) => Some(Err(e@)),
        None => None,
    }
}

/// A text that may be missing.
pub open spec fn given(s: Option<&str>) -> Option<Seq<char>> {
    match s {
        Some(t) => Some(t@),
        None => None,
    }
}

/// The names in a list, where there is one.
pub open spec fn listed(names: Option<Seq<char>>, file: Option<Result<Seq<char>, Seq<char>>>) -> Seq<
    Seq<char>,
> {
    (match names {
        Some(l) => list_names(l),
        None => Seq::empty(),
    }) + (match file {
        Some(Ok(t)) => file_names(t),
        _ => Seq::empty(),
    })
}

fn copy_names(v: &Vec<String>) -> (r: Vec<String>)
    ensures
        texts(r@) == texts(v@),
{
    let mut r: Vec<String> = Vec::new();
    let mut i: usize = 0;
    while i < v.len()
        invariant
            i <= v.len(),
            texts(r@) =~= texts(v@).take(i as int),
        decreases v.len() - i,
    {
        add_line(&mut r, v[i].clone());
        i = i + 1;
    }
    proof {
        assert(texts(r@) =~= texts(v@));
    }
    r
}

/// Build the filter that the options of a comparison ask for: name patterns, a list of
/// names, a file of names (its text, or why it could not be read), a dtype pattern in
/// which case does not matter, and a shape pattern.
pub fn build_tensor_filter(
    name: &Vec<String>,
    names: Option<&str>,
    names_from: &Option<Result<String, String>>,
    dtype_is: Option<&str>,
    shape_is: Option<&str>,
) -> (r: Result<TensorFilter, String>)
    ensures
        ({
            let complaint = filter_complaint(
                texts(name@),
                file_text(*names_from),
                given(dtype_is),
                given(shape_is),
            );
            match r {
                Err(e) => complaint == Some(e@),
                Ok(f) => {
                    &&& complaint is None
                    &&& f.wf()
                    &&& texts(f.name_globs@) == texts(name@)
                    &&& match f.names_exact {
                        Some(set) => (names is Some || names_from is Some) && set.rows()
                            == name_set(listed(given(names), file_text(*names_from))),
                        None => names is None && names_from is None,
                    }
                    &&& optional(f.dtype) == match dtype_is {
                        Some(d) => Some(uppercase(d@)),
                        None => None,
                    }
                    &&& optional(f.shape) == match shape_is {
                        Some(s) => Some(as_path(s@)),
                        None => None,
                    }
                },
            }
        }),
{
    let ghost all = texts(name@);
    let mut i: usize = 0;
    while i < name.len()
        invariant
            i <= name.len(),
            all == texts(name@),
            globs_complaint(all, i as int) == globs_complaint(all, 0),
        decreases name.len() - i,
    {
        proof {
            assert(all[i as int] == name@[i as int]@);
        }
        if let Some(fault) = check_glob(name[i].as_str()) {
            return Err(
                "invalid --name glob ".to_owned().concat(
                    quote_debug(name[i].as_str()).as_str(),
                ).concat(": ").concat(fault.as_str()),
            );
        }
        i = i + 1;
    }
    let mut exact: Vec<String> = Vec::new();
    proof {
        assert(texts(exact@) =~= Seq::empty());
    }
    if let Some(list) = names {
        let v = chars_of(list);
        exact = keep_entries(&split_on(&v, ','), false);
    }
    let ghost from_list = texts(exact@);
    match names_from {
        Some(Ok(text)) => {
            let more = keep_entries(&lines(text.as_str()), true);
            add_lines(&mut exact, more);
        },
        Some(Err(e)) => {
            return Err(e.clone());
        },
        None => {
            proof {
                assert(from_list + Seq::<Seq<char>>::empty() =~= from_list);
            }
        },
    }
    proof {
        assert(texts(exact@) =~= listed(given(names), file_text(*names_from)));
    }
    let names_exact = if names.is_some() || names_from.is_some() {
        Some(set_of(&exact))
    } else {
        None
    };
    let dtype = match dtype_is {
        Some(d) => {
            let upper = to_upper(d);
            if let Some(fault) = check_glob(upper.as_str()) {
                return Err(
                    "invalid --dtype-is glob ".to_owned().concat(quote_debug(d).as_str()).concat(
                        ": ",
                    ).concat(fault.as_str()),
                );
            }
            Some(upper)
        },
        None => None,
    };
    let shape = match shape_is {
        Some(s) => {
            let path = shape_as_path(s);
            if let Some(fault) = check_glob(path.as_str()) {
                return Err(
                    "invalid --shape-is pattern ".to_owned().concat(
                        quote_debug(s).as_str(),
                    ).concat(": ").concat(fault.as_str()),
                );
            }
            Some(path)
        },
        None => None,
    };
    Ok(TensorFilter { name_globs: copy_names(name), names_exact, dtype, shape })
}

// ---------------------------------------------------------------------------
// What a filter does to a comparison

proof fn lemma_filter_swap<T>(
    s: Seq<T>,
    keep: spec_fn(T) -> bool,
    q: spec_fn(T) -> bool,
    r: spec_fn(T) -> bool,
)
    requires
        forall|e: T| #[trigger] keep(e) ==> q(e) == r(e),
    ensures
        s.filter(keep).filter(q) == s.filter(r).filter(keep),
    decreases s.len(),
{
    if s.len() > 0 {
        let t = s.drop_last();
        let x = s.last();
        lemma_filter_swap(t, keep, q, r);
        assert(s =~= t.push(x));
        t.lemma_filter_push(x, keep);
        t.lemma_filter_push(x, r);
        t.filter(keep).lemma_filter_push(x, q);
        t.filter(r).lemma_filter_push(x, keep);
    } else {
        s.lemma_filter_len(keep);
        s.lemma_filter_len(r);
        assert(s.filter(keep) =~= s);
        assert(s.filter(r) =~= s);
        s.lemma_filter_len(q);
        assert(s.filter(q) =~= s);
    }
}

impl TensorFilter {
    /// A name that passes is still there after filtering, where it was there before.
    proof fn lemma_passing_stays(
        self,
        a: Seq<(Seq<char>, SigModel)>,
        b: Seq<(Seq<char>, SigModel)>,
        rows: Seq<(Seq<char>, SigModel)>,
        name: Seq<char>,
    )
        requires
            self.passes(name, lookup(a, name), lookup(b, name)),
        ensures
            has_row(rows.filter(self.keeps(a, b)), name) == has_row(rows, name),
    {
        let keep = self.keeps(a, b);
        let kept = rows.filter(keep);
        if has_row(rows, name) {
            let i = choose|i: int| 0 <= i < rows.len() && (#[trigger] rows[i]).0 == name;
            assert(keep(rows[i]));
            rows.lemma_filter_contains(keep, i);
            let j = choose|j: int| 0 <= j < kept.len() && kept[j] == rows[i];
            assert(kept[j].0 == name);
        }
        if has_row(kept, name) {
            let j = choose|j: int| 0 <= j < kept.len() && (#[trigger] kept[j]).0 == name;
            assert(kept.contains(kept[j]));
            rows.lemma_filter_contains_rev(keep, kept[j]);
            let i = choose|i: int| 0 <= i < rows.len() && rows[i] == kept[j];
            assert(rows[i].0 == name);
        }
    }
}

/// Whether a change is kept, given what both sides hold.
pub open spec fn keeps_change(
    f: TensorFilter,
    a: Seq<(Seq<char>, SigModel)>,
    b: Seq<(Seq<char>, SigModel)>,
) -> spec_fn(ChangeModel) -> bool {
    |c: ChangeModel| f.passes(c.name, lookup(a, c.name), lookup(b, c.name))
}

/// Comparing what a filter leaves gives what the filter leaves of the comparison, in the
/// same order: a tensor on one side only is shown as removed, or as added, where it
/// passes, and not otherwise; a tensor on both sides that changed is shown where it
/// passes; metadata is compared as before.
pub proof fn law_filter_narrows_the_comparison(
    f: TensorFilter,
    a: Seq<(Seq<char>, SigModel)>,
    b: Seq<(Seq<char>, SigModel)>,
    old_m: Seq<(Seq<char>, MetaModel)>,
    new_m: Seq<(Seq<char>, MetaModel)>,
)
    requires
        names_ascend(a),
        names_ascend(b),
    ensures
        ({
            let (fa, fb) = (a.filter(f.keeps(a, b)), b.filter(f.keeps(a, b)));
            let all = difference(a, b, old_m, new_m, no_extras(shared(a, b).len()));
            let kept = difference(fa, fb, old_m, new_m, no_extras(shared(fa, fb).len()));
            &&& kept.tensors_removed == all.tensors_removed.filter(f.keeps(a, b))
            &&& kept.tensors_added == all.tensors_added.filter(f.keeps(a, b))
            &&& kept.tensors_changed == all.tensors_changed.filter(keeps_change(f, a, b))
            &&& shared(fa, fb) == shared(a, b).filter(f.keeps(a, b))
            &&& kept.meta_removed == all.meta_removed
            &&& kept.meta_added == all.meta_added
            &&& kept.meta_changed == all.meta_changed
            &&& kept.meta_unchanged == all.meta_unchanged
        }),
{
    let keep = f.keeps(a, b);
    let (fa, fb) = (a.filter(keep), b.filter(keep));
    assert forall|e: (Seq<char>, SigModel)| #[trigger] keep(e) implies row_in(fb, false)(e) == row_in(
        b,
        false,
    )(e) && row_in(fa, false)(e) == row_in(a, false)(e) && row_in(fb, true)(e) == row_in(b, true)(
        e,
    ) by {
        f.lemma_passing_stays(a, b, b, e.0);
        f.lemma_passing_stays(a, b, a, e.0);
    }
    lemma_filter_swap(a, keep, row_in(fb, false), row_in(b, false));
    lemma_filter_swap(b, keep, row_in(fa, false), row_in(a, false));
    lemma_filter_swap(a, keep, row_in(fb, true), row_in(b, true));
    let both = shared(a, b);
    assert forall|e: (Seq<char>, SigModel)| #[trigger] both.contains(e) && keep(e) implies row_value(
        fb,
        e.0,
    ) == row_value(b, e.0) by {
        a.lemma_filter_contains_rev(row_in(b, true), e);
        let k = choose|k: int| 0 <= k < both.len() && both[k] == e;
        broadcast use vstd::seq_lib::group_filter_ensures;

        assert(row_in(b, true)(both[k]));
        let j = choose|j: int| 0 <= j < b.len() && (#[trigger] b[j]).0 == e.0;
        assert(keep(b[j]));
        b.lemma_filter_contains(keep, j);
        let i = choose|i: int| 0 <= i < fb.len() && fb[i] == b[j];
        lemma_filter_ascends(b, keep);
        lemma_unique(fb, e.0, i);
        lemma_unique(b, e.0, j);
    }
    lemma_changes_narrow(both, keep, keeps_change(f, a, b), b, fb);
}

// ---------------------------------------------------------------------------
// What a filter keeps

/// A filter without constraints keeps every tensor. One with several keeps what each of them
/// alone keeps. Which side is old makes no difference.
pub proof fn law_constraints_are_all_met(
    f: TensorFilter,
    globs: TensorFilter,
    exact: TensorFilter,
    dtype: TensorFilter,
    shape: TensorFilter,
    name: Seq<char>,
    a: Option<SigModel>,
    b: Option<SigModel>,
)
    requires
        globs.name_globs == f.name_globs && globs.names_exact is None && globs.dtype is None
            && globs.shape is None,
        exact.name_globs.len() == 0 && exact.names_exact == f.names_exact && exact.dtype is None
            && exact.shape is None,
        dtype.name_globs.len() == 0 && dtype.names_exact is None && dtype.dtype == f.dtype
            && dtype.shape is None,
        shape.name_globs.len() == 0 && shape.names_exact is None && shape.dtype is None
            && shape.shape == f.shape,
    ensures
        f.passes(name, a, b) <==> globs.passes(name, a, b) && exact.passes(name, a, b)
            && dtype.passes(name, a, b) && shape.passes(name, a, b),
        f.passes(name, a, b) == f.passes(name, b, a),
        !f.active() ==> f.passes(name, a, b),
{
}

/// A tensor passes name globs where one of them matches its name, exact names where its name
/// is among them; a dtype or a shape where the signature on one side has it, and of a single
/// signature where the glob matches its dtype in upper case, or its dimensions with slashes
/// between them.
pub proof fn law_constraints_look_at_the_tensor(
    f: TensorFilter,
    name: Seq<char>,
    a: SigModel,
    b: SigModel,
)
    ensures
        f.name_globs.len() > 0 && f.passes(name, Some(a), Some(b)) ==> exists|i: int|
            0 <= i < f.name_globs.len() && glob_match((#[trigger] f.name_globs@[i])@, name, false)
                == Some(true),
        f.names_exact is Some && f.passes(name, Some(a), Some(b)) ==> exists|i: int|
            0 <= i < f.names_exact->0.rows().len() && (#[trigger] f.names_exact->0.rows()[i]).0
                == name,
        f.name_globs.len() == 0 && f.names_exact is None && f.shape is None && f.dtype is Some ==> {
            &&& f.passes(name, Some(a), None) <==> glob_match(f.dtype->0@, uppercase(a.dtype), false)
                == Some(true)
            &&& f.passes(name, Some(a), Some(b)) <==> f.passes(name, Some(a), None) || f.passes(
                name,
                None,
                Some(b),
            )
            &&& !f.passes(name, None, None)
        },
        f.name_globs.len() == 0 && f.names_exact is None && f.dtype is None && f.shape is Some ==> {
            &&& f.passes(name, Some(a), None) <==> glob_match(
                f.shape->0@,
                join(a.shape.map_values(|n: usize| decimal(n as nat)), "/"@),
                true,
            ) == Some(true)
            &&& f.passes(name, Some(a), Some(b)) <==> f.passes(name, Some(a), None) || f.passes(
                name,
                None,
                Some(b),
            )
            &&& !f.passes(name, None, None)
        },
        forall|i: int|
            0 <= i < f.name_globs.len() && f.names_exact is None && f.dtype is None && f.shape is None
                && glob_match((#[trigger] f.name_globs@[i])@, name, false) == Some(true)
                ==> f.passes(name, Some(a), Some(b)),
        forall|i: int|
            f.names_exact is Some && 0 <= i < f.names_exact->0.rows().len() && f.name_globs.len()
                == 0 && f.dtype is None && f.shape is None && (
            #[trigger] f.names_exact->0.rows()[i]).0 == name ==> f.passes(name, Some(a), Some(b)),
{
    let globs = texts(f.name_globs@);
    assert(a.shape.map_values(|n: usize| decimal(n as nat)) =~= number_texts(a.shape));
    if f.name_globs.len() > 0 && f.passes(name, Some(a), Some(b)) {
        let i = choose|i: int|
            0 <= i < globs.len() && glob_match(#[trigger] globs[i], name, false) == Some(true);
        assert(globs[i] == f.name_globs@[i]@);
    }
    assert forall|i: int|
        0 <= i < f.name_globs.len() && f.names_exact is None && f.dtype is None && f.shape is None
            && glob_match((#[trigger] f.name_globs@[i])@, name, false) == Some(true) implies f.passes(
        name,
        Some(a),
        Some(b),
    ) by {
        assert(globs[i] == f.name_globs@[i]@);
    }
}

/// Filtering keeps of both sides exactly the tensors that pass, with what they hold; a tensor
/// on both sides is kept on both or on neither.
pub proof fn law_filtering_keeps_what_passes(
    f: TensorFilter,
    a: Seq<(Seq<char>, SigModel)>,
    b: Seq<(Seq<char>, SigModel)>,
    i: int,
)
    requires
        names_ascend(a),
        names_ascend(b),
        0 <= i < a.len(),
    ensures
        ({
            let alone = forall|j: int| 0 <= j < b.len() ==> (#[trigger] b[j]).0 != a[i].0;
            &&& alone ==> (a.filter(f.keeps(a, b)).contains(a[i]) <==> f.passes(
                a[i].0,
                Some(a[i].1),
                None,
            ))
            &&& forall|j: int|
                0 <= j < b.len() && (#[trigger] b[j]).0 == a[i].0 ==> (a.filter(
                    f.keeps(a, b),
                ).contains(a[i]) <==> f.passes(a[i].0, Some(a[i].1), Some(b[j].1))) && (a.filter(
                    f.keeps(a, b),
                ).contains(a[i]) <==> b.filter(f.keeps(a, b)).contains(b[j]))
        }),
{
    broadcast use vstd::seq_lib::group_filter_ensures;

    let keep = f.keeps(a, b);
    let (fa, fb) = (a.filter(keep), b.filter(keep));
    lemma_unique(a, a[i].0, i);
    assert(has_row(a, a[i].0));
    assert(fa.contains(a[i]) <==> keep(a[i])) by {
        if fa.contains(a[i]) {
            let k = fa.index_of(a[i]);
            assert(keep(fa[k]));
        }
        if keep(a[i]) {
            a.lemma_filter_contains(keep, i);
        }
    }
    assert forall|j: int| 0 <= j < b.len() && (#[trigger] b[j]).0 == a[i].0 implies (fa.contains(a[i])
        <==> f.passes(a[i].0, Some(a[i].1), Some(b[j].1))) && (fa.contains(a[i]) <==> fb.contains(
        b[j],
    )) by {
        lemma_unique(b, b[j].0, j);
        assert(has_row(b, b[j].0));
        if fb.contains(b[j]) {
            let k = fb.index_of(b[j]);
            assert(keep(fb[k]));
        }
        if keep(b[j]) {
            b.lemma_filter_contains(keep, j);
        }
    }
}

/// Names without commas, line feeds or white space at their ends are read from a list of
/// them as they are; from a file too, where none of them begins with `#`.
pub proof fn law_listed_names_are_read(names: Seq<Seq<char>>)
    requires
        names.len() > 0,
        forall|i: int|
            0 <= i < names.len() ==> (#[trigger] names[i]).len() > 0 && trimmed(names[i]) == names[i]
                && !names[i].contains(',') && !names[i].contains('\n') && names[i].last() != '\r',
    ensures
        list_names(join(names, ","@)) == names,
        (forall|i: int| 0 <= i < names.len() ==> (#[trigger] names[i])[0] != '#') ==> file_names(
            terminated(names),
        ) == names,
{
    reveal_strlit(",");
    assert(","@ =~= seq![',']);
    law_joined_parts_split_again(names, ',');
    lemma_kept_whole(names, false);
    law_ended_lines_are_read_back(names);
    if forall|i: int| 0 <= i < names.len() ==> (#[trigger] names[i])[0] != '#' {
        lemma_kept_whole(names, true);
    }
}

/// Lines of a file of names that are empty, or white, or begin with `#`, are left out, and
/// no others.
pub proof fn law_counting_lines(entries: Seq<Seq<char>>, e: Seq<char>)
    ensures
        trimmed(e).len() == 0 || trimmed(e)[0] == '#' ==> kept_entries(entries.push(e), true)
            == kept_entries(entries, true),
        trimmed(e).len() > 0 && trimmed(e)[0] != '#' ==> kept_entries(entries.push(e), true)
            == kept_entries(entries, true).push(trimmed(e)),
        trimmed(e).len() == 0 ==> kept_entries(entries.push(e), false) == kept_entries(
            entries,
            false,
        ),
        trimmed(e).len() > 0 ==> kept_entries(entries.push(e), false) == kept_entries(
            entries,
            false,
        ).push(trimmed(e)),
{
    assert(entries.push(e).drop_last() =~= entries);
}

proof fn lemma_kept_whole(names: Seq<Seq<char>>, comments: bool)
    requires
        forall|i: int|
            0 <= i < names.len() ==> (#[trigger] names[i]).len() > 0 && trimmed(names[i]) == names[i]
                && (comments ==> names[i][0] != '#'),
    ensures
        kept_entries(names, comments) == names,
    decreases names.len(),
{
    if names.len() > 0 {
        let t = names.drop_last();
        assert forall|i: int| 0 <= i < t.len() implies (#[trigger] t[i]).len() > 0 && trimmed(t[i])
            == t[i] && (comments ==> t[i][0] != '#') by {
            assert(t[i] == names[i]);
        }
        lemma_kept_whole(t, comments);
        assert(names[names.len() - 1] == names.last());
        assert(t.push(names.last()) =~= names);
    } else {
        assert(kept_entries(names, comments) =~= names);
    }
}

/// A shape pattern may have commas or crosses between its dimensions: it stands for the same
/// path, and the path is shown with commas.
pub proof fn law_shape_patterns_are_paths(s: Seq<char>)
    requires
        !s.contains(','),
        !s.contains('x'),
        !s.contains('X'),
    ensures
        as_path(s) == s,
        as_path(with_commas(s)) == s,
        as_path(
            s.map_values(
                |c: char|
                    if c == '/' {
                        'x'
                    } else {
                        c
                    },
            ),
        ) == s,
        !with_commas(s).contains('/'),
{
    assert forall|i: int| 0 <= i < s.len() implies s[i] != ',' && s[i] != 'x' && s[i] != 'X' by {
        assert(s.contains(s[i]));
    }
    assert(as_path(s) =~= s);
    assert(as_path(with_commas(s)) =~= s);
    assert(as_path(
        s.map_values(
            |c: char|
                if c == '/' {
                    'x'
                } else {
                    c
                },
        ),
    ) =~= s);
}

/// The first thing that is wrong is complained of: a name pattern, the names file, the dtype
/// pattern, the shape pattern; nothing is complained of where nothing is wrong.
pub proof fn law_first_fault_is_complained_of(
    names: Seq<Seq<char>>,
    file: Option<Result<Seq<char>, Seq<char>>>,
    dtype: Option<Seq<char>>,
    shape: Option<Seq<char>>,
)
    ensures
        filter_complaint(names, file, dtype, shape) is None <==> (forall|i: int|
            0 <= i < names.len() ==> glob_fault(#[trigger] names[i]) is None) && !(file is Some
            && file->0 is Err) && (dtype is Some ==> glob_fault(uppercase(dtype->0)) is None) && (
        shape is Some ==> glob_fault(as_path(shape->0)) is None),
        forall|i: int|
            0 <= i < names.len() && glob_fault(#[trigger] names[i]) is Some && (forall|j: int|
                0 <= j < i ==> glob_fault(#[trigger] names[j]) is None) ==> filter_complaint(
                names,
                file,
                dtype,
                shape,
            ) == Some(
                "invalid --name glob "@ + debug_quoted(names[i]) + ": "@ + glob_fault(names[i])->0,
            ),
{
    lemma_globs_complaint(names, 0);
    assert forall|i: int|
        0 <= i < names.len() && glob_fault(#[trigger] names[i]) is Some && (forall|j: int|
            0 <= j < i ==> glob_fault(#[trigger] names[j]) is None) implies filter_complaint(
        names,
        file,
        dtype,
        shape,
    ) == Some(
        "invalid --name glob "@ + debug_quoted(names[i]) + ": "@ + glob_fault(names[i])->0,
    ) by {
        lemma_first_fault(names, 0, i);
    }
}

proof fn lemma_globs_complaint(globs: Seq<Seq<char>>, from: int)
    requires
        0 <= from,
    ensures
        globs_complaint(globs, from) is None <==> forall|i: int|
            from <= i < globs.len() ==> glob_fault(#[trigger] globs[i]) is None,
    decreases globs.len() - from,
{
    if from < globs.len() && glob_fault(globs[from]) is None {
        lemma_globs_complaint(globs, from + 1);
    }
}

proof fn lemma_first_fault(globs: Seq<Seq<char>>, from: int, i: int)
    requires
        0 <= from <= i < globs.len(),
        glob_fault(globs[i]) is Some,
        forall|j: int| from <= j < i ==> glob_fault(#[trigger] globs[j]) is None,
    ensures
        globs_complaint(globs, from) == Some(
            "invalid --name glob "@ + debug_quoted(globs[i]) + ": "@ + glob_fault(globs[i])->0,
        ),
    decreases i - from,
{
    if from < i {
        lemma_first_fault(globs, from + 1, i);
    }
}

/// A filter is described by the constraints that are given, in one order, and by no others.
pub proof fn law_descriptions_give_the_constraints(f: TensorFilter)
    ensures
        f.description().len() == 0 <==> !f.active(),
        f.name_globs.len() > 0 ==> f.description()[0] == "name~"@ + join(
            texts(f.name_globs@),
            "|"@,
        ),
        f.dtype is Some ==> f.description().contains("dtype~"@ + f.dtype->0@),
        f.shape is Some ==> f.description().last() == "shape~"@ + with_commas(f.shape->0@),
        f.names_exact is Some ==> f.description().contains(
            "names("@ + decimal(f.names_exact->0.rows().len()) + ")"@,
        ),
{
    let d = f.description();
    let n = if f.name_globs.len() > 0 {
        1int
    } else {
        0
    };
    let m = if f.names_exact is Some {
        n + 1
    } else {
        n
    };
    if f.names_exact is Some {
        assert(d[n] == "names("@ + decimal(f.names_exact->0.rows().len()) + ")"@);
    }
    if f.dtype is Some {
        assert(d[m] == "dtype~"@ + f.dtype->0@);
    }
}

} // verus!
