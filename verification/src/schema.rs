//! Names that differ only by an index, collapsed into one.
use vstd::prelude::*;

use crate::order::{lemma_order, lemma_rank_order, lemma_stable_sort, lemma_stable_sort_contains};
use crate::order::{lemma_stable_sort_map, rank_order, sort_ranked, stable_sort, text_order};
use crate::order::{compare_chars, Ranked, Rel};
use crate::text::{all_digits, chars_of, decimal, decimal_string, digit, digits_to_u64};
use crate::text::{digits_value, is_digit, join, joined, occurs, occurs_at, substring, texts};
use crate::tree::{lemma_run_length, run_length};

verus! {

// ---------------------------------------------------------------------------
// Templates

/// A name with every run of digits replaced by `{}`.
pub open spec fn template_of(s: Seq<char>) -> Seq<char>
    decreases s.len(),
{
    if s.len() == 0 {
        s
    } else if is_digit(s[0]) {
        proof {
            lemma_run_length(s, true);
        }
        "{}"@ + template_of(s.skip(run_length(s, true) as int))
    } else {
        seq![s[0]] + template_of(s.skip(1))
    }
}

/// The runs of digits in a name.
pub open spec fn runs_of(s: Seq<char>) -> Seq<Seq<char>>
    decreases s.len(),
{
    if s.len() == 0 {
        Seq::empty()
    } else if is_digit(s[0]) {
        proof {
            lemma_run_length(s, true);
        }
        let n = run_length(s, true) as int;
        seq![s.take(n)] + runs_of(s.skip(n))
    } else {
        runs_of(s.skip(1))
    }
}

/// Split a name into a template (each run of digits becomes a `{}` placeholder) and
/// the digits, so that names differing only by an index share a template.
pub fn templatize(name: &str) -> (r: (String, Vec<String>))
    ensures
        r.0@ == template_of(name@),
        texts(r.1@) == runs_of(name@),
{
    let v = chars_of(name);
    let mut template = String::new();
    let mut runs: Vec<String> = Vec::new();
    let mut i: usize = 0;
    proof {
        assert(v@.skip(0) =~= v@);
        assert(template@ + template_of(v@) =~= template_of(v@));
        assert(texts(runs@) + runs_of(v@) =~= runs_of(v@));
    }
    while i < v.len()
        invariant
            i <= v.len(),
            v@ == name@,
            template@ + template_of(v@.skip(i as int)) == template_of(v@),
            texts(runs@) + runs_of(v@.skip(i as int)) == runs_of(v@),
        decreases v.len() - i,
    {
        let ghost rest = v@.skip(i as int);
        let ghost t0 = template@;
        let ghost r0 = texts(runs@);
        proof {
            assert(rest[0] == v@[i as int]);
            assert(rest.skip(1) =~= v@.skip(i + 1));
        }
        if digit(v[i]) {
            let mut j: usize = i + 1;
            proof {
                lemma_run_length(rest, true);
            }
            while j < v.len() && digit(v[j])
                invariant
                    i < j <= v.len(),
                    rest == v@.skip(i as int),
                    run_length(rest, true) == (j - i) + run_length(v@.skip(j as int), true),
                decreases v.len() - j,
            {
                proof {
                    assert(v@.skip(j as int)[0] == v@[j as int]);
                    assert(v@.skip(j as int).skip(1) =~= v@.skip(j + 1));
                }
                j = j + 1;
            }
            proof {
                if j < v.len() {
                    assert(v@.skip(j as int)[0] == v@[j as int]);
                }
                assert(rest.take(j - i) =~= v@.subrange(i as int, j as int));
                assert(rest.skip(j - i) =~= v@.skip(j as int));
            }
            template.append("{}");
            let run = substring(&v, i, j);
            crate::text::add_line(&mut runs, run);
            proof {
                assert(t0 + ("{}"@ + template_of(v@.skip(j as int))) =~= template@ + template_of(
                    v@.skip(j as int),
                ));
                assert(r0 + (seq![run@] + runs_of(v@.skip(j as int))) =~= texts(runs@) + runs_of(
                    v@.skip(j as int),
                ));
            }
            i = j;
        } else {
            template.push(v[i]);
            proof {
                assert(t0 + (seq![rest[0]] + template_of(v@.skip(i + 1))) =~= template@ + template_of(
                    v@.skip(i + 1),
                ));
            }
            i = i + 1;
        }
    }
    proof {
        assert(v@.skip(i as int) =~= Seq::empty());
        assert(template@ + Seq::<char>::empty() =~= template@);
        assert(texts(runs@) + Seq::<Seq<char>>::empty() =~= texts(runs@));
    }
    (template, runs)
}

/// A template with its placeholders, from the left, filled in. Placeholders beyond
/// the values are left out.
pub open spec fn filled(t: Seq<char>, values: Seq<Seq<char>>) -> Seq<char>
    decreases t.len(),
{
    if t.len() == 0 {
        t
    } else if t.len() >= 2 && t[0] == '{' && t[1] == '}' {
        if values.len() > 0 {
            values[0] + filled(t.skip(2), values.skip(1))
        } else {
            filled(t.skip(2), values)
        }
    } else {
        seq![t[0]] + filled(t.skip(1), values)
    }
}

/// Fill in a template.
fn fill(template: &str, values: &Vec<String>) -> (r: String)
    ensures
        r@ == filled(template@, texts(values@)),
{
    let t = chars_of(template);
    let ghost all = texts(values@);
    let mut r = String::new();
    let mut i: usize = 0;
    let mut k: usize = 0;
    proof {
        assert(t@.skip(0) =~= t@);
        assert(all.skip(0) =~= all);
        assert(r@ + filled(t@, all) =~= filled(t@, all));
    }
    while i < t.len()
        invariant
            i <= t.len(),
            k <= values.len(),
            all == texts(values@),
            r@ + filled(t@.skip(i as int), all.skip(k as int)) == filled(t@, all),
        decreases t.len() - i,
    {
        let ghost rest = t@.skip(i as int);
        let ghost left = all.skip(k as int);
        let ghost r0 = r@;
        proof {
            assert(rest[0] == t@[i as int]);
            assert(rest.skip(1) =~= t@.skip(i + 1));
            if i + 1 < t.len() {
                assert(rest[1] == t@[i + 1]);
                assert(rest.skip(2) =~= t@.skip(i + 2));
            }
        }
        if t[i] == '{' && t.len() - i > 1 && t[i + 1] == '}' {
            if k < values.len() {
                r.append(values[k].as_str());
                proof {
                    assert(left[0] == values@[k as int]@);
                    assert(left.skip(1) =~= all.skip(k + 1));
                    assert(r0 + (left[0] + filled(rest.skip(2), left.skip(1))) =~= r@ + filled(
                        rest.skip(2),
                        left.skip(1),
                    ));
                }
                k = k + 1;
            }
            i = i + 2;
        } else {
            r.push(t[i]);
            proof {
                assert(r0 + (seq![rest[0]] + filled(rest.skip(1), left)) =~= r@ + filled(
                    rest.skip(1),
                    left,
                ));
            }
            i = i + 1;
        }
    }
    proof {
        assert(t@.skip(i as int) =~= Seq::empty());
        assert(r@ + Seq::<char>::empty() =~= r@);
    }
    r
}

/// What stands in a name at each `{}` of its template: a run of digits, or a `{}` of the
/// name's own.
pub open spec fn holes_of(s: Seq<char>) -> Seq<Seq<char>>
    decreases s.len(),
{
    if s.len() == 0 {
        Seq::empty()
    } else if is_digit(s[0]) {
        proof {
            lemma_run_length(s, true);
        }
        let n = run_length(s, true) as int;
        seq![s.take(n)] + holes_of(s.skip(n))
    } else if s.len() >= 2 && s[0] == '{' && s[1] == '}' {
        seq!["{}"@] + holes_of(s.skip(2))
    } else {
        holes_of(s.skip(1))
    }
}

/// What stands in a name at each `{}` of its template.
pub fn holes(name: &str) -> (r: Vec<String>)
    ensures
        texts(r@) == holes_of(name@),
{
    let v = chars_of(name);
    let mut r: Vec<String> = Vec::new();
    let mut i: usize = 0;
    proof {
        assert(v@.skip(0) =~= v@);
        assert(texts(r@) + holes_of(v@) =~= holes_of(v@));
    }
    while i < v.len()
        invariant
            i <= v.len(),
            v@ == name@,
            texts(r@) + holes_of(v@.skip(i as int)) == holes_of(v@),
        decreases v.len() - i,
    {
        let ghost rest = v@.skip(i as int);
        let ghost r0 = texts(r@);
        proof {
            assert(rest[0] == v@[i as int]);
            assert(rest.skip(1) =~= v@.skip(i + 1));
            if i + 1 < v.len() {
                assert(rest[1] == v@[i + 1]);
                assert(rest.skip(2) =~= v@.skip(i + 2));
            }
        }
        if digit(v[i]) {
            let mut j: usize = i + 1;
            proof {
                lemma_run_length(rest, true);
            }
            while j < v.len() && digit(v[j])
                invariant
                    i < j <= v.len(),
                    rest == v@.skip(i as int),
                    run_length(rest, true) == (j - i) + run_length(v@.skip(j as int), true),
                decreases v.len() - j,
            {
                proof {
                    assert(v@.skip(j as int)[0] == v@[j as int]);
                    assert(v@.skip(j as int).skip(1) =~= v@.skip(j + 1));
                }
                j = j + 1;
            }
            proof {
                if j < v.len() {
                    assert(v@.skip(j as int)[0] == v@[j as int]);
                }
                assert(rest.take(j - i) =~= v@.subrange(i as int, j as int));
                assert(rest.skip(j - i) =~= v@.skip(j as int));
            }
            let run = substring(&v, i, j);
            crate::text::add_line(&mut r, run);
            proof {
                assert(r0 + (seq![run@] + holes_of(v@.skip(j as int))) =~= texts(r@) + holes_of(
                    v@.skip(j as int),
                ));
            }
            i = j;
        } else if v[i] == '{' && v.len() - i > 1 && v[i + 1] == '}' {
            crate::text::add_line(&mut r, "{}".to_owned());
            proof {
                assert(r0 + (seq!["{}"@] + holes_of(v@.skip(i + 2))) =~= texts(r@) + holes_of(
                    v@.skip(i + 2),
                ));
            }
            i = i + 2;
        } else {
            i = i + 1;
        }
    }
    proof {
        assert(v@.skip(i as int) =~= Seq::empty());
        assert(texts(r@) + Seq::<Seq<char>>::empty() =~= texts(r@));
    }
    r
}

/// The template of a name with what stood at each `{}` put back is the name.
pub proof fn law_template_round_trip(s: Seq<char>)
    ensures
        filled(template_of(s), holes_of(s)) == s,
    decreases s.len(),
{
    reveal_strlit("{}");
    if s.len() > 0 {
        let t = template_of(s);
        if is_digit(s[0]) {
            lemma_run_length(s, true);
            let n = run_length(s, true) as int;
            let rest = s.skip(n);
            law_template_round_trip(rest);
            assert(t[0] == '{' && t[1] == '}');
            assert(t.skip(2) =~= template_of(rest));
            let v = holes_of(s);
            assert(v[0] == s.take(n));
            assert(v.skip(1) =~= holes_of(rest));
            assert(s =~= s.take(n) + rest);
        } else if s.len() >= 2 && s[0] == '{' && s[1] == '}' {
            let (one, two) = (s.skip(1), s.skip(2));
            law_template_round_trip(two);
            assert(one[0] == '}' && one.skip(1) =~= two);
            assert(template_of(one) == seq!['}'] + template_of(two));
            assert(t =~= seq!['{', '}'] + template_of(two));
            assert(t[0] == '{' && t[1] == '}');
            assert(t.skip(2) =~= template_of(two));
            let v = holes_of(s);
            assert(v[0] == "{}"@);
            assert(v.skip(1) =~= holes_of(two));
            assert(s =~= "{}"@ + two);
        } else {
            let rest = s.skip(1);
            law_template_round_trip(rest);
            assert(t[0] == s[0]);
            assert(t.skip(1) =~= template_of(rest));
            if t.len() >= 2 && t[0] == '{' && t[1] == '}' {
                let u = template_of(rest);
                assert(u[0] == '}');
                if is_digit(rest[0]) {
                    assert(u[0] == '{');
                }
                assert(s[1] == rest[0]);
            }
            assert(s =~= seq![s[0]] + rest);
        }
    }
}

/// A name without a `{}` of its own has its runs of digits in the holes.
pub proof fn law_holes_are_runs(s: Seq<char>)
    requires
        !occurs(s, "{}"@),
    ensures
        holes_of(s) == runs_of(s),
    decreases s.len(),
{
    reveal_strlit("{}");
    if s.len() > 0 {
        if is_digit(s[0]) {
            lemma_run_length(s, true);
            let n = run_length(s, true) as int;
            lemma_suffix_free(s, n);
            law_holes_are_runs(s.skip(n));
        } else {
            if s.len() >= 2 && s[0] == '{' && s[1] == '}' {
                assert(s.subrange(0, 2) =~= "{}"@);
                assert(occurs_at(s, "{}"@, 0));
            }
            lemma_suffix_free(s, 1);
            law_holes_are_runs(s.skip(1));
        }
    }
}

proof fn lemma_suffix_free(s: Seq<char>, n: int)
    requires
        0 <= n <= s.len(),
        !occurs(s, "{}"@),
    ensures
        !occurs(s.skip(n), "{}"@),
{
    if occurs(s.skip(n), "{}"@) {
        let i = choose|i: int| occurs_at(s.skip(n), "{}"@, i);
        assert(s.subrange(n + i, n + i + "{}"@.len()) =~= s.skip(n).subrange(i, i + "{}"@.len()));
        assert(occurs_at(s, "{}"@, n + i));
    }
}

// ---------------------------------------------------------------------------
// Ranges of indices

/// A whole number in decimal.
pub open spec fn signed(n: int) -> Seq<char> {
    if n < 0 {
        "-"@ + decimal((-n) as nat)
    } else {
        decimal(n as nat)
    }
}

/// A whole number in decimal.
pub fn signed_string(n: i128) -> (s: String)
    requires
        n > i128::MIN,
    ensures
        s@ == signed(n as int),
{
    if n < 0 {
        "-".to_owned().concat(decimal_string((-n) as u128).as_str())
    } else {
        decimal_string(n as u128)
    }
}

/// How many numbers at the front of `v` follow each other.
pub open spec fn consecutive(v: Seq<i64>) -> nat
    decreases v.len(),
{
    if v.len() == 0 {
        0
    } else if v.len() > 1 && v[1] == v[0] + 1 {
        1 + consecutive(v.skip(1))
    } else {
        1
    }
}

pub proof fn lemma_consecutive(v: Seq<i64>)
    ensures
        consecutive(v) <= v.len(),
        v.len() > 0 ==> consecutive(v) > 0,
    decreases v.len(),
{
    if v.len() > 1 {
        lemma_consecutive(v.skip(1));
    }
}

/// The numbers as comma-separated runs.
pub open spec fn ranges(v: Seq<i64>) -> Seq<char>
    decreases v.len(),
{
    if v.len() == 0 {
        Seq::empty()
    } else {
        proof {
            lemma_consecutive(v);
        }
        let n = consecutive(v) as int;
        let piece = if n == 1 {
            signed(v[0] as int)
        } else {
            signed(v[0] as int) + "-"@ + signed(v[n - 1] as int)
        };
        if n < v.len() {
            piece + ","@ + ranges(v.skip(n))
        } else {
            piece
        }
    }
}

/// Collapse a sorted list into comma-separated runs: `[0, 1, 2, 5]` becomes `0-2,5`.
pub fn compact_int_ranges(sorted: &[i64]) -> (r: String)
    ensures
        r@ == ranges(sorted@),
{
    let mut r = String::new();
    let mut i: usize = 0;
    proof {
        assert(sorted@.skip(0) =~= sorted@);
        assert(r@ + ranges(sorted@) =~= ranges(sorted@));
    }
    while i < sorted.len()
        invariant
            i <= sorted.len(),
            i < sorted.len() || i == 0 ==> r@ + ranges(sorted@.skip(i as int)) == ranges(sorted@),
            i == sorted.len() && i > 0 ==> r@ == ranges(sorted@),
        decreases sorted.len() - i,
    {
        let ghost rest = sorted@.skip(i as int);
        let ghost r0 = r@;
        let mut j: usize = i;
        proof {
            lemma_consecutive(rest);
        }
        while sorted.len() - j > 1 && sorted[j] < i64::MAX && sorted[j + 1] == sorted[j] + 1
            invariant
                i <= j < sorted.len(),
                rest == sorted@.skip(i as int),
                consecutive(rest) == (j - i) + consecutive(sorted@.skip(j as int)),
            decreases sorted.len() - j,
        {
            proof {
                let here = sorted@.skip(j as int);
                assert(here[0] == sorted@[j as int]);
                assert(here[1] == sorted@[j + 1]);
                assert(here.skip(1) =~= sorted@.skip(j + 1));
            }
            j = j + 1;
        }
        proof {
            let here = sorted@.skip(j as int);
            assert(here[0] == sorted@[j as int]);
            if here.len() > 1 {
                assert(here[1] == sorted@[j + 1]);
            }
            assert(consecutive(rest) == j - i + 1);
            assert(rest[0] == sorted@[i as int]);
            assert(rest[j - i] == sorted@[j as int]);
            assert(rest.skip(j - i + 1) =~= sorted@.skip(j + 1));
        }
        let mut piece = signed_string(sorted[i] as i128);
        if j > i {
            piece.append("-");
            piece.append(signed_string(sorted[j] as i128).as_str());
        }
        r.append(piece.as_str());
        i = j + 1;
        if i < sorted.len() {
            r.append(",");
            proof {
                assert(r0 + (piece@ + ","@ + ranges(sorted@.skip(i as int))) =~= r@ + ranges(
                    sorted@.skip(i as int),
                ));
            }
        }
    }
    r
}


/// Strings by code point.
impl Ranked for String {
    open spec fn ranks_before(self, other: String) -> bool {
        text_order(self@, other@) <= 0
    }

    proof fn lemma_ranks() {
        assert forall|x: Self, y: Self| true implies #[trigger] x.ranks_before(y) || y.ranks_before(
            x,
        ) by {
            lemma_order(x@, y@, y@);
        }
        assert forall|x: Self, y: Self, z: Self| #[trigger]
            x.ranks_before(y) && #[trigger] y.ranks_before(z) implies x.ranks_before(z) by {
            lemma_order(x@, y@, z@);
        }
    }

    fn may_precede(&self, other: &String) -> (b: bool) {
        proof {
            lemma_order(self@, other@, other@);
        }
        compare_chars(&chars_of(self.as_str()), &chars_of(other.as_str())) != Rel::Greater
    }
}

/// Numbers in ascending order.
impl Ranked for i64 {
    open spec fn ranks_before(self, other: i64) -> bool {
        self <= other
    }

    proof fn lemma_ranks() {
    }

    fn may_precede(&self, other: &i64) -> (b: bool) {
        *self <= *other
    }
}

/// Strings in ascending order.
pub open spec fn text_ascending() -> spec_fn(Seq<char>, Seq<char>) -> bool {
    |a: Seq<char>, b: Seq<char>| text_order(a, b) <= 0
}

/// A list without what equals its predecessor.
pub open spec fn without_repeats<T>(v: Seq<T>) -> Seq<T>
    decreases v.len(),
{
    if v.len() <= 1 {
        v
    } else if v[v.len() - 2] == v.last() {
        without_repeats(v.drop_last())
    } else {
        without_repeats(v.drop_last()).push(v.last())
    }
}

/// The distinct strings of a list, in ascending order.
pub open spec fn distinct(v: Seq<Seq<char>>) -> Seq<Seq<char>> {
    without_repeats(stable_sort(v, text_ascending()))
}

/// Strings in ascending order.
pub fn sort_strings(v: Vec<String>) -> (r: Vec<String>)
    ensures
        texts(r@) == stable_sort(texts(v@), text_ascending()),
{
    let ghost f = |s: String| s@;
    proof {
        lemma_rank_order::<String>();
        lemma_stable_sort_map(v@, rank_order::<String>(), f, text_ascending());
        assert(v@.map_values(f) =~= texts(v@));
    }
    let r = sort_ranked(v);
    proof {
        assert(texts(r@) =~= r@.map_values(f));
    }
    r
}

/// The distinct strings of a list, in ascending order.
pub fn distinct_strings(v: &Vec<String>) -> (r: Vec<String>)
    ensures
        texts(r@) == distinct(texts(v@)),
{
    let mut copy: Vec<String> = Vec::new();
    let mut i: usize = 0;
    while i < v.len()
        invariant
            i <= v.len(),
            copy.len() == i,
            forall|j: int| 0 <= j < i ==> (#[trigger] copy@[j])@ == v@[j]@,
        decreases v.len() - i,
    {
        copy.push(v[i].clone());
        i = i + 1;
    }
    proof {
        assert(texts(copy@) =~= texts(v@));
    }
    let ordered = sort_strings(copy);
    let ghost all = texts(ordered@);
    let mut r: Vec<String> = Vec::new();
    let mut i: usize = 0;
    proof {
        assert(texts(r@) =~= without_repeats(all.take(0)));
    }
    while i < ordered.len()
        invariant
            i <= ordered.len(),
            all == texts(ordered@),
            texts(r@) == without_repeats(all.take(i as int)),
        decreases ordered.len() - i,
    {
        proof {
            assert(all.take(i + 1).drop_last() =~= all.take(i as int));
            assert(all.take(i + 1).last() == ordered@[i as int]@);
            if i == 0 {
                assert(all.take(1) =~= Seq::empty().push(ordered@[0]@));
                assert(all.take(0) =~= Seq::empty());
            } else {
                assert(all.take(i + 1)[i - 1] == ordered@[i - 1]@);
            }
        }
        if i == 0 || ordered[i - 1] != ordered[i] {
            crate::text::add_line(&mut r, ordered[i].clone());
        }
        i = i + 1;
    }
    proof {
        assert(all.take(i as int) =~= all);
    }
    r
}

/// All strings of a list are the same one.
pub open spec fn constant(v: Seq<Seq<char>>) -> bool {
    v.len() > 0 && forall|i: int| 0 <= i < v.len() ==> #[trigger] v[i] == v[0]
}

/// The number that a string writes, where it writes one that fits in an `i64`: digits,
/// with a sign before them or none.
pub open spec fn number_in(s: Seq<char>) -> Option<i64> {
    let negative = s.len() > 0 && s[0] == '-';
    let digits = if negative || s.len() > 0 && s[0] == '+' {
        s.skip(1)
    } else {
        s
    };
    let value = digits_value(digits);
    if digits.len() == 0 || !all_digits(digits) {
        None
    } else if negative && value <= 0x8000_0000_0000_0000 {
        Some((-value) as i64)
    } else if !negative && value < 0x8000_0000_0000_0000 {
        Some(value as i64)
    } else {
        None
    }
}

/// Read a number.
fn read_number(s: &str) -> (r: Option<i64>)
    ensures
        r == number_in(s@),
{
    let v = chars_of(s);
    let negative = v.len() > 0 && v[0] == '-';
    let from: usize = if negative || v.len() > 0 && v[0] == '+' {
        1
    } else {
        0
    };
    let ghost digits = v@.skip(from as int);
    proof {
        assert(v@.skip(0) =~= v@);
        assert(v@.subrange(from as int, v@.len() as int) =~= digits);
    }
    if from == v.len() {
        return None;
    }
    let mut i: usize = from;
    while i < v.len()
        invariant
            from <= i <= v.len(),
            v@ == s@,
            negative == (v.len() > 0 && v@[0] == '-'),
            from == if negative || v.len() > 0 && v@[0] == '+' {
                1usize
            } else {
                0
            },
            digits == v@.skip(from as int),
            from == 0 ==> digits == v@,
            forall|k: int| 0 <= k < i - from ==> is_digit(#[trigger] digits[k]),
        decreases v.len() - i,
    {
        if !digit(v[i]) {
            proof {
                assert(digits[i - from] == v@[i as int]);
            }
            return None;
        }
        i = i + 1;
    }
    let most: u64 = if negative {
        0x8000_0000_0000_0000
    } else {
        0x7fff_ffff_ffff_ffff
    };
    match digits_to_u64(&v, from, v.len(), most) {
        Some(n) => Some(
            if negative {
                (0i128 - n as i128) as i64
            } else {
                n as i64
            },
        ),
        None => None,
    }
}

/// All strings write numbers.
pub open spec fn all_numbers(v: Seq<Seq<char>>) -> bool {
    forall|i: int| 0 <= i < v.len() ==> number_in(#[trigger] v[i]) is Some
}

/// The numbers that a list of strings writes, in ascending order.
pub open spec fn numbers_of(v: Seq<Seq<char>>) -> Seq<i64> {
    stable_sort(v.map_values(|s: Seq<char>| number_in(s)->0), rank_order::<i64>())
}

/// One placeholder's values: the only one, or the ranges that they make up.
pub open spec fn index_summary(v: Seq<Seq<char>>) -> Seq<char> {
    if constant(v) {
        v[0]
    } else if all_numbers(distinct(v)) {
        "{"@ + ranges(numbers_of(distinct(v))) + "}"@
    } else {
        "{"@ + join(distinct(v), ","@) + "}"@
    }
}

/// One placeholder's values as a compact string: the lone value when they are all
/// equal, else `{0-47}` or `{0-3,5}`, or `{a,b}` where they are not all numbers.
fn summarize_indices(values: &Vec<String>) -> (r: String)
    ensures
        r@ == index_summary(texts(values@)),
{
    let ghost all = texts(values@);
    if values.len() > 0 {
        let mut i: usize = 1;
        let mut equal = true;
        while i < values.len() && equal
            invariant
                1 <= i <= values.len(),
                all == texts(values@),
                equal == (forall|j: int| 0 <= j < i ==> #[trigger] all[j] == all[0]),
            decreases values.len() - i,
        {
            proof {
                assert(all[i as int] == values@[i as int]@);
                assert(all[0] == values@[0]@);
            }
            if values[i] != values[0] {
                equal = false;
            }
            i = i + 1;
        }
        if equal {
            proof {
                assert(all[0] == values@[0]@);
                assert(constant(all));
            }
            return values[0].clone();
        }
        proof {
            assert(!constant(all));
        }
    }
    let d = distinct_strings(values);
    let ghost dm = distinct(all);
    let mut nums: Vec<i64> = Vec::new();
    let mut small = true;
    let mut i: usize = 0;
    let ghost value = |s: Seq<char>| number_in(s)->0;
    while i < d.len() && small
        invariant
            i <= d.len(),
            dm == texts(d@),
            value == (|s: Seq<char>| number_in(s)->0),
            small ==> nums@ =~= dm.take(i as int).map_values(value) && forall|j: int|
                0 <= j < i ==> number_in(#[trigger] dm[j]) is Some,
            !small ==> !all_numbers(dm),
        decreases d.len() - i,
    {
        proof {
            assert(dm[i as int] == d@[i as int]@);
        }
        match read_number(d[i].as_str()) {
            Some(n) => {
                nums.push(n);
            },
            None => {
                small = false;
            },
        }
        i = i + 1;
    }
    if small {
        proof {
            assert(dm.take(i as int) =~= dm);
            assert(all_numbers(dm));
            assert(nums@ =~= dm.map_values(value));
        }
        let nums = sort_ranked(nums);
        "{".to_owned().concat(compact_int_ranges(nums.as_slice()).as_str()).concat("}")
    } else {
        "{".to_owned().concat(joined(&d, ",").as_str()).concat("}")
    }
}

// ---------------------------------------------------------------------------
// Groups

/// What entries must share, besides their template, to be collapsed.
pub trait ChangeKey: DeepView + Sized {
    fn same_as(&self, other: &Self) -> (b: bool)
        ensures
            b == (self.deep_view() == other.deep_view()),
    ;

    fn dup(&self) -> (r: Self)
        ensures
            r.deep_view() == self.deep_view(),
    ;
}

/// One collapsed run of entries.
pub struct Group<K> {
    /// What the entries share: their template, or their name.
    pub bucket: String,
    pub template: String,
    /// The values seen at each placeholder.
    pub indices: Vec<Vec<String>>,
    /// The entries, by their place in the list.
    pub members: Vec<usize>,
    pub key: K,
}

/// The mathematical content of a [`Group`].
pub struct GroupModel<M> {
    pub bucket: Seq<char>,
    pub template: Seq<char>,
    pub indices: Seq<Seq<Seq<char>>>,
    pub members: Seq<usize>,
    pub key: M,
}

/// The strings of a list of lists.
pub open spec fn text_lists(v: Seq<Vec<String>>) -> Seq<Seq<Seq<char>>> {
    v.map_values(|l: Vec<String>| texts(l@))
}

impl<K: DeepView> Group<K> {
    pub open spec fn model(self) -> GroupModel<K::V> {
        GroupModel {
            bucket: self.bucket@,
            template: self.template@,
            indices: text_lists(self.indices@),
            members: self.members@,
            key: self.key.deep_view(),
        }
    }
}

/// The models of a list of groups.
pub open spec fn group_models<K: DeepView>(v: Seq<Group<K>>) -> Seq<GroupModel<K::V>> {
    v.map_values(|g: Group<K>| g.model())
}

/// The first group with the given bucket and key.
pub open spec fn group_at<M>(gs: Seq<GroupModel<M>>, bucket: Seq<char>, key: M) -> Option<int>
    decreases gs.len(),
{
    if gs.len() == 0 {
        None
    } else {
        match group_at(gs.drop_last(), bucket, key) {
            Some(i) => Some(i),
            None => if gs.last().bucket == bucket && gs.last().key == key {
                Some(gs.len() - 1)
            } else {
                None
            },
        }
    }
}

/// A group with one more entry: what stands in its holes goes to the placeholders.
pub open spec fn with_member<M>(g: GroupModel<M>, runs: Seq<Seq<char>>, i: usize) -> GroupModel<M> {
    GroupModel {
        bucket: g.bucket,
        template: g.template,
        indices: Seq::new(
            g.indices.len(),
            |p: int|
                if p < runs.len() {
                    g.indices[p].push(runs[p])
                } else {
                    g.indices[p]
                },
        ),
        members: g.members.push(i),
        key: g.key,
    }
}

/// A group without entries, with as many placeholders as `name` has holes.
pub open spec fn fresh_group<M>(bucket: Seq<char>, name: Seq<char>, key: M) -> GroupModel<M> {
    GroupModel {
        bucket,
        template: template_of(name),
        indices: Seq::new(holes_of(name).len(), |p: int| Seq::empty()),
        members: Seq::empty(),
        key,
    }
}

/// What an entry is grouped by.
pub open spec fn bucket_of(name: Seq<char>, by_name: bool) -> Seq<char> {
    if by_name {
        name
    } else {
        template_of(name)
    }
}

/// The entries grouped by template (or name) and key, in the order in which the
/// groups first occur.
pub open spec fn collapsed<M>(items: Seq<(Seq<char>, M)>, by_name: bool) -> Seq<GroupModel<M>>
    decreases items.len(),
{
    if items.len() == 0 {
        Seq::empty()
    } else {
        let gs = collapsed(items.drop_last(), by_name);
        let i = (items.len() - 1) as usize;
        let (name, key) = items.last();
        let bucket = bucket_of(name, by_name);
        match group_at(gs, bucket, key) {
            Some(g) => gs.update(g, with_member(gs[g], holes_of(name), i)),
            None => gs.push(with_member(fresh_group(bucket, name, key), holes_of(name), i)),
        }
    }
}

/// Every entry as a group of its own.
pub open spec fn singles<M>(items: Seq<(Seq<char>, M)>) -> Seq<GroupModel<M>> {
    Seq::new(
        items.len(),
        |i: int|
            with_member(
                fresh_group(template_of(items[i].0), items[i].0, items[i].1),
                holes_of(items[i].0),
                i as usize,
            ),
    )
}

/// The models of a list of entries.
pub open spec fn entry_models<K: DeepView>(items: Seq<(String, K)>) -> Seq<(Seq<char>, K::V)> {
    items.map_values(|e: (String, K)| (e.0@, e.1.deep_view()))
}

/// Enter one more entry.
fn add_member<K: ChangeKey>(g: &mut Group<K>, runs: &Vec<String>, i: usize)
    ensures
        final(g).model() == with_member(old(g).model(), texts(runs@), i),
{
    let ghost before = g.indices@;
    let ghost bm = g.model().indices;
    let ghost rm = texts(runs@);
    let mut p: usize = 0;
    while p < g.indices.len() && p < runs.len()
        invariant
            p <= g.indices.len(),
            p <= runs.len(),
            rm == texts(runs@),
            bm == text_lists(before),
            g.indices.len() == before.len(),
            forall|j: int|
                0 <= j < p ==> texts((#[trigger] g.indices@[j])@) == bm[j].push(rm[j]),
            forall|j: int| p <= j < before.len() ==> #[trigger] g.indices@[j] == before[j],
            g.bucket == old(g).bucket,
            g.template == old(g).template,
            g.members == old(g).members,
            g.key == old(g).key,
        decreases g.indices.len() - p,
    {
        let ghost had = g.indices@[p as int]@;
        let value = runs[p].clone();
        g.indices[p].push(value);
        proof {
            assert(texts(g.indices@[p as int]@) =~= texts(had).push(value@));
            assert(bm[p as int] == texts(had));
            assert(rm[p as int] == runs@[p as int]@);
        }
        p = p + 1;
    }
    g.members.push(i);
    proof {
        let m = with_member(old(g).model(), rm, i);
        assert forall|j: int| 0 <= j < m.indices.len() implies #[trigger] g.model().indices[j]
            == m.indices[j] by {
            assert(g.model().indices[j] == texts(g.indices@[j]@));
            if j >= p {
                assert(g.indices@[j] == before[j]);
            }
        }
        assert(g.model().indices =~= m.indices);
    }
}

/// A group without entries.
fn empty_group<K: ChangeKey>(bucket: String, template: String, places: usize, key: &K) -> (g: Group<K>)
    ensures
        g.model().bucket == bucket@,
        g.model().template == template@,
        g.model().indices == Seq::new(places as nat, |p: int| Seq::<Seq<char>>::empty()),
        g.model().members == Seq::<usize>::empty(),
        g.model().key == key.deep_view(),
{
    let mut indices: Vec<Vec<String>> = Vec::new();
    let mut p: usize = 0;
    while p < places
        invariant
            p <= places,
            indices.len() == p,
            forall|j: int| 0 <= j < p ==> (#[trigger] indices@[j])@.len() == 0,
        decreases places - p,
    {
        indices.push(Vec::new());
        p = p + 1;
    }
    let g = Group { bucket, template, indices, members: Vec::new(), key: key.dup() };
    proof {
        assert forall|j: int| 0 <= j < places implies #[trigger] g.model().indices[j]
            == Seq::<Seq<char>>::empty() by {
            assert(texts(indices@[j]@) =~= Seq::empty());
        }
        assert(g.model().indices =~= Seq::new(places as nat, |p: int| Seq::<Seq<char>>::empty()));
    }
    g
}

/// Group entries by template (or name) and key in first-seen order, so that only
/// entries with the same structure and the same change merge.
pub fn collapse<K: ChangeKey>(items: &Vec<(String, K)>, by_name: bool) -> (r: Vec<Group<K>>)
    ensures
        group_models(r@) == collapsed(entry_models(items@), by_name),
{
    let ghost all = entry_models(items@);
    let mut r: Vec<Group<K>> = Vec::new();
    let mut i: usize = 0;
    proof {
        assert(all.take(0) =~= Seq::empty());
        assert(group_models(r@) =~= collapsed(all.take(0), by_name));
    }
    while i < items.len()
        invariant
            i <= items.len(),
            all == entry_models(items@),
            group_models(r@) == collapsed(all.take(i as int), by_name),
        decreases items.len() - i,
    {
        let ghost gs = group_models(r@);
        let ghost before = r@;
        let (template, _) = templatize(items[i].0.as_str());
        let runs = holes(items[i].0.as_str());
        let bucket = if by_name {
            items[i].0.clone()
        } else {
            template.clone()
        };
        proof {
            assert(all.take(i + 1).drop_last() =~= all.take(i as int));
            assert(all.take(i + 1).last() == (items@[i as int].0@, items@[i as int].1.deep_view()));
            assert(gs.take(0) =~= Seq::empty());
        }
        let ghost key = items@[i as int].1.deep_view();
        let mut g: usize = 0;
        while g < r.len() && !(r[g].bucket == bucket && r[g].key.same_as(&items[i].1))
            invariant
                g <= r.len(),
                i < items.len(),
                r@ == before,
                gs == group_models(before),
                key == items@[i as int].1.deep_view(),
                group_at(gs.take(g as int), bucket@, key) is None,
            decreases r.len() - g,
        {
            proof {
                assert(gs.take(g + 1).drop_last() =~= gs.take(g as int));
                assert(gs.take(g + 1).last() == before[g as int].model());
            }
            g = g + 1;
        }
        if g < r.len() {
            proof {
                assert(gs.take(g + 1).drop_last() =~= gs.take(g as int));
                assert(gs.take(g + 1).last() == before[g as int].model());
                lemma_group_at(gs, (g + 1) as int, bucket@, key);
            }
            add_member(&mut r[g], &runs, i);
            proof {
                assert(group_models(r@) =~= gs.update(
                    g as int,
                    with_member(gs[g as int], texts(runs@), i),
                ));
            }
        } else {
            proof {
                assert(gs.take(g as int) =~= gs);
            }
            let mut fresh = empty_group(bucket, template, runs.len(), &items[i].1);
            proof {
                assert(texts(runs@).len() == runs@.len());
                assert(fresh.model().indices =~= fresh_group(
                    bucket@,
                    items@[i as int].0@,
                    key,
                ).indices);
            }
            add_member(&mut fresh, &runs, i);
            r.push(fresh);
            proof {
                assert(group_models(r@) =~= gs.push(fresh.model()));
            }
        }
        i = i + 1;
    }
    proof {
        assert(all.take(i as int) =~= all);
    }
    r
}

proof fn lemma_group_at<M>(gs: Seq<GroupModel<M>>, n: int, bucket: Seq<char>, key: M)
    requires
        0 <= n <= gs.len(),
        group_at(gs.take(n), bucket, key) is Some,
    ensures
        group_at(gs, bucket, key) == group_at(gs.take(n), bucket, key),
    decreases gs.len(),
{
    if n < gs.len() {
        assert(gs.drop_last().take(n) =~= gs.take(n));
        lemma_group_at(gs.drop_last(), n, bucket, key);
    } else {
        assert(gs.take(n) =~= gs);
    }
}

/// Each entry as its own group.
pub fn singletons<K: ChangeKey>(items: &Vec<(String, K)>) -> (r: Vec<Group<K>>)
    ensures
        group_models(r@) == singles(entry_models(items@)),
{
    let ghost all = entry_models(items@);
    let mut r: Vec<Group<K>> = Vec::new();
    let mut i: usize = 0;
    while i < items.len()
        invariant
            i <= items.len(),
            all == entry_models(items@),
            r.len() == i,
            forall|j: int| 0 <= j < i ==> (#[trigger] r@[j]).model() == singles(all)[j],
        decreases items.len() - i,
    {
        let (template, _) = templatize(items[i].0.as_str());
        let runs = holes(items[i].0.as_str());
        let bucket = template.clone();
        let mut g = empty_group(bucket, template, runs.len(), &items[i].1);
        proof {
            assert(texts(runs@).len() == runs@.len());
            assert(g.model().indices =~= fresh_group(
                bucket@,
                items@[i as int].0@,
                items@[i as int].1.deep_view(),
            ).indices);
        }
        add_member(&mut g, &runs, i);
        let ghost before = group_models(r@);
        r.push(g);
        proof {
            assert(group_models(r@) =~= before.push(g.model()));
        }
        i = i + 1;
    }
    proof {
        assert(group_models(r@) =~= singles(all));
    }
    r
}

/// The name shown for a group.
pub open spec fn shown_name(template: Seq<char>, indices: Seq<Seq<Seq<char>>>) -> Seq<char> {
    filled(template, indices.map_values(|v: Seq<Seq<char>>| index_summary(v)))
}

/// An entry shown as a group of its own has its own name, whatever the name holds.
pub proof fn law_single_shows_its_name<M>(items: Seq<(Seq<char>, M)>, i: int)
    requires
        0 <= i < items.len(),
    ensures
        shown_name(singles(items)[i].template, singles(items)[i].indices) == items[i].0,
        singles(items)[i].members.len() == 1,
        singles(items)[i].key == items[i].1,
{
    let g = singles(items)[i];
    let h = holes_of(items[i].0);
    let shown = g.indices.map_values(|v: Seq<Seq<char>>| index_summary(v));
    assert forall|p: int| 0 <= p < h.len() implies #[trigger] shown[p] == h[p] by {
        assert(g.indices[p] =~= seq![h[p]]);
        assert(constant(g.indices[p]));
    }
    assert(shown =~= h);
    law_template_round_trip(items[i].0);
}

/// A group's name: each placeholder filled with its index, or with the range of its
/// indices.
pub fn display_name(template: &str, indices: &Vec<Vec<String>>) -> (r: String)
    ensures
        r@ == shown_name(template@, text_lists(indices@)),
{
    let ghost all = text_lists(indices@);
    let mut values: Vec<String> = Vec::new();
    let mut i: usize = 0;
    while i < indices.len()
        invariant
            i <= indices.len(),
            all == text_lists(indices@),
            values.len() == i,
            forall|j: int| 0 <= j < i ==> (#[trigger] values@[j])@ == index_summary(all[j]),
        decreases indices.len() - i,
    {
        proof {
            assert(all[i as int] == texts(indices@[i as int]@));
        }
        values.push(summarize_indices(&indices[i]));
        i = i + 1;
    }
    proof {
        assert(texts(values@) =~= all.map_values(|v: Seq<Seq<char>>| index_summary(v)));
    }
    fill(template, &values)
}


/// Every member of every group is one of the first `n` entries.
pub open spec fn members_below<M>(gs: Seq<GroupModel<M>>, n: nat) -> bool {
    forall|g: int, i: int|
        0 <= g < gs.len() && 0 <= i < gs[g].members.len() ==> (#[trigger] gs[g].members[i]) < n
}

/// The members of the groups are entries of the list.
pub proof fn lemma_members_below<M>(items: Seq<(Seq<char>, M)>, by_name: bool)
    requires
        items.len() <= usize::MAX,
    ensures
        members_below(collapsed(items, by_name), items.len()),
    decreases items.len(),
{
    if items.len() > 0 {
        let t = items.drop_last();
        lemma_members_below(t, by_name);
        let gs = collapsed(t, by_name);
        let r = collapsed(items, by_name);
        lemma_group_at_range(gs, bucket_of(items.last().0, by_name), items.last().1);
        assert forall|g: int, i: int| 0 <= g < r.len() && 0 <= i < r[g].members.len() implies (
        #[trigger] r[g].members[i]) < items.len() by {
            if g < gs.len() {
                if i < gs[g].members.len() {
                    assert(gs[g].members[i] < t.len());
                    assert(r[g].members[i] == gs[g].members[i]);
                }
            }
        }
    }
}

proof fn lemma_group_at_range<M>(gs: Seq<GroupModel<M>>, bucket: Seq<char>, key: M)
    ensures
        group_at(gs, bucket, key) matches Some(g) ==> 0 <= g < gs.len() && gs[g].bucket == bucket
            && gs[g].key == key,
    decreases gs.len(),
{
    if gs.len() > 0 {
        lemma_group_at_range(gs.drop_last(), bucket, key);
    }
}

/// Every entry is in a group of its own template and key, every member of a group is such
/// an entry, and no entry is in two groups.
pub proof fn law_groups_hold_every_entry<M>(items: Seq<(Seq<char>, M)>, by_name: bool)
    requires
        items.len() <= usize::MAX,
    ensures
        forall|i: int|
            0 <= i < items.len() ==> exists|g: int|
                0 <= g < collapsed(items, by_name).len() && (#[trigger] collapsed(
                    items,
                    by_name,
                )[g]).members.contains(#[trigger] (i as usize)),
        forall|g: int, m: int|
            0 <= g < collapsed(items, by_name).len() && 0 <= m < collapsed(
                items,
                by_name,
            )[g].members.len() ==> {
                let i = #[trigger] collapsed(items, by_name)[g].members[m];
                &&& i < items.len()
                &&& items[i as int].1 == collapsed(items, by_name)[g].key
                &&& template_of(items[i as int].0) == collapsed(items, by_name)[g].template
                &&& by_name ==> items[i as int].0 == collapsed(items, by_name)[g].bucket
            },
        forall|g: int, h: int, m: int, n: int|
            0 <= g < collapsed(items, by_name).len() && 0 <= h < collapsed(items, by_name).len()
                && 0 <= m < collapsed(items, by_name)[g].members.len() && 0 <= n < collapsed(
                items,
                by_name,
            )[h].members.len() && (#[trigger] collapsed(items, by_name)[g].members[m]) == (
            #[trigger] collapsed(items, by_name)[h].members[n]) ==> g == h && m == n,
        !by_name ==> forall|g: int|
            0 <= g < collapsed(items, by_name).len() ==> (#[trigger] collapsed(
                items,
                by_name,
            )[g]).bucket == collapsed(items, by_name)[g].template,
        forall|g: int|
            0 <= g < collapsed(items, by_name).len() ==> (#[trigger] collapsed(
                items,
                by_name,
            )[g]).members.len() > 0,
    decreases items.len(),
{
    if items.len() > 0 {
        let t = items.drop_last();
        let (name, key) = items.last();
        let bucket = bucket_of(name, by_name);
        let gs = collapsed(t, by_name);
        let all = collapsed(items, by_name);
        let last = (items.len() - 1) as usize;
        law_groups_hold_every_entry(t, by_name);
        lemma_group_at_range(gs, bucket, key);
        let at = match group_at(gs, bucket, key) {
            Some(g) => g,
            None => gs.len() as int,
        };
        assert(all[at].members.last() == last);
        if at < gs.len() {
            // A group of this name holds an entry of this name already.
            let i = gs[at].members[0];
            assert(t[i as int] == items[i as int]);
        }
        assert(all[at].template == template_of(name));
        assert forall|g: int| 0 <= g < all.len() && g != at implies #[trigger] all[g] == gs[g] by {}
        assert forall|i: int| 0 <= i < items.len() implies exists|g: int|
            0 <= g < all.len() && (#[trigger] all[g]).members.contains(#[trigger] (i as usize)) by {
            if i < t.len() {
                let g = choose|g: int|
                    0 <= g < gs.len() && (#[trigger] gs[g]).members.contains(i as usize);
                let m = gs[g].members.index_of(i as usize);
                assert(all[g].members[m] == i as usize);
            } else {
                assert(all[at].members[all[at].members.len() - 1] == i as usize);
            }
        }
        assert forall|g: int, m: int| 0 <= g < all.len() && 0 <= m < all[g].members.len() implies ({
            let i = #[trigger] all[g].members[m];
            &&& i < items.len()
            &&& items[i as int].1 == all[g].key
            &&& template_of(items[i as int].0) == all[g].template
            &&& by_name ==> items[i as int].0 == all[g].bucket
        }) by {
            let i = all[g].members[m];
            if g < gs.len() && m < gs[g].members.len() {
                assert(i == gs[g].members[m]);
                assert(t[i as int] == items[i as int]);
            }
        }
        assert forall|g: int, h: int, m: int, n: int|
            0 <= g < all.len() && 0 <= h < all.len() && 0 <= m < all[g].members.len() && 0 <= n
                < all[h].members.len() && (#[trigger] all[g].members[m]) == (
            #[trigger] all[h].members[n]) implies g == h && m == n by {
            if g < gs.len() && m < gs[g].members.len() {
                assert(all[g].members[m] == gs[g].members[m]);
                assert(gs[g].members[m] < t.len());
            }
            if h < gs.len() && n < gs[h].members.len() {
                assert(all[h].members[n] == gs[h].members[n]);
                assert(gs[h].members[n] < t.len());
            }
        }
    }
}

/// Entries of different names, grouped by name, are each a group of its own that shows
/// the entry's name.
pub proof fn law_each_name_is_a_group<M>(items: Seq<(Seq<char>, M)>)
    requires
        items.len() <= usize::MAX,
        forall|i: int, j: int|
            0 <= i < j < items.len() ==> (#[trigger] items[i]).0 != (#[trigger] items[j]).0,
    ensures
        collapsed(items, true).len() == items.len(),
        forall|i: int|
            0 <= i < items.len() ==> {
                let g = #[trigger] collapsed(items, true)[i];
                &&& shown_name(g.template, g.indices) == items[i].0
                &&& g.key == items[i].1
                &&& g.bucket == items[i].0
                &&& g.members == seq![i as usize]
            },
    decreases items.len(),
{
    if items.len() > 0 {
        let t = items.drop_last();
        let (name, key) = items.last();
        let n = items.len() - 1;
        assert forall|i: int, j: int| 0 <= i < j < t.len() implies (#[trigger] t[i]).0 != (
        #[trigger] t[j]).0 by {
            assert(t[i] == items[i] && t[j] == items[j]);
        }
        law_each_name_is_a_group(t);
        let gs = collapsed(t, true);
        lemma_group_at_range(gs, name, key);
        if group_at(gs, name, key) is Some {
            let g = group_at(gs, name, key)->0;
            assert(items[g].0 == t[g].0);
            assert(items[g].0 != items[n].0);
        }
        let all = collapsed(items, true);
        let g = all[n];
        assert(all == gs.push(g));
        let one = singles(seq![(name, key)])[0];
        law_single_shows_its_name(seq![(name, key)], 0);
        assert(g.indices == one.indices && g.template == one.template);
        assert(g.members =~= seq![n as usize]);
        assert forall|i: int| 0 <= i < items.len() implies ({
            let g = #[trigger] all[i];
            &&& shown_name(g.template, g.indices) == items[i].0
            &&& g.key == items[i].1
            &&& g.bucket == items[i].0
            &&& g.members == seq![i as usize]
        }) by {
            if i < n {
                assert(all[i] == gs[i]);
                assert(t[i] == items[i]);
            }
        }
    }
}

/// Sorting strings puts them in ascending order, and neither adds nor loses one.
pub proof fn law_sorted_strings(v: Seq<Seq<char>>)
    ensures
        stable_sort(v, text_ascending()).len() == v.len(),
        stable_sort(v, text_ascending()).to_multiset() == v.to_multiset(),
        forall|x: Seq<char>| #[trigger]
            stable_sort(v, text_ascending()).contains(x) <==> v.contains(x),
        forall|i: int, j: int|
            0 <= i < j < v.len() ==> text_order(
                #[trigger] stable_sort(v, text_ascending())[i],
                #[trigger] stable_sort(v, text_ascending())[j],
            ) <= 0,
{
    let le = text_ascending();
    assert forall|x: Seq<char>, y: Seq<char>| #[trigger] le(x, y) || le(y, x) by {
        lemma_order(x, y, y);
    }
    assert forall|x: Seq<char>, y: Seq<char>, z: Seq<char>| #[trigger] le(x, y) && #[trigger] le(
        y,
        z,
    ) implies le(x, z) by {
        lemma_order(x, y, z);
    }
    lemma_stable_sort(v, le);
    let r = stable_sort(v, le);
    assert forall|x: Seq<char>| #[trigger] r.contains(x) <==> v.contains(x) by {
        vstd::seq_lib::to_multiset_contains(r, x);
        vstd::seq_lib::to_multiset_contains(v, x);
    }
    assert forall|i: int, j: int| 0 <= i < j < v.len() implies text_order(
        #[trigger] r[i],
        #[trigger] r[j],
    ) <= 0 by {
        assert(le(r[i], r[j]));
    }
}

// ---------------------------------------------------------------------------
// Lists of indices

proof fn lemma_without_repeats(v: Seq<Seq<char>>)
    requires
        forall|i: int, j: int|
            #![trigger v[i], v[j]]
            0 <= i < j < v.len() ==> text_order(v[i], v[j]) <= 0,
    ensures
        ({
            let r = without_repeats(v);
            &&& v.len() > 0 ==> r.len() > 0 && r.last() == v.last()
            &&& forall|i: int, j: int|
                #![trigger r[i], r[j]]
                0 <= i < j < r.len() ==> text_order(r[i], r[j]) < 0
            &&& forall|x: Seq<char>| r.contains(x) <==> #[trigger] v.contains(x)
        }),
    decreases v.len(),
{
    let r = without_repeats(v);
    if v.len() > 1 {
        let t = v.drop_last();
        let x = v.last();
        let had = without_repeats(t);
        assert forall|i: int, j: int|
            #![trigger t[i], t[j]]
            0 <= i < j < t.len() implies text_order(t[i], t[j]) <= 0 by {
            assert(t[i] == v[i] && t[j] == v[j]);
        }
        lemma_without_repeats(t);
        assert(t.last() == v[v.len() - 2]);
        assert forall|y: Seq<char>| r.contains(y) <==> #[trigger] v.contains(y) by {
            if v.contains(y) {
                let k = v.index_of(y);
                if k < t.len() {
                    assert(t[k] == y);
                    assert(t.contains(y));
                    let h = had.index_of(y);
                    assert(r[h] == y);
                } else if t.last() == x {
                    assert(r[r.len() - 1] == x);
                } else {
                    assert(r[r.len() - 1] == x);
                }
            }
            if r.contains(y) {
                let k = r.index_of(y);
                if k < had.len() {
                    assert(had[k] == y);
                    assert(had.contains(y));
                    assert(t.contains(y));
                    let h = t.index_of(y);
                    assert(v[h] == y);
                } else {
                    assert(v[v.len() - 1] == y);
                }
            }
        }
        if t.last() != x {
            assert forall|i: int, j: int|
                #![trigger r[i], r[j]]
                0 <= i < j < r.len() implies text_order(r[i], r[j]) < 0 by {
                if j < had.len() {
                    assert(r[i] == had[i] && r[j] == had[j]);
                } else {
                    assert(r[i] == had[i]);
                    let last = t.last();
                    assert(text_order(v[v.len() - 2], v[v.len() - 1]) <= 0);
                    lemma_order(last, x, x);
                    if i < had.len() - 1 {
                        assert(text_order(had[i], had[had.len() - 1]) < 0);
                        lemma_order(had[i], last, x);
                    }
                }
            }
        }
    }
}

/// The distinct strings of a list are those that it holds, each once, in ascending order.
pub proof fn law_distinct_strings(v: Seq<Seq<char>>)
    ensures
        forall|i: int, j: int|
            #![trigger distinct(v)[i], distinct(v)[j]]
            0 <= i < j < distinct(v).len() ==> text_order(distinct(v)[i], distinct(v)[j]) < 0,
        forall|x: Seq<char>| distinct(v).contains(x) <==> #[trigger] v.contains(x),
{
    broadcast use vstd::seq_lib::group_to_multiset_ensures;

    let s = stable_sort(v, text_ascending());
    law_sorted_strings(v);
    lemma_without_repeats(s);
    assert forall|x: Seq<char>| distinct(v).contains(x) <==> #[trigger] v.contains(x) by {
        assert(s.to_multiset().count(x) == v.to_multiset().count(x));
        assert(s.contains(x) <==> s.to_multiset().count(x) > 0);
        assert(v.contains(x) <==> v.to_multiset().count(x) > 0);
    }
}

proof fn lemma_whole_run(v: Seq<i64>, n: int)
    requires
        1 <= n <= v.len(),
        forall|i: int| 0 <= i < n ==> #[trigger] v[i] == v[0] + i,
        n < v.len() ==> v[n] != v[n - 1] + 1,
    ensures
        consecutive(v) == n,
    decreases n,
{
    if n > 1 {
        let t = v.skip(1);
        assert(v[1] == v[0] + 1);
        assert forall|i: int| 0 <= i < n - 1 implies #[trigger] t[i] == t[0] + i by {
            assert(t[i] == v[i + 1]);
            assert(t[0] == v[1]);
        }
        if n < v.len() {
            assert(t[n - 1] == v[n]);
            assert(t[n - 2] == v[n - 1]);
        }
        lemma_whole_run(t, n - 1);
    }
}

/// Numbers that follow each other are written as their first and last with a dash between, a
/// number alone as itself; runs have commas between them.
pub proof fn law_runs_are_written_by_their_ends(run: Seq<i64>, rest: Seq<i64>)
    requires
        run.len() > 0,
        forall|i: int| 0 <= i < run.len() ==> #[trigger] run[i] == run[0] + i,
        rest.len() > 0 ==> rest[0] != run.last() + 1,
    ensures
        ({
            let piece = if run.len() == 1 {
                signed(run[0] as int)
            } else {
                signed(run[0] as int) + "-"@ + signed(run.last() as int)
            };
            &&& rest.len() > 0 ==> ranges(run + rest) == piece + ","@ + ranges(rest)
            &&& ranges(run) == piece
        }),
{
    let n = run.len() as int;
    let v = run + rest;
    assert forall|i: int| 0 <= i < n implies #[trigger] v[i] == v[0] + i by {
        assert(v[i] == run[i]);
    }
    if rest.len() > 0 {
        assert(v[n] == rest[0]);
        assert(v[n - 1] == run.last());
    }
    lemma_whole_run(v, n);
    lemma_whole_run(run, n);
    assert(v.skip(n) =~= rest);
}

/// What stands for one placeholder is its value where all are the same, else a list in braces:
/// ranges where all are numbers.
pub proof fn law_indices_are_summed_up(v: Seq<Seq<char>>, x: Seq<char>)
    requires
        v.len() > 0,
    ensures
        (forall|i: int| 0 <= i < v.len() ==> #[trigger] v[i] == x) ==> index_summary(v) == x,
        (exists|i: int| 0 <= i < v.len() && #[trigger] v[i] != v[0]) && all_numbers(v)
            ==> index_summary(v) == "{"@ + ranges(numbers_of(distinct(v))) + "}"@,
{
    law_distinct_strings(v);
    if forall|i: int| 0 <= i < v.len() ==> #[trigger] v[i] == x {
        assert(v[0] == x);
    }
    if all_numbers(v) {
        assert forall|i: int| 0 <= i < distinct(v).len() implies number_in(
            #[trigger] distinct(v)[i],
        ) is Some by {
            assert(distinct(v).contains(distinct(v)[i]));
            assert(v.contains(distinct(v)[i]));
            let k = v.index_of(distinct(v)[i]);
            assert(number_in(v[k]) is Some);
        }
    }
}

} // verus!
