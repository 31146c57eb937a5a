//! A map from names to values, kept in the order of the names.
use vstd::prelude::*;

use crate::order::{compare_chars, lemma_order, text_order, Rel};
use crate::text::chars_of;

verus! {

/// Entries in the order of their names, each name once.
#[derive(Debug)]
pub struct NameMap<V> {
    entries: Vec<(String, V)>,
}

/// The names ascend strictly.
pub open spec fn names_ascend<T>(rows: Seq<(Seq<char>, T)>) -> bool {
    forall|i: int, j: int|
        #![trigger rows[i], rows[j]]
        0 <= i < j < rows.len() ==> text_order(rows[i].0, rows[j].0) < 0
}

/// Whether a name occurs.
pub open spec fn has_row<T>(rows: Seq<(Seq<char>, T)>, name: Seq<char>) -> bool {
    exists|i: int| 0 <= i < rows.len() && (#[trigger] rows[i]).0 == name
}

/// What stands under a name.
pub open spec fn row_value<T>(rows: Seq<(Seq<char>, T)>, name: Seq<char>) -> T {
    rows[choose|i: int| 0 <= i < rows.len() && (#[trigger] rows[i]).0 == name].1
}

/// How many names stand before a given one.
pub open spec fn place<T>(rows: Seq<(Seq<char>, T)>, name: Seq<char>) -> int
    decreases rows.len(),
{
    if rows.len() == 0 {
        0
    } else if text_order(rows.last().0, name) < 0 {
        rows.len() as int
    } else {
        place(rows.drop_last(), name)
    }
}

/// The rows with one entered, in place of what stood under its name.
pub open spec fn with_row<T>(rows: Seq<(Seq<char>, T)>, name: Seq<char>, value: T) -> Seq<
    (Seq<char>, T),
> {
    let p = place(rows, name);
    if p < rows.len() && rows[p].0 == name {
        rows.update(p, (name, value))
    } else {
        rows.insert(p, (name, value))
    }
}

pub proof fn lemma_place<T>(rows: Seq<(Seq<char>, T)>, name: Seq<char>)
    requires
        names_ascend(rows),
    ensures
        0 <= place(rows, name) <= rows.len(),
        forall|i: int|
            0 <= i < place(rows, name) ==> text_order((#[trigger] rows[i]).0, name) < 0,
        forall|i: int|
            place(rows, name) <= i < rows.len() ==> text_order((#[trigger] rows[i]).0, name) >= 0,
    decreases rows.len(),
{
    if rows.len() > 0 {
        let last = rows.len() - 1;
        if text_order(rows.last().0, name) < 0 {
            assert forall|i: int| 0 <= i < rows.len() implies text_order(
                (#[trigger] rows[i]).0,
                name,
            ) < 0 by {
                if i < last {
                    assert(text_order(rows[i].0, rows[last].0) < 0);
                    lemma_order(rows[i].0, rows[last].0, name);
                }
            }
        } else {
            let t = rows.drop_last();
            lemma_place(t, name);
            assert forall|i: int| 0 <= i < place(rows, name) implies text_order(
                (#[trigger] rows[i]).0,
                name,
            ) < 0 by {
                assert(t[i] == rows[i]);
            }
            assert forall|i: int| place(rows, name) <= i < rows.len() implies text_order(
                (#[trigger] rows[i]).0,
                name,
            ) >= 0 by {
                if i < last {
                    assert(t[i] == rows[i]);
                }
            }
        }
    }
}

/// Entering a row keeps the order.
pub proof fn lemma_with_row_ascends<T>(rows: Seq<(Seq<char>, T)>, name: Seq<char>, value: T)
    requires
        names_ascend(rows),
    ensures
        names_ascend(with_row(rows, name, value)),
{
    lemma_place(rows, name);
    let p = place(rows, name);
    let r = with_row(rows, name, value);
    if p < rows.len() && rows[p].0 == name {
        assert forall|i: int, j: int| #![trigger r[i], r[j]] 0 <= i < j < r.len() implies text_order(
            r[i].0,
            r[j].0,
        ) < 0 by {
            assert(text_order(rows[i].0, rows[j].0) < 0);
        }
    } else {
        assert forall|i: int, j: int| #![trigger r[i], r[j]] 0 <= i < j < r.len() implies text_order(
            r[i].0,
            r[j].0,
        ) < 0 by {
            let a = if i < p { i } else { i - 1 };
            let b = if j < p { j } else { j - 1 };
            if i == p {
                lemma_order(rows[b].0, name, name);
                if b > p {
                    assert(text_order(rows[p].0, rows[b].0) < 0);
                    lemma_order(name, rows[p].0, rows[b].0);
                    lemma_order(rows[p].0, name, name);
                }
            } else if j == p {
                assert(text_order(rows[a].0, name) < 0);
            } else {
                assert(text_order(rows[a].0, rows[b].0) < 0);
            }
        }
    }
}

/// Entering a row changes what stands under its name, and nothing else.
#[verifier::spinoff_prover]
pub proof fn lemma_with_row<T>(rows: Seq<(Seq<char>, T)>, name: Seq<char>, value: T, n: Seq<char>)
    requires
        names_ascend(rows),
    ensures
        has_row(with_row(rows, name, value), name),
        row_value(with_row(rows, name, value), name) == value,
        n != name ==> (has_row(with_row(rows, name, value), n) <==> has_row(rows, n)),
        n != name && has_row(rows, n) ==> row_value(with_row(rows, name, value), n) == row_value(
            rows,
            n,
        ),
{
    lemma_place(rows, name);
    lemma_with_row_ascends(rows, name, value);
    let p = place(rows, name);
    let r = with_row(rows, name, value);
    let fresh = !(p < rows.len() && rows[p].0 == name);
    assert(r[p] == (name, value));
    lemma_unique(r, name, p);
    assert(n != name && has_row(r, n) ==> has_row(rows, n)) by {
        if n != name && has_row(r, n) {
            let i = choose|i: int| 0 <= i < r.len() && (#[trigger] r[i]).0 == n;
            let a = if fresh && i > p { i - 1 } else { i };
            assert(rows[a] == r[i]);
        }
    }
    assert(n != name && has_row(rows, n) ==> has_row(r, n) && row_value(r, n) == row_value(
        rows,
        n,
    )) by {
        if n != name && has_row(rows, n) {
            let i = choose|i: int| 0 <= i < rows.len() && (#[trigger] rows[i]).0 == n;
            let a = if fresh && i >= p { i + 1 } else { i };
            assert(r[a] == rows[i]);
            lemma_unique(r, n, a);
            lemma_unique(rows, n, i);
        }
    }
}

/// A name that occurs stands in one place.
pub proof fn lemma_unique<T>(rows: Seq<(Seq<char>, T)>, name: Seq<char>, i: int)
    requires
        names_ascend(rows),
        0 <= i < rows.len(),
        rows[i].0 == name,
    ensures
        has_row(rows, name),
        row_value(rows, name) == rows[i].1,
        forall|j: int| 0 <= j < rows.len() && (#[trigger] rows[j]).0 == name ==> j == i,
{
    assert forall|j: int| 0 <= j < rows.len() && (#[trigger] rows[j]).0 == name implies j == i by {
        lemma_order(name, name, name);
        if j < i {
            assert(text_order(rows[j].0, rows[i].0) < 0);
        } else if j > i {
            assert(text_order(rows[i].0, rows[j].0) < 0);
        }
    }
    assert(has_row(rows, name));
}

impl<V: DeepView> NameMap<V> {
    /// The entries, in order.
    pub closed spec fn rows(&self) -> Seq<(Seq<char>, V::V)> {
        Seq::new(
            self.entries@.len(),
            |i: int| (self.entries@[i].0@, self.entries@[i].1.deep_view()),
        )
    }

    /// The names ascend.
    pub open spec fn wf(&self) -> bool {
        names_ascend(self.rows())
    }

    /// An empty map.
    pub fn new() -> (m: NameMap<V>)
        ensures
            m.wf(),
            m.rows() == Seq::<(Seq<char>, V::V)>::empty(),
    {
        let m = NameMap { entries: Vec::new() };
        proof {
            assert(m.rows() =~= Seq::<(Seq<char>, V::V)>::empty());
        }
        m
    }

    /// The number of entries.
    pub fn len(&self) -> (n: usize)
        ensures
            n == self.rows().len(),
    {
        self.entries.len()
    }

    /// The name in place `i`.
    pub fn name_at(&self, i: usize) -> (s: &str)
        requires
            i < self.rows().len(),
        ensures
            s@ == self.rows()[i as int].0,
    {
        self.entries[i].0.as_str()
    }

    /// The value in place `i`.
    pub fn value_at(&self, i: usize) -> (v: &V)
        requires
            i < self.rows().len(),
        ensures
            v.deep_view() == self.rows()[i as int].1,
    {
        &self.entries[i].1
    }

    /// Where a name stands or would stand.
    fn locate(&self, name: &str) -> (p: usize)
        requires
            self.wf(),
        ensures
            p == place(self.rows(), name@),
            p <= self.entries.len(),
    {
        let wanted = chars_of(name);
        let mut lo: usize = 0;
        let mut hi: usize = self.entries.len();
        let ghost rows = self.rows();
        proof {
            lemma_place(rows, name@);
        }
        while lo < hi
            invariant
                lo <= hi <= self.entries.len(),
                rows == self.rows(),
                rows.len() == self.entries.len(),
                wanted@ == name@,
                names_ascend(rows),
                lo <= place(rows, name@) <= hi,
                forall|i: int|
                    0 <= i < place(rows, name@) ==> text_order((#[trigger] rows[i]).0, name@) < 0,
                forall|i: int|
                    place(rows, name@) <= i < rows.len() ==> text_order(
                        (#[trigger] rows[i]).0,
                        name@,
                    ) >= 0,
            decreases hi - lo,
        {
            let mid: usize = lo + (hi - lo) / 2;
            let here = chars_of(self.entries[mid].0.as_str());
            proof {
                assert(rows[mid as int].0 == here@);
            }
            if compare_chars(&here, &wanted) == Rel::Less {
                lo = mid + 1;
            } else {
                proof {
                    lemma_order(here@, name@, name@);
                }
                hi = mid;
            }
        }
        lo
    }

    /// What stands under a name.
    pub fn get(&self, name: &str) -> (r: Option<&V>)
        requires
            self.wf(),
        ensures
            match r {
                Some(v) => has_row(self.rows(), name@) && v.deep_view() == row_value(
                    self.rows(),
                    name@,
                ),
                None => !has_row(self.rows(), name@),
            },
    {
        let p = self.locate(name);
        let ghost rows = self.rows();
        proof {
            lemma_place(rows, name@);
        }
        if p < self.entries.len() && crate::text::same(self.entries[p].0.as_str(), name) {
            proof {
                assert(rows[p as int].0 == name@);
                lemma_unique(rows, name@, p as int);
            }
            Some(&self.entries[p].1)
        } else {
            proof {
                if has_row(rows, name@) {
                    let i = choose|i: int| 0 <= i < rows.len() && (#[trigger] rows[i]).0 == name@;
                    lemma_order(name@, name@, name@);
                    assert(i >= p);
                    assert(rows[p as int].0 != name@);
                    assert(text_order(rows[p as int].0, rows[i].0) < 0);
                    lemma_order(rows[p as int].0, name@, name@);
                }
            }
            None
        }
    }

    /// Whether a name occurs.
    pub fn contains_key(&self, name: &str) -> (b: bool)
        requires
            self.wf(),
        ensures
            b == has_row(self.rows(), name@),
    {
        self.get(name).is_some()
    }

    /// Enter a value under a name, in place of what stood there.
    pub fn insert(&mut self, name: String, value: V)
        requires
            old(self).wf(),
        ensures
            final(self).wf(),
            final(self).rows() == with_row(old(self).rows(), name@, value.deep_view()),
    {
        let p = self.locate(name.as_str());
        let ghost rows = self.rows();
        proof {
            lemma_place(rows, name@);
            lemma_with_row_ascends(rows, name@, value.deep_view());
        }
        if p < self.entries.len() && self.entries[p].0 == name {
            proof {
                assert(rows[p as int].0 == name@);
            }
            let ghost k = name@;
            self.entries.set(p, (name, value));
            proof {
                assert(self.rows() =~= rows.update(p as int, (k, value.deep_view())));
            }
        } else {
            proof {
                if p < rows.len() {
                    assert(rows[p as int].0 == self.entries@[p as int].0@);
                }
            }
            let ghost k = name@;
            self.entries.insert(p, (name, value));
            proof {
                assert(self.rows() =~= rows.insert(p as int, (k, value.deep_view())));
            }
        }
    }

    /// Append an entry whose name comes behind all others.
    pub fn push(&mut self, name: String, value: V)
        requires
            old(self).wf(),
            old(self).rows().len() > 0 ==> text_order(old(self).rows().last().0, name@) < 0,
        ensures
            final(self).wf(),
            final(self).rows() == old(self).rows().push((name@, value.deep_view())),
    {
        let ghost rows = self.rows();
        let ghost k = name@;
        let ghost v = value.deep_view();
        self.entries.push((name, value));
        proof {
            assert(self.rows() =~= rows.push((k, v)));
            let r = rows.push((k, v));
            assert forall|i: int, j: int| #![trigger r[i], r[j]] 0 <= i < j < r.len() implies text_order(
                r[i].0,
                r[j].0,
            ) < 0 by {
                if j < rows.len() {
                    assert(text_order(rows[i].0, rows[j].0) < 0);
                } else if i < rows.len() - 1 {
                    assert(text_order(rows[i].0, rows[rows.len() - 1].0) < 0);
                    lemma_order(rows[i].0, rows.last().0, k);
                }
            }
        }
    }

    /// The names, in order.
    pub fn keys(&self) -> (r: Vec<String>)
        ensures
            crate::text::texts(r@) == self.rows().map_values(|e: (Seq<char>, V::V)| e.0),
    {
        let mut r: Vec<String> = Vec::new();
        let mut i: usize = 0;
        while i < self.entries.len()
            invariant
                i <= self.entries.len(),
                r.len() == i,
                forall|j: int| 0 <= j < i ==> (#[trigger] r@[j])@ == self.entries@[j].0@,
            decreases self.entries.len() - i,
        {
            r.push(self.entries[i].0.clone());
            i = i + 1;
        }
        proof {
            assert(crate::text::texts(r@) =~= self.rows().map_values(|e: (Seq<char>, V::V)| e.0));
        }
        r
    }
}

/// The rows without a name.
pub open spec fn without_row<T>(rows: Seq<(Seq<char>, T)>, name: Seq<char>) -> Seq<(Seq<char>, T)> {
    let p = place(rows, name);
    if p < rows.len() && rows[p].0 == name {
        rows.remove(p)
    } else {
        rows
    }
}

/// Taking a row out keeps the order; the name is gone, and the others stay.
pub proof fn lemma_without_row<T>(rows: Seq<(Seq<char>, T)>, name: Seq<char>, n: Seq<char>)
    requires
        names_ascend(rows),
    ensures
        names_ascend(without_row(rows, name)),
        !has_row(without_row(rows, name), name),
        n != name ==> (has_row(without_row(rows, name), n) <==> has_row(rows, n)),
        n != name && has_row(rows, n) ==> row_value(without_row(rows, name), n) == row_value(
            rows,
            n,
        ),
{
    lemma_place(rows, name);
    let p = place(rows, name);
    let r = without_row(rows, name);
    lemma_order(name, name, name);
    if p < rows.len() && rows[p].0 == name {
        lemma_unique(rows, name, p);
        assert forall|i: int, j: int| #![trigger r[i], r[j]] 0 <= i < j < r.len() implies text_order(
            r[i].0,
            r[j].0,
        ) < 0 by {
            let a = if i < p {
                i
            } else {
                i + 1
            };
            let b = if j < p {
                j
            } else {
                j + 1
            };
            assert(r[i] == rows[a] && r[j] == rows[b]);
            assert(text_order(rows[a].0, rows[b].0) < 0);
        }
        if has_row(r, name) {
            let i = choose|i: int| 0 <= i < r.len() && (#[trigger] r[i]).0 == name;
            let a = if i < p {
                i
            } else {
                i + 1
            };
            assert(r[i] == rows[a]);
        }
    } else {
        if has_row(r, name) {
            let i = choose|i: int| 0 <= i < r.len() && (#[trigger] r[i]).0 == name;
            if i < p {
                assert(text_order(rows[i].0, name) < 0);
            } else if i > p {
                assert(text_order(rows[p].0, rows[i].0) < 0);
                assert(text_order(rows[p].0, name) >= 0);
            }
        }
    }
    if n != name {
        if has_row(r, n) {
            let i = choose|i: int| 0 <= i < r.len() && (#[trigger] r[i]).0 == n;
            if r.len() < rows.len() {
                let a = if i < p {
                    i
                } else {
                    i + 1
                };
                assert(r[i] == rows[a]);
                lemma_unique(rows, n, a);
            }
            lemma_unique(r, n, i);
        }
        if has_row(rows, n) {
            let i = choose|i: int| 0 <= i < rows.len() && (#[trigger] rows[i]).0 == n;
            if r.len() < rows.len() {
                let a = if i < p {
                    i
                } else {
                    i - 1
                };
                assert(r[a] == rows[i]);
                lemma_unique(rows, n, i);
                lemma_unique(r, n, a);
            }
        }
    }
}

impl<V: DeepView> NameMap<V> {
    /// Take out what stands under a name.
    pub fn remove(&mut self, name: &str)
        requires
            old(self).wf(),
        ensures
            final(self).wf(),
            final(self).rows() == without_row(old(self).rows(), name@),
    {
        let p = self.locate(name);
        let ghost rows = self.rows();
        proof {
            lemma_place(rows, name@);
            lemma_without_row(rows, name@, name@);
        }
        if p < self.entries.len() {
            proof {
                assert(rows[p as int].0 == self.entries@[p as int].0@);
            }
            if crate::text::same(self.entries[p].0.as_str(), name) {
                let _ = self.entries.remove(p);
                proof {
                    assert(self.rows() =~= rows.remove(p as int));
                }
            }
        }
    }
}

} // verus!
