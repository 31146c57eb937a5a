//! Lexicographic orders and a stable sort.
use vstd::prelude::*;

verus! {

/// `f` compares like a total order: -1 (less), 0 (the same) or 1 (greater).
pub open spec fn total_order<T>(f: spec_fn(T, T) -> int) -> bool {
    &&& forall|x: T, y: T| #[trigger] f(x, y) == -1 || f(x, y) == 0 || f(x, y) == 1
    &&& forall|x: T, y: T| #[trigger] f(x, y) == 0 <==> x == y
    &&& forall|x: T, y: T| #[trigger] f(x, y) == -f(y, x)
    &&& forall|x: T, y: T, z: T|
        #[trigger] f(x, y) <= 0 && #[trigger] f(y, z) <= 0 ==> f(x, z) <= 0
}

/// The lexicographic order over sequences whose elements `f` compares.
pub open spec fn lex<T>(a: Seq<T>, b: Seq<T>, f: spec_fn(T, T) -> int) -> int
    decreases a.len(),
{
    if a.len() == 0 && b.len() == 0 {
        0
    } else if a.len() == 0 {
        -1
    } else if b.len() == 0 {
        1
    } else if f(a[0], b[0]) != 0 {
        f(a[0], b[0])
    } else {
        lex(a.skip(1), b.skip(1), f)
    }
}

/// `lex` of a total order is one, for any three sequences.
pub proof fn lemma_lex_total<T>(a: Seq<T>, b: Seq<T>, c: Seq<T>, f: spec_fn(T, T) -> int)
    requires
        total_order(f),
    ensures
        lex(a, b, f) == -1 || lex(a, b, f) == 0 || lex(a, b, f) == 1,
        lex(a, b, f) == 0 <==> a == b,
        lex(a, b, f) == -lex(b, a, f),
        lex(a, b, f) <= 0 && lex(b, c, f) <= 0 ==> lex(a, c, f) <= 0,
    decreases a.len() + b.len() + c.len(),
{
    if a.len() > 0 && b.len() > 0 {
        if f(a[0], b[0]) == 0 {
            let cc = if c.len() > 0 { c.skip(1) } else { c };
            lemma_lex_total(a.skip(1), b.skip(1), cc, f);
            assert(a =~= seq![a[0]] + a.skip(1));
            assert(b =~= seq![b[0]] + b.skip(1));
        } else {
            assert(a != b);
            assert(f(b[0], a[0]) != 0);
        }
        if c.len() > 0 {
            let xy = f(a[0], b[0]);
            let yz = f(b[0], c[0]);
            let xz = f(a[0], c[0]);
            if xy == -1 && yz == 0 || xy == 0 && yz == -1 || xy == -1 && yz == -1 {
                assert(xz <= 0);
                if xz == 0 {
                    assert(a[0] == c[0]);
                    assert(f(b[0], c[0]) == -f(c[0], b[0]));
                }
            }
        }
    } else if a.len() == 0 && b.len() == 0 {
        assert(a =~= b);
    }
}

/// How two characters compare, by code point.
pub open spec fn char_order() -> spec_fn(char, char) -> int {
    |a: char, b: char|
        if a < b {
            -1int
        } else if a == b {
            0int
        } else {
            1int
        }
}

/// How two strings compare: by code point, which is also the order of their bytes.
#[verifier::opaque]
pub open spec fn text_order(a: Seq<char>, b: Seq<char>) -> int {
    lex(a, b, char_order())
}

/// A comparison's outcome.
#[derive(Clone, Copy, PartialEq, Eq, Structural, Debug)]
pub enum Rel {
    Less,
    Same,
    Greater,
}

impl Rel {
    /// The outcome as the sign that the specifications use.
    pub open spec fn sign(self) -> int {
        match self {
            Rel::Less => -1,
            Rel::Same => 0,
            Rel::Greater => 1,
        }
    }
}

pub proof fn lemma_char_order_total()
    ensures
        total_order(char_order()),
{
}

/// Strings compare like a total order.
pub proof fn lemma_order(a: Seq<char>, b: Seq<char>, c: Seq<char>)
    ensures
        text_order(a, b) == 0 <==> a == b,
        text_order(a, b) == -text_order(b, a),
        -1 <= text_order(a, b) <= 1,
        text_order(a, b) < 0 && text_order(b, c) <= 0 ==> text_order(a, c) < 0,
        text_order(a, b) <= 0 && text_order(b, c) < 0 ==> text_order(a, c) < 0,
        text_order(a, b) <= 0 && text_order(b, c) <= 0 ==> text_order(a, c) <= 0,
{
    reveal(text_order);
    lemma_char_order_total();
    lemma_lex_total(a, b, c, char_order());
    lemma_lex_total(b, c, a, char_order());
    lemma_lex_total(a, c, b, char_order());
    lemma_lex_total(c, a, b, char_order());
}

/// Compare two strings by code point.
pub fn compare_chars(a: &Vec<char>, b: &Vec<char>) -> (r: Rel)
    ensures
        r.sign() == text_order(a@, b@),
{
    let mut i: usize = 0;
    proof {
        reveal(text_order);
        assert(a@.skip(0) =~= a@);
        assert(b@.skip(0) =~= b@);
    }
    while i < a.len() && i < b.len()
        invariant
            i <= a.len(),
            i <= b.len(),
            text_order(a@, b@) == text_order(a@.skip(i as int), b@.skip(i as int)),
        decreases a.len() - i,
    {
        proof {
            reveal(text_order);
            assert(a@.skip(i as int)[0] == a@[i as int]);
            assert(b@.skip(i as int)[0] == b@[i as int]);
            assert(a@.skip(i as int).skip(1) =~= a@.skip(i + 1));
            assert(b@.skip(i as int).skip(1) =~= b@.skip(i + 1));
        }
        if a[i] < b[i] {
            return Rel::Less;
        }
        if a[i] > b[i] {
            return Rel::Greater;
        }
        i = i + 1;
    }
    if i < b.len() {
        Rel::Less
    } else if i < a.len() {
        Rel::Greater
    } else {
        Rel::Same
    }
}

/// `le` is a total preorder.
pub open spec fn total_preorder<T>(le: spec_fn(T, T) -> bool) -> bool {
    &&& forall|x: T, y: T| #[trigger] le(x, y) || le(y, x)
    &&& forall|x: T, y: T, z: T| #[trigger] le(x, y) && #[trigger] le(y, z) ==> le(x, z)
}

/// Where `x` goes in the sorted sequence `s`: behind everything that may stand
/// before it.
pub open spec fn sorted_position<T>(s: Seq<T>, x: T, le: spec_fn(T, T) -> bool) -> int
    decreases s.len(),
{
    if s.len() == 0 {
        0
    } else if le(s.last(), x) {
        s.len() as int
    } else {
        sorted_position(s.drop_last(), x, le)
    }
}

/// `s` in the order `le`, items that are equal in it keeping their places
/// relative to each other.
pub open spec fn stable_sort<T>(s: Seq<T>, le: spec_fn(T, T) -> bool) -> Seq<T>
    decreases s.len(),
{
    if s.len() == 0 {
        s
    } else {
        let r = stable_sort(s.drop_last(), le);
        r.insert(sorted_position(r, s.last(), le), s.last())
    }
}

pub open spec fn sorted<T>(s: Seq<T>, le: spec_fn(T, T) -> bool) -> bool {
    forall|i: int, j: int| #![trigger s[i], s[j]] 0 <= i < j < s.len() ==> le(s[i], s[j])
}

pub proof fn lemma_sorted_position<T>(s: Seq<T>, x: T, le: spec_fn(T, T) -> bool)
    requires
        total_preorder(le),
        sorted(s, le),
    ensures
        0 <= sorted_position(s, x, le) <= s.len(),
        forall|i: int| 0 <= i < sorted_position(s, x, le) ==> le(#[trigger] s[i], x),
        forall|i: int| sorted_position(s, x, le) <= i < s.len() ==> !le(#[trigger] s[i], x),
    decreases s.len(),
{
    if s.len() > 0 {
        if le(s.last(), x) {
            assert forall|i: int| 0 <= i < s.len() implies le(#[trigger] s[i], x) by {
                if i < s.len() - 1 {
                    assert(le(s[i], s[s.len() - 1]));
                }
            }
        } else {
            lemma_sorted_position(s.drop_last(), x, le);
            assert forall|i: int|
                sorted_position(s, x, le) <= i < s.len() implies !le(#[trigger] s[i], x) by {
                if i < s.len() - 1 {
                    assert(s.drop_last()[i] == s[i]);
                }
            }
            assert forall|i: int|
                0 <= i < sorted_position(s, x, le) implies le(#[trigger] s[i], x) by {
                assert(s.drop_last()[i] == s[i]);
            }
        }
    }
}

/// Sorting puts the items in order and neither adds nor loses one.
pub proof fn lemma_stable_sort<T>(s: Seq<T>, le: spec_fn(T, T) -> bool)
    requires
        total_preorder(le),
    ensures
        sorted(stable_sort(s, le), le),
        stable_sort(s, le).len() == s.len(),
        stable_sort(s, le).to_multiset() == s.to_multiset(),
    decreases s.len(),
{
    broadcast use vstd::seq_lib::group_to_multiset_ensures;
    if s.len() > 0 {
        let r = stable_sort(s.drop_last(), le);
        let x = s.last();
        lemma_stable_sort(s.drop_last(), le);
        lemma_sorted_position(r, x, le);
        let p = sorted_position(r, x, le);
        let q = r.insert(p, x);
        assert forall|i: int, j: int| #![trigger q[i], q[j]] 0 <= i < j < q.len() implies le(
            q[i],
            q[j],
        ) by {
            if i < p && j > p {
                assert(le(r[i], r[j - 1]));
            } else if i == p {
                assert(!le(r[j - 1], x));
            } else if j == p {
                assert(le(r[i], x));
            } else if i > p {
                assert(le(r[i - 1], r[j - 1]));
            } else {
                assert(le(r[i], r[j]));
            }
        }
        assert(s =~= s.drop_last().push(x));
        assert(q.to_multiset() =~= r.to_multiset().insert(x)) by {
            vstd::seq_lib::to_multiset_insert(r, p, x);
        }
    }
}

/// Sorting keeps to the items that were there.
pub proof fn lemma_stable_sort_contains<T>(s: Seq<T>, le: spec_fn(T, T) -> bool)
    requires
        total_preorder(le),
    ensures
        stable_sort(s, le).len() == s.len(),
        forall|i: int|
            0 <= i < s.len() ==> s.contains(#[trigger] stable_sort(s, le)[i]),
{
    lemma_stable_sort(s, le);
    let r = stable_sort(s, le);
    assert forall|i: int| 0 <= i < s.len() implies s.contains(#[trigger] r[i]) by {
        vstd::seq_lib::to_multiset_contains(r, r[i]);
        vstd::seq_lib::to_multiset_contains(s, r[i]);
        assert(r.contains(r[i]));
    }
}

/// The position found for an item depends on how it compares, not on what it is.
pub proof fn lemma_position_map<T, U>(
    s: Seq<T>,
    x: T,
    le: spec_fn(T, T) -> bool,
    f: spec_fn(T) -> U,
    le2: spec_fn(U, U) -> bool,
)
    requires
        forall|i: int| 0 <= i < s.len() ==> le(#[trigger] s[i], x) == le2(f(s[i]), f(x)),
    ensures
        sorted_position(s, x, le) == sorted_position(s.map_values(f), f(x), le2),
    decreases s.len(),
{
    if s.len() > 0 {
        assert(s.map_values(f).drop_last() =~= s.drop_last().map_values(f));
        assert(s.map_values(f).last() == f(s.last()));
        assert(le(s[s.len() - 1], x) == le2(f(s[s.len() - 1]), f(x)));
        if !le(s.last(), x) {
            assert forall|i: int|
                0 <= i < s.drop_last().len() implies le(#[trigger] s.drop_last()[i], x) == le2(
                f(s.drop_last()[i]),
                f(x),
            ) by {
                assert(s.drop_last()[i] == s[i]);
            }
            lemma_position_map(s.drop_last(), x, le, f, le2);
        }
    }
}

/// Sorting commutes with a function under which the items compare alike.
pub proof fn lemma_stable_sort_map<T, U>(
    s: Seq<T>,
    le: spec_fn(T, T) -> bool,
    f: spec_fn(T) -> U,
    le2: spec_fn(U, U) -> bool,
)
    requires
        total_preorder(le),
        forall|i: int, j: int|
            #![trigger s[i], s[j]]
            0 <= i < s.len() && 0 <= j < s.len() ==> le(s[i], s[j]) == le2(f(s[i]), f(s[j])),
    ensures
        stable_sort(s, le).map_values(f) == stable_sort(s.map_values(f), le2),
    decreases s.len(),
{
    if s.len() > 0 {
        let t = s.drop_last();
        let x = s.last();
        let r = stable_sort(t, le);
        assert forall|i: int, j: int|
            #![trigger t[i], t[j]]
            0 <= i < t.len() && 0 <= j < t.len() implies le(t[i], t[j]) == le2(f(t[i]), f(t[j])) by {
            assert(t[i] == s[i] && t[j] == s[j]);
        }
        lemma_stable_sort_map(t, le, f, le2);
        lemma_stable_sort_contains(t, le);
        lemma_stable_sort(t, le);
        lemma_sorted_position(r, x, le);
        assert forall|i: int| 0 <= i < r.len() implies le(#[trigger] r[i], x) == le2(f(r[i]), f(x)) by {
            assert(t.contains(r[i]));
            let j = choose|j: int| 0 <= j < t.len() && t[j] == r[i];
            assert(t[j] == s[j]);
            assert(s[s.len() - 1] == x);
        }
        lemma_position_map(r, x, le, f, le2);
        assert(s.map_values(f).drop_last() =~= t.map_values(f));
        let p = sorted_position(r, x, le);
        assert(r.insert(p, x).map_values(f) =~= r.map_values(f).insert(p, f(x)));
    } else {
        assert(s.map_values(f) =~= Seq::<U>::empty());
    }
}


/// Items that can be put in order.
pub trait Ranked: Sized {
    /// `self` may stand before `other`.
    spec fn ranks_before(self, other: Self) -> bool;

    proof fn lemma_ranks()
        ensures
            forall|x: Self, y: Self| #[trigger] x.ranks_before(y) || y.ranks_before(x),
            forall|x: Self, y: Self, z: Self| #[trigger]
                x.ranks_before(y) && #[trigger] y.ranks_before(z) ==> x.ranks_before(z),
    ;

    fn may_precede(&self, other: &Self) -> (b: bool)
        ensures
            b == self.ranks_before(*other),
    ;
}

/// The order of ranked items.
pub open spec fn rank_order<T: Ranked>() -> spec_fn(T, T) -> bool {
    |a: T, b: T| a.ranks_before(b)
}

pub proof fn lemma_rank_order<T: Ranked>()
    ensures
        total_preorder(rank_order::<T>()),
{
    T::lemma_ranks();
    let le = rank_order::<T>();
    assert forall|x: T, y: T| true implies #[trigger] le(x, y) || le(y, x) by {
        assert(x.ranks_before(y) || y.ranks_before(x));
    }
    assert forall|x: T, y: T, z: T| #[trigger] le(x, y) && #[trigger] le(y, z) implies le(x, z) by {
        assert(x.ranks_before(y) && y.ranks_before(z));
    }
}

/// Put items in order; those that are equal in it keep their order.
pub fn sort_ranked<T: Ranked>(items: Vec<T>) -> (r: Vec<T>)
    ensures
        r@ == stable_sort(items@, rank_order::<T>()),
{
    let ghost all = items@;
    let ghost le = rank_order::<T>();
    let mut r: Vec<T> = Vec::new();
    proof {
        lemma_rank_order::<T>();
        assert(all.take(0) =~= Seq::empty());
        assert(r@ =~= stable_sort(all.take(0), le));
    }
    for x in it: items
        invariant
            it.seq() == all,
            le == rank_order::<T>(),
            total_preorder(le),
            r@ == stable_sort(all.take(it.index() as int), le),
    {
        let ghost k = it.index() as int;
        proof {
            lemma_stable_sort(all.take(k), le);
            lemma_sorted_position(r@, x, le);
            assert(all.take(k + 1).drop_last() =~= all.take(k));
            assert(all.take(k + 1).last() == x);
        }
        // Everything before `lo` may stand before `x`, nothing from `hi` on may.
        let mut lo: usize = 0;
        let mut hi: usize = r.len();
        while lo < hi
            invariant
                lo <= hi <= r.len(),
                le == rank_order::<T>(),
                forall|i: int| 0 <= i < lo ==> le(#[trigger] r@[i], x),
                forall|i: int| hi <= i < r.len() ==> !le(#[trigger] r@[i], x),
                sorted(r@, le),
                total_preorder(le),
            decreases hi - lo,
        {
            let mid: usize = lo + (hi - lo) / 2;
            if r[mid].may_precede(&x) {
                proof {
                    assert(le(r@[mid as int], x));
                    assert forall|i: int| 0 <= i <= mid implies le(#[trigger] r@[i], x) by {
                        if i < mid {
                            assert(le(r@[i], r@[mid as int]));
                        }
                    }
                }
                lo = mid + 1;
            } else {
                proof {
                    assert(!le(r@[mid as int], x));
                    assert forall|i: int| mid <= i < r.len() implies !le(#[trigger] r@[i], x) by {
                        if i > mid {
                            assert(le(r@[mid as int], r@[i]));
                            if le(r@[i], x) {
                                assert(le(r@[mid as int], x));
                            }
                        }
                    }
                }
                hi = mid;
            }
        }
        proof {
            let p = sorted_position(r@, x, le);
            if p < lo {
                assert(!le(r@[p], x));
            } else if p > lo {
                assert(le(r@[lo as int], x));
            }
        }
        r.insert(lo, x);
    }
    proof {
        assert(all.take(all.len() as int) =~= all);
    }
    r
}

/// Numbers in ascending order.
impl Ranked for usize {
    open spec fn ranks_before(self, other: usize) -> bool {
        self <= other
    }

    proof fn lemma_ranks() {
    }

    fn may_precede(&self, other: &usize) -> (b: bool) {
        *self <= *other
    }
}

/// Texts stand in the order of the dictionary: the first character in which they differ
/// decides, and a text stands before any longer one that begins with it.
pub proof fn law_first_difference_decides(p: Seq<char>, x: char, y: char, u: Seq<char>, v: Seq<char>)
    requires
        x < y,
    ensures
        text_order(p + seq![x] + u, p + seq![y] + v) < 0,
        text_order(p + seq![y] + v, p + seq![x] + u) > 0,
        text_order(p, p + seq![x] + u) < 0,
        text_order(p, p) == 0,
    decreases p.len(),
{
    reveal(text_order);
    let (a, b) = (p + seq![x] + u, p + seq![y] + v);
    if p.len() > 0 {
        let t = p.skip(1);
        law_first_difference_decides(t, x, y, u, v);
        assert(a.skip(1) =~= t + seq![x] + u);
        assert(b.skip(1) =~= t + seq![y] + v);
        assert(a[0] == p[0] && b[0] == p[0]);
    } else {
        assert(a[0] == x && b[0] == y);
    }
}

/// Sorting keeps what ranks alike in the order in which it was.
pub proof fn law_sorting_keeps_equals_in_order<T>(
    s: Seq<T>,
    le: spec_fn(T, T) -> bool,
    alike: spec_fn(T) -> bool,
)
    requires
        total_preorder(le),
        forall|x: T, y: T| #[trigger] alike(x) && #[trigger] alike(y) ==> le(x, y),
    ensures
        stable_sort(s, le).filter(alike) == s.filter(alike),
    decreases s.len(),
{
    reveal(Seq::filter);
    if s.len() > 0 {
        let t = s.drop_last();
        let x = s.last();
        let r = stable_sort(t, le);
        law_sorting_keeps_equals_in_order(t, le, alike);
        lemma_stable_sort(t, le);
        lemma_sorted_position(r, x, le);
        let k = sorted_position(r, x, le);
        let (a, b) = (r.take(k), r.skip(k));
        assert(r =~= a + b);
        assert(r.insert(k, x) =~= a + seq![x] + b);
        Seq::filter_distributes_over_add(a, b, alike);
        Seq::filter_distributes_over_add(a + seq![x], b, alike);
        Seq::filter_distributes_over_add(a, seq![x], alike);
        assert(seq![x] =~= Seq::empty().push(x));
        Seq::<T>::empty().lemma_filter_push(x, alike);
        lemma_none_kept(Seq::<T>::empty(), alike);
        assert(seq![x].filter(alike) =~= if alike(x) {
            seq![x]
        } else {
            Seq::empty()
        });
        if alike(x) {
            assert forall|i: int| 0 <= i < b.len() implies !alike(#[trigger] b[i]) by {
                assert(b[i] == r[k + i]);
                assert(!le(r[k + i], x));
            }
            lemma_none_kept(b, alike);
            assert(r.insert(k, x).filter(alike) =~= s.filter(alike));
        } else {
            assert(r.insert(k, x).filter(alike) =~= s.filter(alike));
        }
    }
}

proof fn lemma_none_kept<T>(s: Seq<T>, keep: spec_fn(T) -> bool)
    requires
        forall|i: int| 0 <= i < s.len() ==> !keep(#[trigger] s[i]),
    ensures
        s.filter(keep) == Seq::<T>::empty(),
    decreases s.len(),
{
    reveal(Seq::filter);
    if s.len() > 0 {
        let t = s.drop_last();
        assert forall|i: int| 0 <= i < t.len() implies !keep(#[trigger] t[i]) by {
            assert(t[i] == s[i]);
        }
        lemma_none_kept(t, keep);
        assert(!keep(s[s.len() - 1]));
    }
}

} // verus!
