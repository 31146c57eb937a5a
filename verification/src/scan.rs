//! Exact statistics of a whole tensor: how many elements it has, how many of them are
//! zero or not finite, and the least and the greatest.
use vstd::prelude::*;
use vstd::slice::slice_subrange;

use crate::sample::{
    check_readable, decode_view, fits_view, item_size, open_reader, read_fault, reader_of, size_of_item,
    view_fits, view_value, Number,
    ViewDtype,
};
use crate::tree::TensorInfo;

verus! {

// ---------------------------------------------------------------------------
// Elements

/// Whether an element is a finite number. The exponent of a float that is not has all
/// its bits set.
pub open spec fn is_finite(n: Number) -> bool {
    match n {
        Number::Int(_) => true,
        Number::F64(b) => b / 0x10_0000_0000_0000 % 0x800 != 0x7ff,
        Number::F32(b) => b / 0x80_0000 % 0x100 != 0xff,
        Number::F16(b) => b / 0x400 % 0x20 != 0x1f,
        Number::BF16(b) => b / 0x80 % 0x100 != 0xff,
        Number::Unknown => false,
    }
}

/// Where bits of a float, of which the highest is worth `sign`, stand among the finite
/// numbers of their kind: the bits without the sign, negated where it is set.
pub open spec fn float_rank(bits: int, sign: int) -> int {
    if bits < sign {
        bits
    } else {
        sign - bits
    }
}

/// A number that orders the finite elements of one kind as their values are ordered, with
/// zero at zero.
pub open spec fn rank(n: Number) -> int {
    match n {
        Number::Int(i) => i as int,
        Number::F64(b) => float_rank(b as int, 0x8000_0000_0000_0000),
        Number::F32(b) => float_rank(b as int, 0x8000_0000),
        Number::F16(b) => float_rank(b as int, 0x8000),
        Number::BF16(b) => float_rank(b as int, 0x8000),
        Number::Unknown => 0,
    }
}

/// Whether an element is exactly zero, of either sign.
pub open spec fn is_zero(n: Number) -> bool {
    is_finite(n) && rank(n) == 0
}

/// Whether an element is a finite number.
pub fn finite(n: Number) -> (r: bool)
    ensures
        r == is_finite(n),
{
    match n {
        Number::Int(_) => true,
        Number::F64(b) => b / 0x10_0000_0000_0000 % 0x800 != 0x7ff,
        Number::F32(b) => b / 0x80_0000 % 0x100 != 0xff,
        Number::F16(b) => b / 0x400 % 0x20 != 0x1f,
        Number::BF16(b) => b / 0x80 % 0x100 != 0xff,
        Number::Unknown => false,
    }
}

fn float_place(bits: u64, sign: u64) -> (r: i128)
    requires
        sign <= 0x8000_0000_0000_0000,
    ensures
        r == float_rank(bits as int, sign as int),
{
    if bits < sign {
        bits as i128
    } else {
        sign as i128 - bits as i128
    }
}

/// Where an element stands among the finite ones of its kind.
pub fn place(n: Number) -> (r: i128)
    ensures
        r == rank(n),
{
    match n {
        Number::Int(i) => i,
        Number::F64(b) => float_place(b, 0x8000_0000_0000_0000),
        Number::F32(b) => float_place(b as u64, 0x8000_0000),
        Number::F16(b) => float_place(b as u64, 0x8000),
        Number::BF16(b) => float_place(b as u64, 0x8000),
        Number::Unknown => 0,
    }
}

// ---------------------------------------------------------------------------
// Statistics

/// How many elements are exactly zero.
pub open spec fn zeros_in(ns: Seq<Number>) -> nat
    decreases ns.len(),
{
    if ns.len() == 0 {
        0
    } else {
        zeros_in(ns.drop_last()) + if is_zero(ns.last()) {
            1nat
        } else {
            0
        }
    }
}

/// How many elements are not finite.
pub open spec fn nonfinite_in(ns: Seq<Number>) -> nat
    decreases ns.len(),
{
    if ns.len() == 0 {
        0
    } else {
        nonfinite_in(ns.drop_last()) + if is_finite(ns.last()) {
            0nat
        } else {
            1
        }
    }
}

/// Whether `m` is the least of the finite elements, or none where there are none.
pub open spec fn is_least(m: Option<Number>, ns: Seq<Number>) -> bool {
    match m {
        Some(x) => ns.contains(x) && is_finite(x) && forall|i: int|
            0 <= i < ns.len() && is_finite(#[trigger] ns[i]) ==> rank(x) <= rank(ns[i]),
        None => forall|i: int| 0 <= i < ns.len() ==> !is_finite(#[trigger] ns[i]),
    }
}

/// Whether `m` is the greatest of the finite elements, or none where there are none.
pub open spec fn is_greatest(m: Option<Number>, ns: Seq<Number>) -> bool {
    match m {
        Some(x) => ns.contains(x) && is_finite(x) && forall|i: int|
            0 <= i < ns.len() && is_finite(#[trigger] ns[i]) ==> rank(ns[i]) <= rank(x),
        None => forall|i: int| 0 <= i < ns.len() ==> !is_finite(#[trigger] ns[i]),
    }
}

/// Statistics of a run of elements of one kind.
#[derive(Clone, Copy, Debug, PartialEq, Eq)]
pub struct Stats {
    /// How many elements there are.
    pub count: u64,
    /// The least finite element.
    pub min: Option<Number>,
    /// The greatest finite element.
    pub max: Option<Number>,
    /// How many elements are exactly zero.
    pub zeros: u64,
    /// How many elements are not finite.
    pub nonfinite: u64,
}

impl Stats {
    /// Whether these are the statistics of the elements `ns`.
    pub open spec fn describes(self, ns: Seq<Number>) -> bool {
        &&& self.count == ns.len()
        &&& is_least(self.min, ns)
        &&& is_greatest(self.max, ns)
        &&& self.zeros == zeros_in(ns)
        &&& self.nonfinite == nonfinite_in(ns)
    }

    /// Statistics of no elements.
    pub fn new() -> (r: Stats)
        ensures
            r.describes(Seq::empty()),
            r == (Stats { count: 0, min: None, max: None, zeros: 0, nonfinite: 0 }),
    {
        Stats { count: 0, min: None, max: None, zeros: 0, nonfinite: 0 }
    }

    /// The statistics with one more element.
    pub open spec fn with(self, n: Number) -> Stats {
        Stats {
            count: (self.count + 1) as u64,
            min: lesser(self.min, finite_only(n)),
            max: greater(self.max, finite_only(n)),
            zeros: if is_zero(n) {
                (self.zeros + 1) as u64
            } else {
                self.zeros
            },
            nonfinite: if is_finite(n) {
                self.nonfinite
            } else {
                (self.nonfinite + 1) as u64
            },
        }
    }

    /// Take one more element in.
    pub fn push(&mut self, n: Number)
        requires
            old(self).count < u64::MAX,
            old(self).zeros < u64::MAX,
            old(self).nonfinite < u64::MAX,
        ensures
            *final(self) == old(self).with(n),
    {
        self.count = self.count + 1;
        if !finite(n) {
            self.nonfinite = self.nonfinite + 1;
            return;
        }
        let here: i128 = place(n);
        self.min = match self.min {
            Some(m) if place(m) <= here => Some(m),
            _ => Some(n),
        };
        self.max = match self.max {
            Some(m) if place(m) >= here => Some(m),
            _ => Some(n),
        };
        if here == 0 {
            self.zeros = self.zeros + 1;
        }
    }

    /// The statistics of two runs taken together.
    pub open spec fn joined(self, other: Stats) -> Stats {
        Stats {
            count: (self.count + other.count) as u64,
            min: lesser(self.min, other.min),
            max: greater(self.max, other.max),
            zeros: (self.zeros + other.zeros) as u64,
            nonfinite: (self.nonfinite + other.nonfinite) as u64,
        }
    }

    /// Merge the statistics of two runs.
    pub fn merge(a: Stats, b: Stats) -> (r: Stats)
        requires
            a.count + b.count <= u64::MAX,
            a.zeros + b.zeros <= u64::MAX,
            a.nonfinite + b.nonfinite <= u64::MAX,
        ensures
            r == a.joined(b),
    {
        let min = match (a.min, b.min) {
            (Some(x), Some(y)) => if place(x) <= place(y) {
                Some(x)
            } else {
                Some(y)
            },
            (Some(x), None) => Some(x),
            (None, y) => y,
        };
        let max = match (a.max, b.max) {
            (Some(x), Some(y)) => if place(x) >= place(y) {
                Some(x)
            } else {
                Some(y)
            },
            (Some(x), None) => Some(x),
            (None, y) => y,
        };
        Stats {
            count: a.count + b.count,
            min,
            max,
            zeros: a.zeros + b.zeros,
            nonfinite: a.nonfinite + b.nonfinite,
        }
    }
}

/// An element, where it is finite.
pub open spec fn finite_only(n: Number) -> Option<Number> {
    if is_finite(n) {
        Some(n)
    } else {
        None
    }
}

/// The lesser of two elements, the first where they are equal.
pub open spec fn lesser(a: Option<Number>, b: Option<Number>) -> Option<Number> {
    match (a, b) {
        (Some(x), Some(y)) => if rank(x) <= rank(y) {
            a
        } else {
            b
        },
        (Some(_), None) => a,
        (None, _) => b,
    }
}

/// The greater of two elements, the first where they are equal.
pub open spec fn greater(a: Option<Number>, b: Option<Number>) -> Option<Number> {
    match (a, b) {
        (Some(x), Some(y)) => if rank(x) >= rank(y) {
            a
        } else {
            b
        },
        (Some(_), None) => a,
        (None, _) => b,
    }
}

// ---------------------------------------------------------------------------
// Laws of the scan

proof fn lemma_counts_bounded(ns: Seq<Number>)
    ensures
        zeros_in(ns) <= ns.len(),
        nonfinite_in(ns) <= ns.len(),
    decreases ns.len(),
{
    if ns.len() > 0 {
        lemma_counts_bounded(ns.drop_last());
    }
}

/// One more element taken in describes the run with that element at its end.
pub proof fn law_pushing_extends(s: Stats, ns: Seq<Number>, n: Number)
    requires
        s.describes(ns),
        ns.len() < u64::MAX,
    ensures
        s.with(n).describes(ns.push(n)),
{
    let all = ns.push(n);
    assert(all.drop_last() =~= ns);
    lemma_counts_bounded(ns);
    assert(all[ns.len() as int] == n);
    assert forall|x: Number| ns.contains(x) implies all.contains(x) by {
        let i = ns.index_of(x);
        assert(all[i] == x);
    }
    assert forall|i: int| 0 <= i < ns.len() implies #[trigger] all[i] == ns[i] by {}
    assert forall|i: int| 0 <= i < ns.len() implies #[trigger] ns[i] == all[i] by {}
}

proof fn lemma_counts_of_parts(a: Seq<Number>, b: Seq<Number>)
    ensures
        zeros_in(a + b) == zeros_in(a) + zeros_in(b),
        nonfinite_in(a + b) == nonfinite_in(a) + nonfinite_in(b),
    decreases b.len(),
{
    if b.len() == 0 {
        assert(a + b =~= a);
    } else {
        assert((a + b).drop_last() =~= a + b.drop_last());
        lemma_counts_of_parts(a, b.drop_last());
    }
}

/// The merged statistics of two runs describe the runs one after the other, so a scan may
/// be split anywhere.
pub proof fn law_merging_joins(s: Stats, a: Seq<Number>, t: Stats, b: Seq<Number>)
    requires
        s.describes(a),
        t.describes(b),
        a.len() + b.len() <= u64::MAX,
    ensures
        s.joined(t).describes(a + b),
{
    let all = a + b;
    lemma_counts_of_parts(a, b);
    lemma_counts_bounded(all);
    assert forall|x: Number| a.contains(x) implies all.contains(x) by {
        let i = a.index_of(x);
        assert(all[i] == x);
    }
    assert forall|x: Number| b.contains(x) implies all.contains(x) by {
        let i = b.index_of(x);
        assert(all[a.len() + i] == x);
    }
    assert forall|i: int| 0 <= i < all.len() implies (#[trigger] all[i]) == if i < a.len() {
        a[i]
    } else {
        b[i - a.len()]
    } by {}
}

// ---------------------------------------------------------------------------
// Bytes

/// The elements that whole containers of `item` bytes hold under a view, in order. Bytes
/// after the last whole container hold none.
pub open spec fn elements_in(bytes: Seq<u8>, item: int, view: ViewDtype, dt: Seq<char>) -> Seq<
    Number,
> {
    let packing = view.values_per(item as nat) as int;
    Seq::new(
        (bytes.len() as int / item * packing) as nat,
        |i: int|
            view_value(
                view,
                dt,
                bytes.subrange(i / packing * item, i / packing * item + item),
                i % packing,
            ),
    )
}

/// The elements of two buffers of whole containers, one after the other, are those of the
/// first and then those of the second.
pub proof fn law_buffers_join(
    a: Seq<u8>,
    b: Seq<u8>,
    item: int,
    view: ViewDtype,
    dt: Seq<char>,
)
    requires
        item > 0,
        a.len() as int % item == 0,
    ensures
        elements_in(a + b, item, view, dt) == elements_in(a, item, view, dt) + elements_in(
            b,
            item,
            view,
            dt,
        ),
{
    let packing = view.values_per(item as nat) as int;
    let na = a.len() as int / item;
    let nb = b.len() as int / item;
    let (alen, blen) = (a.len() as int, b.len() as int);
    assert(alen == na * item) by (nonlinear_arith)
        requires
            item > 0,
            alen % item == 0,
            na == alen / item,
    ;
    assert((alen + blen) / item == na + nb) by {
        vstd::arithmetic::div_mod::lemma_div_multiples_vanish_fancy(na, blen % item, item);
        vstd::arithmetic::div_mod::lemma_fundamental_div_mod(blen, item);
        assert(alen + blen == item * (na + nb) + blen % item) by (nonlinear_arith)
            requires
                alen == na * item,
                blen == item * nb + blen % item,
        ;
        vstd::arithmetic::div_mod::lemma_fundamental_div_mod_converse(
            alen + blen,
            item,
            na + nb,
            blen % item,
        );
    }
    assert((na + nb) * packing == na * packing + nb * packing) by (nonlinear_arith);
    assert(na >= 0 && nb >= 0) by {
        vstd::arithmetic::div_mod::lemma_div_pos_is_pos(alen, item);
        vstd::arithmetic::div_mod::lemma_div_pos_is_pos(blen, item);
    }
    assert(na * packing >= 0 && nb * packing >= 0) by (nonlinear_arith)
        requires
            na >= 0,
            nb >= 0,
            packing >= 0,
    ;
    let whole = elements_in(a + b, item, view, dt);
    let (left, right) = (elements_in(a, item, view, dt), elements_in(b, item, view, dt));
    assert(packing > 0);
    assert forall|i: int| 0 <= i < whole.len() implies #[trigger] whole[i] == (left + right)[i] by {
        let k = i / packing;
        vstd::arithmetic::div_mod::lemma_fundamental_div_mod(i, packing);
        if i < na * packing {
            assert(0 <= k < na) by (nonlinear_arith)
                requires
                    0 <= i < na * packing,
                    packing > 0,
                    k == i / packing,
            ;
            assert(0 <= k * item && k * item + item <= alen) by (nonlinear_arith)
                requires
                    0 <= k < na,
                    item > 0,
                    alen == na * item,
            ;
            assert((a + b).subrange(k * item, k * item + item) =~= a.subrange(
                k * item,
                k * item + item,
            ));
        } else {
            let j = i - na * packing;
            let h = j / packing;
            vstd::arithmetic::div_mod::lemma_fundamental_div_mod(j, packing);
            assert(0 <= h < nb) by (nonlinear_arith)
                requires
                    0 <= j < nb * packing,
                    packing > 0,
                    h == j / packing,
            ;
            assert(i == packing * (na + h) + j % packing) by (nonlinear_arith)
                requires
                    i == j + na * packing,
                    j == packing * h + j % packing,
            ;
            vstd::arithmetic::div_mod::lemma_fundamental_div_mod_converse(
                i,
                packing,
                na + h,
                j % packing,
            );
            assert(k * item == alen + h * item) by (nonlinear_arith)
                requires
                    k == na + h,
                    alen == na * item,
            ;
            assert(0 <= h * item && h * item + item <= blen) by (nonlinear_arith)
                requires
                    0 <= h < nb,
                    item > 0,
                    nb == blen / item,
            ;
            assert((a + b).subrange(k * item, k * item + item) =~= b.subrange(
                h * item,
                h * item + item,
            ));
        }
    }
    assert(whole =~= left + right);
}

/// Statistics of the elements that a buffer of containers holds under a view.
pub fn reduce_view_bytes(bytes: &[u8], item: usize, view: ViewDtype, dtype: &str) -> (r: Stats)
    requires
        1 <= item <= 8,
        view_fits(view, dtype@, item as nat),
        bytes.len() * 2 <= u64::MAX,
    ensures
        r.describes(elements_in(bytes@, item as int, view, dtype@)),
{
    let packing = view.packing(item);
    let containers: usize = bytes.len() / item;
    let ghost all = elements_in(bytes@, item as int, view, dtype@);
    let mut s = Stats::new();
    let mut k: usize = 0;
    proof {
        let (n, i, p, c) = (bytes.len() as int, item as int, packing as int, containers as int);
        assert(c * i <= n) by (nonlinear_arith)
            requires
                c == n / i,
                i > 0,
        ;
        assert(c * p <= c * i * 2) by (nonlinear_arith)
            requires
                c >= 0,
                i >= 1,
                p == 1 || p == i * 2,
        ;
        assert(all.take(0) =~= Seq::<Number>::empty());
        assert(k * p == 0) by (nonlinear_arith)
            requires
                k == 0,
        ;
    }
    while k < containers
        invariant
            1 <= item <= 8,
            view_fits(view, dtype@, item as nat),
            packing == view.values_per(item as nat),
            packing >= 1,
            containers == bytes.len() / item,
            containers * item <= bytes.len(),
            containers * packing <= bytes.len() * 2 <= u64::MAX,
            all == elements_in(bytes@, item as int, view, dtype@),
            all.len() == containers * packing,
            k <= containers,
            s.describes(all.take(k * packing)),
        decreases containers - k,
    {
        proof {
            let (i, p, c, kk) = (item as int, packing as int, containers as int, k as int);
            assert(kk * i + i <= c * i && 0 <= kk * i) by (nonlinear_arith)
                requires
                    0 <= kk < c,
                    i > 0,
            ;
            assert(kk * p + p <= c * p && 0 <= kk * p && (kk + 1) * p == kk * p + p)
                by (nonlinear_arith)
                requires
                    0 <= kk < c,
                    p > 0,
            ;
        }
        let container = slice_subrange(bytes, k * item, k * item + item);
        let mut sub: usize = 0;
        while sub < packing
            invariant
                1 <= item <= 8,
                view_fits(view, dtype@, item as nat),
                packing == view.values_per(item as nat),
                packing >= 1,
                all == elements_in(bytes@, item as int, view, dtype@),
                containers * packing <= u64::MAX,
                all.len() == containers * packing,
                0 <= k * packing,
                k * packing + packing <= containers * packing,
                container@ == bytes@.subrange(k * item, k * item + item),
                container@.len() == item,
                sub <= packing,
                s.describes(all.take(k * packing + sub)),
            decreases packing - sub,
        {
            let n = decode_view(view, dtype, container, sub);
            proof {
                let at = k * packing + sub;
                vstd::arithmetic::div_mod::lemma_fundamental_div_mod_converse(
                    at,
                    packing as int,
                    k as int,
                    sub as int,
                );
                assert(all[at] == n);
                lemma_counts_bounded(all.take(at));
                law_pushing_extends(s, all.take(at), n);
                assert(all.take(at).push(n) =~= all.take(at + 1));
            }
            s.push(n);
            sub = sub + 1;
        }
        k = k + 1;
    }
    proof {
        assert(all.take(all.len() as int) =~= all);
    }
    s
}

/// A scan reads no block: the first dimension is empty.
pub open spec fn has_no_block(shape: Seq<usize>) -> bool {
    shape.len() > 0 && shape[0] == 0
}

/// Why a tensor's bytes cannot be scanned, if so.
pub open spec fn scan_fault(t: TensorInfo, len: nat, view: ViewDtype) -> Option<Seq<char>> {
    match size_of_item(t.dtype@) {
        None => Some("unsupported dtype: "@ + t.dtype@),
        Some(item) => match reader_of(t) {
            Err(e) => Some(e),
            Ok(_) => if read_fault(t) is Some && !has_no_block(t.shape@) {
                read_fault(t)
            } else if len * 2 > u64::MAX {
                Some("the tensor is too large"@)
            } else if !view_fits(view, t.dtype@, item as nat) {
                Some(t.dtype@ + " cannot be read in this view"@)
            } else {
                None
            },
        },
    }
}

/// Statistics of a tensor whose stored bytes are at hand, every element of it read once
/// under a view.
pub fn tensor_stats(t: &TensorInfo, blob: &[u8], view: ViewDtype) -> (r: Result<Stats, String>)
    ensures
        match scan_fault(*t, blob@.len(), view) {
            Some(e) => r is Err && r->Err_0@ == e,
            None => r is Ok && r->Ok_0.describes(
                elements_in(blob@, size_of_item(t.dtype@)->0 as int, view, t.dtype@),
            ),
        },
{
    let item: usize = match item_size(t.dtype.as_str()) {
        Some(b) => b,
        None => {
            return Err("unsupported dtype: ".to_owned().concat(t.dtype.as_str()));
        },
    };
    let reader = match open_reader(t) {
        Ok(reader) => reader,
        Err(e) => {
            return Err(e);
        },
    };
    if !(t.shape.len() > 0 && t.shape[0] == 0) {
        match check_readable(t, reader) {
            Ok(_) => {},
            Err(e) => {
                return Err(e);
            },
        }
    }
    if blob.len() as u128 * 2 > u64::MAX as u128 {
        return Err("the tensor is too large".to_owned());
    }
    if !fits_view(view, t.dtype.as_str(), item) {
        return Err(t.dtype.clone().concat(" cannot be read in this view"));
    }
    Ok(reduce_view_bytes(blob, item, view, t.dtype.as_str()))
}

// ---------------------------------------------------------------------------
// What is counted

/// As many zeros and as many numbers that are not finite are counted as there are.
pub proof fn law_zeros_and_nonfinite_are_counted(ns: Seq<Number>)
    ensures
        zeros_in(ns) == ns.filter(|n: Number| is_zero(n)).len(),
        nonfinite_in(ns) == ns.filter(|n: Number| !is_finite(n)).len(),
    decreases ns.len(),
{
    reveal(Seq::filter);
    if ns.len() > 0 {
        law_zeros_and_nonfinite_are_counted(ns.drop_last());
    }
}

/// Integers are finite; floats are where not all bits of their exponent are set. An integer
/// is zero where it is 0, a float where it has no bit set but its sign.
pub proof fn law_zero_and_finite(i: i128, d: u64, s: u32, h: u16)
    ensures
        is_finite(Number::Int(i)),
        is_zero(Number::Int(i)) <==> i == 0,
        is_zero(Number::F64(d)) <==> d == 0 || d == 0x8000_0000_0000_0000,
        is_zero(Number::F32(s)) <==> s == 0 || s == 0x8000_0000,
        is_zero(Number::F16(h)) <==> h == 0 || h == 0x8000,
        is_zero(Number::BF16(h)) <==> h == 0 || h == 0x8000,
        !is_finite(Number::F64(0x7ff0_0000_0000_0000)),
        !is_finite(Number::F32(0x7f80_0000)),
        !is_finite(Number::F16(0x7c00)),
        !is_finite(Number::BF16(0x7f80)),
        0 <= d < 0x7ff0_0000_0000_0000 ==> is_finite(Number::F64(d)),
        0 <= s < 0x7f80_0000 ==> is_finite(Number::F32(s)),
        0 <= h < 0x7c00 ==> is_finite(Number::F16(h)),
        0 <= h < 0x7f80 ==> is_finite(Number::BF16(h)),
        0x7ff0_0000_0000_0000 <= d < 0x8000_0000_0000_0000 ==> !is_finite(Number::F64(d)),
        0x7f80_0000 <= s < 0x8000_0000 ==> !is_finite(Number::F32(s)),
        0x7c00 <= h < 0x8000 ==> !is_finite(Number::F16(h)),
        0x7f80 <= h < 0x8000 ==> !is_finite(Number::BF16(h)),
        !is_finite(Number::Unknown),
{
}

/// Floats rank as their values do: those without the sign bit by their bits, above those
/// with it, which rank the other way round; setting the sign turns the rank about.
pub proof fn law_floats_rank_as_their_values(a: u32, b: u32, x: u16, y: u16)
    requires
        a < b < 0x8000_0000,
        x < y < 0x8000,
    ensures
        rank(Number::F32(a)) < rank(Number::F32(b)),
        rank(Number::F32((b + 0x8000_0000) as u32)) < rank(Number::F32((a + 0x8000_0000) as u32)),
        rank(Number::F32((a + 0x8000_0000) as u32)) == -rank(Number::F32(a)),
        rank(Number::F16(x)) < rank(Number::F16(y)),
        rank(Number::F16((x + 0x8000) as u16)) == -rank(Number::F16(x)),
        rank(Number::BF16(x)) < rank(Number::BF16(y)),
        rank(Number::BF16((x + 0x8000) as u16)) == -rank(Number::BF16(x)),
{
}

/// The same of doubles and of integers.
pub proof fn law_doubles_and_integers_rank_as_their_values(a: u64, b: u64, i: i128, j: i128)
    requires
        a < b < 0x8000_0000_0000_0000,
    ensures
        rank(Number::F64(a)) < rank(Number::F64(b)),
        rank(Number::F64((a + 0x8000_0000_0000_0000) as u64)) == -rank(Number::F64(a)),
        rank(Number::Int(i)) < rank(Number::Int(j)) <==> i < j,
{
}

/// Statistics over some numbers: their count, a least and a greatest among the finite ones,
/// the zeros and those that are not finite.
pub proof fn law_statistics_describe_the_numbers(s: Stats, ns: Seq<Number>)
    requires
        s.describes(ns),
    ensures
        s.count == ns.len(),
        s.zeros == ns.filter(|n: Number| is_zero(n)).len(),
        s.nonfinite == ns.filter(|n: Number| !is_finite(n)).len(),
        s.min is Some <==> exists|i: int| 0 <= i < ns.len() && is_finite(#[trigger] ns[i]),
        s.max is Some <==> s.min is Some,
        forall|i: int|
            0 <= i < ns.len() && is_finite(#[trigger] ns[i]) ==> rank(s.min->0) <= rank(ns[i])
                <= rank(s.max->0),
        s.min is Some ==> ns.contains(s.min->0) && ns.contains(s.max->0),
{
    law_zeros_and_nonfinite_are_counted(ns);
    if s.min is Some {
        let i = ns.index_of(s.min->0);
        assert(is_finite(ns[i]));
    }
    if s.max is Some {
        let i = ns.index_of(s.max->0);
        assert(is_finite(ns[i]));
    }
}

/// A tensor is scanned where its dtype has a width, its bytes can be reached and its view is
/// of that width; otherwise it is said why not.
pub proof fn law_scans_are_refused(t: TensorInfo, len: nat, view: ViewDtype)
    ensures
        size_of_item(t.dtype@) is None ==> scan_fault(t, len, view) == Some(
            "unsupported dtype: "@ + t.dtype@,
        ),
        reader_of(t) is Err ==> scan_fault(t, len, view) is Some,
        scan_fault(t, len, view) is None ==> size_of_item(t.dtype@) is Some && reader_of(t) is Ok
            && view_fits(view, t.dtype@, size_of_item(t.dtype@)->0 as nat) && 2 * len <= u64::MAX,
        size_of_item(t.dtype@) is Some && reader_of(t) is Ok && read_fault(t) is None && 2 * len
            <= u64::MAX && view is Stored ==> scan_fault(t, len, view) is None,
{
}

} // verus!
