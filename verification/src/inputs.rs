//! Reading what is typed: numbers, shapes, slices and shell words.
use vstd::prelude::*;

use crate::header::{count_elements, element_count};
use crate::text::{add_line, all_digits, chars_of, decimal, decimal_string, digit, digits_to_u64};
use crate::text::{digits_value, from_chars, is_digit, same, substring, texts};

verus! {

/// The characters that count as white space.
pub open spec fn is_white(c: char) -> bool {
    ('\u{9}' <= c && c <= '\u{d}') || c == ' ' || c == '\u{85}' || c == '\u{a0}' || c == '\u{1680}'
        || ('\u{2000}' <= c && c <= '\u{200a}') || c == '\u{2028}' || c == '\u{2029}' || c
        == '\u{202f}' || c == '\u{205f}' || c == '\u{3000}'
}

pub fn white(c: char) -> (b: bool)
    ensures
        b == is_white(c),
{
    ('\u{9}' <= c && c <= '\u{d}') || c == ' ' || c == '\u{85}' || c == '\u{a0}' || c == '\u{1680}'
        || ('\u{2000}' <= c && c <= '\u{200a}') || c == '\u{2028}' || c == '\u{2029}' || c
        == '\u{202f}' || c == '\u{205f}' || c == '\u{3000}'
}

/// A string without white space at its beginning.
pub open spec fn trim_front(s: Seq<char>) -> Seq<char>
    decreases s.len(),
{
    if s.len() > 0 && is_white(s[0]) {
        trim_front(s.skip(1))
    } else {
        s
    }
}

/// A string without white space at its end.
pub open spec fn trim_back(s: Seq<char>) -> Seq<char>
    decreases s.len(),
{
    if s.len() > 0 && is_white(s.last()) {
        trim_back(s.drop_last())
    } else {
        s
    }
}

/// A string without white space at either end.
pub open spec fn trimmed(s: Seq<char>) -> Seq<char> {
    trim_back(trim_front(s))
}

/// A string without white space at either end.
pub fn trim(s: &str) -> (r: String)
    ensures
        r@ == trimmed(s@),
{
    let v = chars_of(s);
    let mut a: usize = 0;
    proof {
        assert(v@.skip(0) =~= v@);
    }
    while a < v.len() && white(v[a])
        invariant
            a <= v.len(),
            trim_front(v@.skip(a as int)) == trim_front(v@),
        decreases v.len() - a,
    {
        proof {
            assert(v@.skip(a as int).skip(1) =~= v@.skip(a + 1));
        }
        a = a + 1;
    }
    let mut b: usize = v.len();
    proof {
        assert(v@.subrange(a as int, b as int) =~= v@.skip(a as int));
    }
    while b > a && white(v[b - 1])
        invariant
            a <= b <= v.len(),
            trim_back(v@.subrange(a as int, b as int)) == trim_back(v@.skip(a as int)),
        decreases b,
    {
        proof {
            assert(v@.subrange(a as int, b as int).drop_last() =~= v@.subrange(a as int, b - 1));
            assert(v@.subrange(a as int, b as int).last() == v@[b - 1]);
        }
        b = b - 1;
    }
    proof {
        if b > a {
            assert(v@.subrange(a as int, b as int).last() == v@[b - 1]);
        }
    }
    substring(&v, a, b)
}

/// The digits of a number: a `+` may stand before them.
pub open spec fn unsigned_digits(s: Seq<char>) -> Seq<char> {
    if s.len() > 0 && s[0] == '+' {
        s.skip(1)
    } else {
        s
    }
}

/// The whole number that a string writes, if it writes one and it fits.
pub open spec fn number_of(s: Seq<char>) -> Option<usize> {
    let d = unsigned_digits(s);
    if d.len() > 0 && all_digits(d) && digits_value(d) <= usize::MAX {
        Some(digits_value(d) as usize)
    } else {
        None
    }
}

/// The whole number that a string writes.
pub fn parse_number(s: &str) -> (r: Option<usize>)
    ensures
        r == number_of(s@),
{
    let v = chars_of(s);
    let from: usize = if v.len() > 0 && v[0] == '+' {
        1
    } else {
        0
    };
    let ghost d = unsigned_digits(s@);
    proof {
        assert(d =~= v@.subrange(from as int, v.len() as int));
    }
    if from == v.len() {
        return None;
    }
    let mut i: usize = from;
    while i < v.len()
        invariant
            from <= i <= v.len(),
            d == v@.subrange(from as int, v.len() as int),
            d == unsigned_digits(s@),
            forall|j: int| 0 <= j < i - from ==> is_digit(#[trigger] d[j]),
        decreases v.len() - i,
    {
        if !digit(v[i]) {
            proof {
                assert(!is_digit(d[i - from]));
            }
            return None;
        }
        i = i + 1;
    }
    match digits_to_u64(&v, from, v.len(), usize::MAX as u64) {
        Some(n) => Some(n as usize),
        None => None,
    }
}

// ---------------------------------------------------------------------------
// Shapes

/// What separates the dimensions of a shape.
pub open spec fn is_separator(c: char) -> bool {
    c == ',' || c == 'x' || is_white(c)
}

/// The pieces of a string between separators, empty ones left out.
pub open spec fn tokens(s: Seq<char>) -> Seq<Seq<char>>
    decreases s.len(),
{
    if s.len() == 0 {
        Seq::empty()
    } else if is_separator(s.last()) {
        tokens(s.drop_last())
    } else if s.len() > 1 && !is_separator(s[s.len() - 2]) {
        let t = tokens(s.drop_last());
        t.drop_last().push(t.last().push(s.last()))
    } else {
        tokens(s.drop_last()).push(seq![s.last()])
    }
}

/// The pieces of a string between separators.
pub fn split_tokens(s: &str) -> (r: Vec<String>)
    ensures
        texts(r@) == tokens(s@),
{
    let v = chars_of(s);
    let mut r: Vec<String> = Vec::new();
    let mut part: Vec<char> = Vec::new();
    let mut i: usize = 0;
    proof {
        assert(texts(r@) =~= tokens(v@.take(0)));
    }
    while i < v.len()
        invariant
            i <= v.len(),
            part.len() > 0 ==> texts(r@).push(part@) == tokens(v@.take(i as int)),
            part.len() == 0 ==> texts(r@) == tokens(v@.take(i as int)),
            part.len() > 0 <==> i > 0 && !is_separator(v@[i - 1]),
        decreases v.len() - i,
    {
        let ghost before = tokens(v@.take(i as int));
        proof {
            assert(v@.take(i + 1).drop_last() =~= v@.take(i as int));
        }
        let c = v[i];
        if c == ',' || c == 'x' || white(c) {
            if part.len() > 0 {
                let word = from_chars(&part);
                add_line(&mut r, word);
                part = Vec::new();
            }
        } else {
            let ghost word = part@;
            part.push(c);
            proof {
                if i > 0 && !is_separator(v@[i - 1]) {
                    assert(before == texts(r@).push(word));
                    assert(before.drop_last() =~= texts(r@));
                    assert(before.last() == word);
                } else {
                    assert(part@ =~= seq![c]);
                }
            }
        }
        i = i + 1;
    }
    proof {
        assert(v@.take(i as int) =~= v@);
    }
    if part.len() > 0 {
        let word = from_chars(&part);
        add_line(&mut r, word);
    }
    r
}

/// Whether a dimension is to be inferred.
pub open spec fn is_wildcard(t: Seq<char>) -> bool {
    t == "*"@ || t == "-1"@ || t == "_"@
}

/// Whether a dimension among these is to be inferred.
pub open spec fn infers(dims: Seq<Option<usize>>) -> bool {
    exists|i: int| 0 <= i < dims.len() && (#[trigger] dims[i]) is None
}

/// The dimensions that the tokens write, or the complaint about the first that is wrong.
pub open spec fn dims_of(ts: Seq<Seq<char>>) -> Result<Seq<Option<usize>>, Seq<char>>
    decreases ts.len(),
{
    if ts.len() == 0 {
        Ok(Seq::empty())
    } else {
        match dims_of(ts.drop_last()) {
            Err(e) => Err(e),
            Ok(dims) => if is_wildcard(ts.last()) {
                if infers(dims) {
                    Err("only one inferred dimension (`-1`, `*`, `_`) is allowed"@)
                } else {
                    Ok(dims.push(None))
                }
            } else {
                match number_of(ts.last()) {
                    None => Err("'"@ + ts.last() + "' is not a whole number"@),
                    Some(n) => if n == 0 {
                        Err("dimensions must be non-zero"@)
                    } else {
                        Ok(dims.push(Some(n)))
                    },
                }
            },
        }
    }
}

/// The product of the dimensions that are given.
pub open spec fn volume(dims: Seq<Option<usize>>) -> nat
    decreases dims.len(),
{
    if dims.len() == 0 {
        1
    } else {
        match dims.last() {
            Some(n) => volume(dims.drop_last()) * n as nat,
            None => volume(dims.drop_last()),
        }
    }
}

/// The dimensions with the one to be inferred filled in.
pub open spec fn filled_in(dims: Seq<Option<usize>>, n: usize) -> Seq<usize> {
    dims.map_values(
        |d: Option<usize>|
            match d {
                Some(x) => x,
                None => n,
            },
    )
}

/// The shape that an entry gives to a tensor of `elements` elements, or the complaint.
pub open spec fn shape_read(input: Seq<char>, elements: usize) -> Result<Seq<usize>, Seq<char>> {
    let ts = tokens(input);
    if ts.len() == 0 {
        Err("enter one or more dimensions"@)
    } else {
        match dims_of(ts) {
            Err(e) => Err(e),
            Ok(dims) => if infers(dims) {
                if elements as nat % volume(dims) != 0 {
                    Err(
                        "can't infer a whole dimension for "@ + decimal(elements as nat)
                            + " elements"@,
                    )
                } else {
                    Ok(filled_in(dims, (elements as nat / volume(dims)) as usize))
                }
            } else if volume(dims) != elements {
                Err(
                    decimal(element_count(filled_in(dims, 0)) as nat)
                        + " elements, but the tensor has "@ + decimal(elements as nat),
                )
            } else {
                Ok(filled_in(dims, 0))
            },
        }
    }
}

/// The dimensions are not zero.
pub open spec fn nonzero(dims: Seq<Option<usize>>) -> bool {
    forall|i: int| 0 <= i < dims.len() && (#[trigger] dims[i]) is Some ==> dims[i]->0 > 0
}

proof fn lemma_dims_nonzero(ts: Seq<Seq<char>>)
    ensures
        dims_of(ts) is Ok ==> nonzero(dims_of(ts)->Ok_0),
    decreases ts.len(),
{
    if ts.len() > 0 {
        lemma_dims_nonzero(ts.drop_last());
    }
}

proof fn lemma_volume_grows(dims: Seq<Option<usize>>, n: int)
    requires
        nonzero(dims),
        0 <= n <= dims.len(),
    ensures
        1 <= volume(dims.take(n)) <= volume(dims),
    decreases dims.len(),
{
    if dims.len() == 0 {
        assert(dims.take(n) =~= dims);
    } else {
        let d = dims.drop_last();
        assert forall|i: int| 0 <= i < d.len() && (#[trigger] d[i]) is Some implies d[i]->0 > 0 by {
            assert(d[i] == dims[i]);
        }
        assert(volume(d) <= volume(dims)) by {
            if dims.last() is Some {
                assert(dims[dims.len() - 1]->0 > 0);
                let x = dims.last()->0 as int;
                let y = volume(d) as int;
                assert(y <= y * x) by (nonlinear_arith)
                    requires
                        y >= 0,
                        x >= 1,
                ;
            }
        }
        if n == dims.len() {
            assert(dims.take(n) =~= dims);
            assert(d.take(d.len() as int) =~= d);
            lemma_volume_grows(d, d.len() as int);
        } else {
            assert(d.take(n) =~= dims.take(n));
            lemma_volume_grows(d, n);
        }
    }
}

/// The product of the given dimensions, if it fits.
fn product_of(dims: &Vec<Option<usize>>) -> (r: Option<usize>)
    requires
        nonzero(dims@),
    ensures
        match r {
            Some(n) => n == volume(dims@) && n > 0,
            None => volume(dims@) > usize::MAX,
        },
{
    let mut r: usize = 1;
    let mut i: usize = 0;
    while i < dims.len()
        invariant
            i <= dims.len(),
            nonzero(dims@),
            r == volume(dims@.take(i as int)),
            r > 0,
        decreases dims.len() - i,
    {
        proof {
            assert(dims@.take(i + 1).drop_last() =~= dims@.take(i as int));
            lemma_volume_grows(dims@, i + 1);
        }
        if let Some(n) = dims[i] {
            proof {
                assert(dims@[i as int]->0 > 0);
            }
            match r.checked_mul(n) {
                Some(p) => {
                    proof {
                        assert(p > 0) by (nonlinear_arith)
                            requires
                                p == r * n,
                                r > 0,
                                n > 0,
                        ;
                    }
                    r = p;
                },
                None => {
                    return None;
                },
            }
        }
        i = i + 1;
    }
    proof {
        assert(dims@.take(i as int) =~= dims@);
    }
    Some(r)
}

fn fill_in(dims: &Vec<Option<usize>>, n: usize) -> (r: Vec<usize>)
    ensures
        r@ == filled_in(dims@, n),
{
    let mut r: Vec<usize> = Vec::new();
    let mut i: usize = 0;
    while i < dims.len()
        invariant
            i <= dims.len(),
            r@ =~= filled_in(dims@, n).take(i as int),
        decreases dims.len() - i,
    {
        match dims[i] {
            Some(x) => r.push(x),
            None => r.push(n),
        }
        i = i + 1;
    }
    proof {
        assert(filled_in(dims@, n).take(i as int) =~= filled_in(dims@, n));
    }
    r
}

fn read_dims(ts: &Vec<String>) -> (r: Result<(Vec<Option<usize>>, bool), String>)
    ensures
        match r {
            Ok((dims, open)) => dims_of(texts(ts@)) == Ok::<Seq<Option<usize>>, Seq<char>>(dims@)
                && open == infers(dims@),
            Err(e) => dims_of(texts(ts@)) == Err::<Seq<Option<usize>>, Seq<char>>(e@),
        },
{
    let ghost all = texts(ts@);
    let mut dims: Vec<Option<usize>> = Vec::new();
    let mut open = false;
    let mut i: usize = 0;
    proof {
        assert(dims@ =~= Seq::empty());
        lemma_dims_error(all, 0);
    }
    while i < ts.len()
        invariant
            i <= ts.len(),
            all == texts(ts@),
            dims_of(all.take(i as int)) == Ok::<Seq<Option<usize>>, Seq<char>>(dims@),
            open == infers(dims@),
        decreases ts.len() - i,
    {
        proof {
            assert(all.take(i + 1).drop_last() =~= all.take(i as int));
            assert(all.take(i + 1).last() == ts@[i as int]@);
            lemma_dims_error(all, i + 1);
        }
        let t = ts[i].as_str();
        let ghost before = dims@;
        if same(t, "*") || same(t, "-1") || same(t, "_") {
            if open {
                return Err(
                    "only one inferred dimension (`-1`, `*`, `_`) is allowed".to_owned(),
                );
            }
            dims.push(None);
            open = true;
            proof {
                assert(dims@[before.len() as int] is None);
            }
        } else {
            match parse_number(t) {
                None => {
                    return Err("'".to_owned().concat(t).concat("' is not a whole number"));
                },
                Some(n) => {
                    if n == 0 {
                        return Err("dimensions must be non-zero".to_owned());
                    }
                    dims.push(Some(n));
                    proof {
                        assert(infers(dims@) <==> infers(before)) by {
                            if infers(before) {
                                let k = choose|k: int|
                                    0 <= k < before.len() && (#[trigger] before[k]) is None;
                                assert(dims@[k] is None);
                            }
                            if infers(dims@) {
                                let k = choose|k: int|
                                    0 <= k < dims@.len() && (#[trigger] dims@[k]) is None;
                                assert(before[k] is None);
                            }
                        }
                    }
                },
            }
        }
        i = i + 1;
    }
    proof {
        assert(all.take(i as int) =~= all);
    }
    Ok((dims, open))
}

/// A complaint about the first tokens is the complaint about all of them.
proof fn lemma_dims_error(ts: Seq<Seq<char>>, n: int)
    requires
        0 <= n <= ts.len(),
    ensures
        dims_of(ts.take(n)) is Err ==> dims_of(ts) == dims_of(ts.take(n)),
    decreases ts.len() - n,
{
    if n == ts.len() {
        assert(ts.take(n) =~= ts);
    } else {
        lemma_dims_error(ts, n + 1);
        assert(ts.take(n + 1).drop_last() =~= ts.take(n));
    }
}

/// Read a shape: dimensions separated by `,`, white space or `x`, whose product must be
/// the number of elements. One of them may be `-1`, `*` or `_`, and is then inferred.
pub fn parse_shape_input(input: &str, elements: usize) -> (r: Result<Vec<usize>, String>)
    ensures
        match r {
            Ok(shape) => shape_read(input@, elements) == Ok::<Seq<usize>, Seq<char>>(shape@),
            Err(e) => shape_read(input@, elements) == Err::<Seq<usize>, Seq<char>>(e@),
        },
{
    let ts = split_tokens(input);
    if ts.len() == 0 {
        return Err("enter one or more dimensions".to_owned());
    }
    let (dims, open) = match read_dims(&ts) {
        Ok(d) => d,
        Err(e) => {
            return Err(e);
        },
    };
    proof {
        lemma_dims_nonzero(tokens(input@));
        lemma_volume_grows(dims@, dims.len() as int);
        assert(dims@.take(dims.len() as int) =~= dims@);
    }
    let known = product_of(&dims);
    if open {
        let inferred: usize = match known {
            Some(k) => {
                if elements % k != 0 {
                    return Err(
                        "can't infer a whole dimension for ".to_owned().concat(
                            decimal_string(elements as u128).as_str(),
                        ).concat(" elements"),
                    );
                }
                elements / k
            },
            None => {
                proof {
                    vstd::arithmetic::div_mod::lemma_small_mod(elements as nat, volume(dims@));
                    vstd::arithmetic::div_mod::lemma_basic_div(
                        elements as int,
                        volume(dims@) as int,
                    );
                }
                if elements != 0 {
                    return Err(
                        "can't infer a whole dimension for ".to_owned().concat(
                            decimal_string(elements as u128).as_str(),
                        ).concat(" elements"),
                    );
                }
                0
            },
        };
        Ok(fill_in(&dims, inferred))
    } else {
        let shape = fill_in(&dims, 0);
        if known != Some(elements) {
            return Err(
                decimal_string(count_elements(&shape) as u128).concat(
                    " elements, but the tensor has ",
                ).concat(decimal_string(elements as u128).as_str()),
            );
        }
        Ok(shape)
    }
}

/// The product of a shape's dimensions.
pub open spec fn product(shape: Seq<usize>) -> nat
    decreases shape.len(),
{
    if shape.len() == 0 {
        1
    } else {
        product(shape.drop_last()) * shape.last() as nat
    }
}

/// How many dimensions are to be inferred.
pub open spec fn open_count(dims: Seq<Option<usize>>) -> nat
    decreases dims.len(),
{
    if dims.len() == 0 {
        0
    } else {
        open_count(dims.drop_last()) + if dims.last() is None {
            1nat
        } else {
            0nat
        }
    }
}

proof fn lemma_open_count(dims: Seq<Option<usize>>)
    ensures
        infers(dims) <==> open_count(dims) > 0,
    decreases dims.len(),
{
    if dims.len() > 0 {
        let d = dims.drop_last();
        lemma_open_count(d);
        if infers(d) {
            let k = choose|k: int| 0 <= k < d.len() && (#[trigger] d[k]) is None;
            assert(dims[k] is None);
        }
        if dims.last() is None {
            assert(dims[dims.len() - 1] is None);
        }
        if infers(dims) && dims.last() is Some {
            let k = choose|k: int| 0 <= k < dims.len() && (#[trigger] dims[k]) is None;
            assert(d[k] is None);
        }
    }
}

proof fn lemma_dims_open_once(ts: Seq<Seq<char>>)
    ensures
        dims_of(ts) is Ok ==> open_count(dims_of(ts)->Ok_0) <= 1,
    decreases ts.len(),
{
    if ts.len() > 0 {
        lemma_dims_open_once(ts.drop_last());
        if dims_of(ts) is Ok {
            let dims = dims_of(ts)->Ok_0;
            let d = dims_of(ts.drop_last())->Ok_0;
            assert(dims.drop_last() =~= d);
            lemma_open_count(d);
        }
    }
}

proof fn lemma_filled_product(dims: Seq<Option<usize>>, n: usize)
    requires
        open_count(dims) <= 1,
    ensures
        product(filled_in(dims, n)) == if open_count(dims) == 1 {
            volume(dims) * n as nat
        } else {
            volume(dims)
        },
    decreases dims.len(),
{
    if dims.len() > 0 {
        let d = dims.drop_last();
        lemma_filled_product(d, n);
        assert(filled_in(dims, n).drop_last() =~= filled_in(d, n));
        if dims.last() is Some && open_count(d) == 1 {
            let a = volume(d) as int;
            let b = n as int;
            let c = dims.last()->0 as int;
            assert(a * b * c == a * c * b) by (nonlinear_arith);
        }
    } else {
        assert(filled_in(dims, n) =~= Seq::empty());
    }
}

/// A shape that is accepted has exactly as many elements as the tensor.
pub proof fn law_shape_keeps_elements(input: Seq<char>, elements: usize)
    ensures
        shape_read(input, elements) is Ok ==> product(shape_read(input, elements)->Ok_0) == elements,
{
    let ts = tokens(input);
    if shape_read(input, elements) is Ok {
        let dims = dims_of(ts)->Ok_0;
        lemma_dims_open_once(ts);
        lemma_open_count(dims);
        lemma_dims_nonzero(ts);
        lemma_volume_grows(dims, dims.len() as int);
        assert(dims.take(dims.len() as int) =~= dims);
        if infers(dims) {
            let v = volume(dims) as int;
            let e = elements as int;
            assert(v * (e / v) == e) by (nonlinear_arith)
                requires
                    v > 0,
                    e % v == 0,
            ;
            assert(0 <= e / v <= e) by (nonlinear_arith)
                requires
                    v >= 1,
                    e >= 0,
            ;
            lemma_filled_product(dims, (elements as nat / volume(dims)) as usize);
        } else {
            lemma_filled_product(dims, 0);
        }
    }
}

// ---------------------------------------------------------------------------
// Slices

/// How many slices one long step moves: about 5% of them, but at least one.
pub fn slice_step(slices: usize) -> (r: usize)
    ensures
        r == if slices / 20 > 1 {
            slices / 20
        } else {
            1
        },
{
    let n: usize = slices / 20;
    if n > 1 {
        n
    } else {
        1
    }
}

/// What a percentage comes to.
#[derive(Debug)]
pub enum Percent {
    /// It is no number.
    NotANumber,
    /// It is not between 0 and 100; the number as it is shown.
    OutOfRange(String),
    /// The share of the last index that it stands for, rounded.
    Share(usize),
}

/// The text of the percentage in a slice entry, without its `%`.
pub open spec fn percent_of(input: Seq<char>) -> Option<Seq<char>> {
    let s = trimmed(input);
    if s.len() > 0 && s.last() == '%' {
        Some(trimmed(s.drop_last()))
    } else {
        None
    }
}

/// The text of the percentage in a slice entry, if it is one.
pub fn percent_text(input: &str) -> (r: Option<String>)
    ensures
        match r {
            Some(s) => percent_of(input@) == Some(s@),
            None => percent_of(input@) is None,
        },
{
    let s = trim(input);
    let v = chars_of(s.as_str());
    if v.len() > 0 && v[v.len() - 1] == '%' {
        let body = substring(&v, 0, v.len() - 1);
        proof {
            assert(body@ =~= v@.drop_last());
        }
        Some(trim(body.as_str()))
    } else {
        None
    }
}

/// The slice that an entry stands for, or the complaint. An empty entry asks for none.
pub open spec fn slice_read(input: Seq<char>, slices: usize, percent: Percent) -> Result<
    Option<usize>,
    Seq<char>,
> {
    let s = trimmed(input);
    if s.len() == 0 {
        Ok(None)
    } else {
        match percent_of(input) {
            Some(p) => match percent {
                Percent::NotANumber => Err(
                    "'"@ + p + "' is not a number — write a percentage like 50%"@,
                ),
                Percent::OutOfRange(shown) => Err(
                    shown@ + "% is out of range — use 0% to 100%"@,
                ),
                Percent::Share(n) => if slices == 0 {
                    Err("the tensor has no slices"@)
                } else {
                    Ok(
                        Some(
                            if n < slices {
                                n
                            } else {
                                (slices - 1) as usize
                            },
                        ),
                    )
                },
            },
            None => match number_of(s) {
                None => Err("enter a slice number or a percentage (e.g. 12 or 50%)"@),
                Some(n) => if slices == 0 {
                    Err("the tensor has no slices"@)
                } else if n < slices {
                    Ok(Some(n))
                } else {
                    Err(
                        "index "@ + decimal(n as nat) + " is out of range — the last slice is "@
                            + decimal((slices - 1) as nat),
                    )
                },
            },
        }
    }
}

/// Read a slice entry: an index, or a percentage between the first and the last slice. An
/// empty stack has no slice to go to.
/// `percent` is what its percentage comes to, where it is one.
pub fn parse_slice_input(input: &str, slices: usize, percent: &Percent) -> (r: Result<
    Option<usize>,
    String,
>)
    ensures
        match r {
            Ok(n) => slice_read(input@, slices, *percent) == Ok::<Option<usize>, Seq<char>>(n),
            Err(e) => slice_read(input@, slices, *percent) == Err::<Option<usize>, Seq<char>>(e@),
        },
        r is Ok && r->Ok_0 is Some ==> r->Ok_0->0 < slices,
{
    let s = trim(input);
    if s.unicode_len() == 0 {
        return Ok(None);
    }
    match percent_text(input) {
        Some(p) => match percent {
            Percent::NotANumber => Err(
                "'".to_owned().concat(p.as_str()).concat(
                    "' is not a number — write a percentage like 50%",
                ),
            ),
            Percent::OutOfRange(shown) => Err(
                shown.clone().concat("% is out of range — use 0% to 100%"),
            ),
            Percent::Share(n) => if slices == 0 {
                Err("the tensor has no slices".to_owned())
            } else {
                Ok(
                    Some(
                        if *n < slices {
                            *n
                        } else {
                            slices - 1
                        },
                    ),
                )
            },
        },
        None => match parse_number(s.as_str()) {
            None => Err("enter a slice number or a percentage (e.g. 12 or 50%)".to_owned()),
            Some(n) => {
                if slices == 0 {
                    Err("the tensor has no slices".to_owned())
                } else if n < slices {
                    Ok(Some(n))
                } else {
                    Err(
                        "index ".to_owned().concat(decimal_string(n as u128).as_str()).concat(
                            " is out of range — the last slice is ",
                        ).concat(decimal_string((slices - 1) as u128).as_str()),
                    )
                }
            },
        },
    }
}

// ---------------------------------------------------------------------------
// Command-line values

/// Read a number of histogram bins, from 1 to 512.
pub fn parse_bins(s: &str) -> (r: Result<usize, String>)
    ensures
        match number_of(trimmed(s@)) {
            Some(n) => if 1 <= n <= 512 {
                r == Ok::<usize, String>(n)
            } else {
                r is Err && r->Err_0@ == "must be between 1 and 512"@
            },
            None => r is Err && r->Err_0@ == "expected a whole number, got '"@ + s@ + "'"@,
        },
{
    match parse_number(trim(s).as_str()) {
        Some(n) => {
            if 1 <= n && n <= 512 {
                Ok(n)
            } else {
                Err("must be between 1 and 512".to_owned())
            }
        },
        None => Err("expected a whole number, got '".to_owned().concat(s).concat("'")),
    }
}

/// The index of the first `c`, or the length.
pub open spec fn first_of(s: Seq<char>, c: char) -> int
    decreases s.len(),
{
    if s.len() == 0 || s[0] == c {
        0
    } else {
        1 + first_of(s.skip(1), c)
    }
}

/// The index of the first `c`, or the length.
pub fn find_char(v: &Vec<char>, c: char) -> (r: usize)
    ensures
        r == first_of(v@, c),
        r <= v.len(),
        r < v.len() ==> v@[r as int] == c,
        forall|i: int| 0 <= i < r ==> v@[i] != c,
{
    let mut i: usize = 0;
    proof {
        assert(v@.skip(0) =~= v@);
    }
    while i < v.len() && v[i] != c
        invariant
            i <= v.len(),
            first_of(v@, c) == i + first_of(v@.skip(i as int), c),
            forall|j: int| 0 <= j < i ==> v@[j] != c,
        decreases v.len() - i,
    {
        proof {
            assert(v@.skip(i as int)[0] == v@[i as int]);
            assert(v@.skip(i as int).skip(1) =~= v@.skip(i + 1));
        }
        i = i + 1;
    }
    proof {
        if i < v.len() {
            assert(v@.skip(i as int)[0] == v@[i as int]);
        }
    }
    i
}

/// The two parts of a string around the first `,`, if there is one.
pub open spec fn around_comma(s: Seq<char>) -> Option<(Seq<char>, Seq<char>)> {
    let i = first_of(s, ',');
    if i < s.len() {
        Some((s.take(i), s.skip(i + 1)))
    } else {
        None
    }
}

/// The two parts of a string around the first `,`.
pub fn split_pair(s: &str) -> (r: Option<(String, String)>)
    ensures
        match r {
            Some((a, b)) => around_comma(s@) == Some((a@, b@)),
            None => around_comma(s@) is None,
        },
{
    let v = chars_of(s);
    let i = find_char(&v, ',');
    if i < v.len() {
        let a = substring(&v, 0, i);
        let b = substring(&v, i + 1, v.len());
        proof {
            assert(a@ =~= s@.take(i as int));
            assert(b@ =~= s@.skip(i + 1));
        }
        Some((a, b))
    } else {
        None
    }
}

/// The pair that `ROW,COL` stands for, or the complaint.
pub open spec fn offsets_read(s: Seq<char>) -> Result<(usize, usize), Seq<char>> {
    match around_comma(s) {
        None => Err("expected ROW,COL (two integers), got '"@ + s + "'"@),
        Some((a, b)) => match (number_of(trimmed(a)), number_of(trimmed(b))) {
            (None, _) => Err("invalid row '"@ + a + "'"@),
            (Some(_), None) => Err("invalid col '"@ + b + "'"@),
            (Some(row), Some(col)) => Ok((row, col)),
        },
    }
}

/// Read a `ROW,COL` pair of whole numbers.
pub fn parse_offset_pair(s: &str) -> (r: Result<(usize, usize), String>)
    ensures
        match r {
            Ok(p) => offsets_read(s@) == Ok::<(usize, usize), Seq<char>>(p),
            Err(e) => offsets_read(s@) == Err::<(usize, usize), Seq<char>>(e@),
        },
{
    match split_pair(s) {
        None => Err("expected ROW,COL (two integers), got '".to_owned().concat(s).concat("'")),
        Some((a, b)) => match parse_number(trim(a.as_str()).as_str()) {
            None => Err("invalid row '".to_owned().concat(a.as_str()).concat("'")),
            Some(row) => match parse_number(trim(b.as_str()).as_str()) {
                None => Err("invalid col '".to_owned().concat(b.as_str()).concat("'")),
                Some(col) => Ok((row, col)),
            },
        },
    }
}

/// `s` begins with `prefix`.
pub open spec fn begins_with(s: Seq<char>, prefix: Seq<char>) -> bool {
    crate::text::occurs_at(s, prefix, 0)
}

/// The host and the path of `[user@]host:path`: a `:` before any `/`, with a host to its
/// left. A local path and an `s3://` address have none.
pub open spec fn scp_parts(s: Seq<char>) -> Option<(Seq<char>, Seq<char>)> {
    let i = first_of(s, ':');
    if begins_with(s, "s3://"@) || i >= s.len() || i == 0 || first_of(s, '/') < i {
        None
    } else {
        Some((s.take(i), s.skip(i + 1)))
    }
}

/// Split `[user@]host:path` into host and path.
pub fn split_scp(s: &str) -> (r: Option<(String, String)>)
    ensures
        match r {
            Some((a, b)) => scp_parts(s@) == Some((a@, b@)),
            None => scp_parts(s@) is None,
        },
{
    let v = chars_of(s);
    if crate::text::matches_at(&v, &chars_of("s3://"), 0) {
        return None;
    }
    let i = find_char(&v, ':');
    let j = find_char(&v, '/');
    if i >= v.len() || i == 0 || j < i {
        return None;
    }
    let a = substring(&v, 0, i);
    let b = substring(&v, i + 1, v.len());
    proof {
        assert(a@ =~= s@.take(i as int));
        assert(b@ =~= s@.skip(i + 1));
    }
    Some((a, b))
}

// ---------------------------------------------------------------------------
// Shell words

/// A character that stands for itself in a shell word.
pub open spec fn is_safe(c: char) -> bool {
    ('0' <= c && c <= '9') || ('A' <= c && c <= 'Z') || ('a' <= c && c <= 'z') || c == '_' || c == '-'
        || c == '.' || c == '/' || c == '=' || c == ',' || c == '%' || c == '+' || c == ':' || c
        == '@'
}

fn safe(c: char) -> (b: bool)
    ensures
        b == is_safe(c),
{
    ('0' <= c && c <= '9') || ('A' <= c && c <= 'Z') || ('a' <= c && c <= 'z') || c == '_' || c == '-'
        || c == '.' || c == '/' || c == '=' || c == ',' || c == '%' || c == '+' || c == ':' || c
        == '@'
}

pub open spec fn all_safe(s: Seq<char>) -> bool {
    forall|i: int| 0 <= i < s.len() ==> is_safe(#[trigger] s[i])
}

/// A string with each `'` written as `'\''`.
pub open spec fn escaped(s: Seq<char>) -> Seq<char>
    decreases s.len(),
{
    if s.len() == 0 {
        Seq::empty()
    } else if s.last() == '\'' {
        escaped(s.drop_last()) + "'\\''"@
    } else {
        escaped(s.drop_last()).push(s.last())
    }
}

/// A string as one shell word: as it is where all its characters are safe, else between
/// single quotes.
pub open spec fn quoted(s: Seq<char>) -> Seq<char> {
    if s.len() > 0 && all_safe(s) {
        s
    } else {
        "'"@ + escaped(s) + "'"@
    }
}

/// Quote a string as a single shell argument.
pub fn shell_quote(s: &str) -> (r: String)
    ensures
        r@ == quoted(s@),
{
    let v = chars_of(s);
    let mut plain = v.len() > 0;
    let mut body = String::new();
    let mut i: usize = 0;
    proof {
        assert(body@ =~= escaped(v@.take(0)));
    }
    while i < v.len()
        invariant
            i <= v.len(),
            v@ == s@,
            plain ==> forall|j: int| 0 <= j < i ==> is_safe(#[trigger] v@[j]),
            !plain && v.len() > 0 ==> !all_safe(v@),
            v.len() == 0 ==> !plain,
            body@ == escaped(v@.take(i as int)),
        decreases v.len() - i,
    {
        proof {
            assert(v@.take(i + 1).drop_last() =~= v@.take(i as int));
        }
        let c = v[i];
        if !safe(c) {
            plain = false;
        }
        if c == '\'' {
            body = body.concat("'\\''");
        } else {
            body.push(c);
        }
        i = i + 1;
    }
    proof {
        assert(v@.take(i as int) =~= v@);
    }
    if plain {
        s.to_owned()
    } else {
        "'".to_owned().concat(body.as_str()).concat("'")
    }
}

/// What a shell reads from the characters of a word, inside or outside of single quotes.
pub open spec fn shell_reads(word: Seq<char>, inside: bool) -> Seq<char>
    decreases word.len(),
{
    if word.len() == 0 {
        Seq::empty()
    } else if word[0] == '\'' {
        shell_reads(word.skip(1), !inside)
    } else if word[0] == '\\' && !inside && word.len() > 1 {
        seq![word[1]] + shell_reads(word.skip(2), inside)
    } else {
        seq![word[0]] + shell_reads(word.skip(1), inside)
    }
}

proof fn lemma_reads_plain(s: Seq<char>)
    requires
        all_safe(s),
    ensures
        shell_reads(s, false) == s,
    decreases s.len(),
{
    if s.len() > 0 {
        assert(is_safe(s[0]));
        let t = s.skip(1);
        assert forall|i: int| 0 <= i < t.len() implies is_safe(#[trigger] t[i]) by {
            assert(t[i] == s[i + 1]);
        }
        lemma_reads_plain(t);
        assert(seq![s[0]] + t =~= s);
    }
}

/// Reading an escaped string between quotes, with `rest` behind it.
proof fn lemma_reads_escaped(s: Seq<char>, rest: Seq<char>)
    ensures
        shell_reads(escaped(s) + rest, true) == s + shell_reads(rest, true),
    decreases s.len(),
{
    if s.len() == 0 {
        assert(escaped(s) + rest =~= rest);
        assert(s + shell_reads(rest, true) =~= shell_reads(rest, true));
    } else {
        let t = s.drop_last();
        let c = s.last();
        if c == '\'' {
            reveal_strlit("'\\''");
            let more = "'\\''"@ + rest;
            assert(escaped(s) + rest =~= escaped(t) + more);
            lemma_reads_escaped(t, more);
            reveal_with_fuel(shell_reads, 4);
            assert(more.skip(1)[0] == '\\');
            assert(more.skip(1)[1] == '\'');
            assert(more.skip(1).skip(2)[0] == '\'');
            assert(more.skip(1).skip(2).skip(1) =~= rest);
            assert(t + (seq!['\''] + shell_reads(rest, true)) =~= s + shell_reads(rest, true));
        } else {
            let more = seq![c] + rest;
            assert(escaped(s) + rest =~= escaped(t) + more);
            lemma_reads_escaped(t, more);
            assert(more.skip(1) =~= rest);
            assert(t + (seq![c] + shell_reads(rest, true)) =~= s + shell_reads(rest, true));
        }
    }
}

/// A shell reads a quoted string back as the string itself.
pub proof fn law_quoted_reads_back(s: Seq<char>)
    ensures
        shell_reads(quoted(s), false) == s,
{
    if s.len() > 0 && all_safe(s) {
        lemma_reads_plain(s);
    } else {
        reveal_strlit("'");
        let word = quoted(s);
        let end = "'"@;
        assert(word.skip(1) =~= escaped(s) + end);
        assert(word[0] == '\'');
        lemma_reads_escaped(s, end);
        assert(end.skip(1) =~= Seq::empty());
        assert(shell_reads(end, true) =~= Seq::empty()) by {
            assert(shell_reads(end.skip(1), false) =~= Seq::empty());
        }
        assert(s + Seq::<char>::empty() =~= s);
    }
}

/// Trimming takes white space off the ends and nothing else: what is left neither begins nor
/// ends with it.
pub proof fn law_trimming_takes_white_ends(s: Seq<char>)
    ensures
        exists|a: int, b: int|
            0 <= a <= b <= s.len() && #[trigger] s.subrange(a, b) == trimmed(s) && (forall|i: int|
                0 <= i < a || b <= i < s.len() ==> is_white(#[trigger] s[i])),
        trimmed(s).len() > 0 ==> !is_white(trimmed(s)[0]) && !is_white(trimmed(s).last()),
{
    let f = trim_front(s);
    lemma_trim_front(s);
    lemma_trim_back(f);
    let a = s.len() - f.len();
    let b = a + trimmed(s).len();
    assert(s.subrange(a, b) =~= trimmed(s));
    assert forall|i: int| 0 <= i < a || b <= i < s.len() implies is_white(#[trigger] s[i]) by {
        if i >= b {
            assert(f[i - a] == s[i]);
        }
    }
}

proof fn lemma_trim_front(s: Seq<char>)
    ensures
        trim_front(s).len() <= s.len(),
        trim_front(s) == s.skip(s.len() - trim_front(s).len()),
        forall|i: int| 0 <= i < s.len() - trim_front(s).len() ==> is_white(#[trigger] s[i]),
        trim_front(s).len() > 0 ==> !is_white(trim_front(s)[0]),
    decreases s.len(),
{
    if s.len() > 0 && is_white(s[0]) {
        let t = s.skip(1);
        lemma_trim_front(t);
        let n = trim_front(s).len();
        assert(t.skip(t.len() - n) =~= s.skip(s.len() - n));
        assert forall|i: int| 0 <= i < s.len() - n implies is_white(#[trigger] s[i]) by {
            if i > 0 {
                assert(t[i - 1] == s[i]);
            }
        }
    } else {
        assert(s.skip(0) =~= s);
    }
}

proof fn lemma_trim_back(s: Seq<char>)
    ensures
        trim_back(s).len() <= s.len(),
        trim_back(s) == s.take(trim_back(s).len() as int),
        forall|i: int| trim_back(s).len() <= i < s.len() ==> is_white(#[trigger] s[i]),
        trim_back(s).len() > 0 ==> !is_white(trim_back(s).last()),
    decreases s.len(),
{
    if s.len() > 0 && is_white(s.last()) {
        let t = s.drop_last();
        lemma_trim_back(t);
        let n = trim_back(s).len() as int;
        assert(t.take(n) =~= s.take(n));
        assert forall|i: int| n <= i < s.len() implies is_white(#[trigger] s[i]) by {
            if i < t.len() {
                assert(t[i] == s[i]);
            }
        }
    } else {
        assert(s.take(s.len() as int) =~= s);
    }
}

proof fn lemma_first_of(s: Seq<char>, c: char, n: int)
    requires
        0 <= n <= s.len(),
        forall|i: int| 0 <= i < n ==> #[trigger] s[i] != c,
        n < s.len() ==> s[n] == c,
    ensures
        first_of(s, c) == n,
    decreases n,
{
    if n > 0 {
        assert(s[0] != c);
        let t = s.skip(1);
        assert forall|i: int| 0 <= i < n - 1 implies #[trigger] t[i] != c by {
            assert(t[i] == s[i + 1]);
        }
        lemma_first_of(t, c, n - 1);
    }
}

/// A host, a colon and a path are taken apart again; a path without a colon, or with one
/// only behind a slash, is local; so is one that begins with a colon.
pub proof fn law_hosts_stand_before_the_colon(host: Seq<char>, path: Seq<char>)
    requires
        !host.contains(':'),
        !host.contains('/'),
    ensures
        host.len() > 0 && !begins_with(host + ":"@ + path, "s3://"@) ==> scp_parts(
            host + ":"@ + path,
        ) == Some((host, path)),
        scp_parts(host) is None,
        scp_parts(host + "/"@ + path) is None,
        scp_parts(":"@ + path) is None,
        scp_parts("s3://"@ + path) is None,
{
    reveal_strlit(":");
    reveal_strlit("/");
    reveal_strlit("s3://");
    let n = host.len() as int;
    assert forall|i: int| 0 <= i < n implies host[i] != ':' && host[i] != '/' by {
        assert(host.contains(host[i]));
    }
    let s = host + ":"@ + path;
    lemma_first_of(s, ':', n);
    assert(s.take(n) =~= host);
    assert(s.skip(n + 1) =~= path);
    lemma_not_before(s, '/', n);
    lemma_first_of(host, ':', n);
    let d = host + "/"@ + path;
    lemma_first_of(d, '/', n);
    lemma_not_before(d, ':', n + 1);
    lemma_first_of(":"@ + path, ':', 0);
    assert(("s3://"@ + path).subrange(0, 5) =~= "s3://"@);
}

proof fn lemma_not_before(s: Seq<char>, c: char, n: int)
    requires
        0 <= n <= s.len(),
        forall|i: int| 0 <= i < n ==> #[trigger] s[i] != c,
    ensures
        first_of(s, c) >= n,
    decreases s.len(),
{
    if s.len() > 0 && s[0] != c {
        let t = s.skip(1);
        let m = if n > 0 {
            n - 1
        } else {
            0
        };
        assert forall|i: int| 0 <= i < m implies #[trigger] t[i] != c by {
            assert(t[i] == s[i + 1]);
        }
        lemma_not_before(t, c, m);
    }
}

} // verus!
