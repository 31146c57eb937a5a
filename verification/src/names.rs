//! What a tensor's name tells of its place in a transformer.
use vstd::prelude::*;

use crate::text::{all_digits, chars_of, decimal, digit, digits_to_u64, digits_value, is_digit};
use crate::text::{join, joined, lemma_decimal_value, same, split, split_on, texts};

verus! {

/// The parts of a name between its dots.
pub open spec fn parts_of(name: Seq<char>) -> Seq<Seq<char>> {
    split(name, '.')
}

/// A part that is a number below the largest of 32 bits.
pub open spec fn is_index(part: Seq<char>) -> bool {
    part.len() > 0 && all_digits(part) && digits_value(part) < u32::MAX
}

/// The first part from `from` on that is a number.
pub open spec fn first_index(parts: Seq<Seq<char>>, from: int) -> Option<int>
    decreases parts.len() - from,
{
    if from < 0 || from >= parts.len() {
        None
    } else if is_index(parts[from]) {
        Some(from)
    } else {
        first_index(parts, from + 1)
    }
}

/// The family of numbered modules that a name belongs to, and its number there:
/// `model.layers.3.mlp` is number 3 of `model.layers`.
pub open spec fn layer_of(name: Seq<char>) -> Option<(Seq<char>, nat)> {
    match first_index(parts_of(name), 0) {
        Some(i) => Some(
            (join(parts_of(name).take(i), "."@), digits_value(parts_of(name)[i])),
        ),
        None => None,
    }
}

/// The first number from `from` on that follows an `experts` part.
pub open spec fn expert_number(parts: Seq<Seq<char>>, from: int) -> Option<nat>
    decreases parts.len() - from,
{
    if from < 0 || from + 1 >= parts.len() {
        None
    } else if parts[from] == "experts"@ && is_index(parts[from + 1]) {
        Some(digits_value(parts[from + 1]))
    } else {
        expert_number(parts, from + 1)
    }
}

/// The number of the expert that a tensor belongs to.
pub open spec fn expert_of(name: Seq<char>) -> Option<nat> {
    expert_number(parts_of(name), 0)
}

/// A name with an `experts` part.
pub open spec fn names_expert(name: Seq<char>) -> bool {
    parts_of(name).contains("experts"@)
}

/// Split a name at its dots.
pub fn name_parts(name: &str) -> (r: Vec<String>)
    ensures
        texts(r@) == parts_of(name@),
{
    split_on(&chars_of(name), '.')
}

/// The number that a part stands for.
fn index_value(part: &String) -> (r: Option<usize>)
    ensures
        match r {
            Some(n) => is_index(part@) && n == digits_value(part@) && n < u32::MAX,
            None => !is_index(part@),
        },
{
    let v = chars_of(part.as_str());
    if v.len() == 0 {
        return None;
    }
    let mut i: usize = 0;
    while i < v.len()
        invariant
            i <= v.len(),
            v@ == part@,
            forall|j: int| 0 <= j < i ==> is_digit(#[trigger] v@[j]),
        decreases v.len() - i,
    {
        if !digit(v[i]) {
            proof {
                assert(!is_digit(part@[i as int]));
            }
            return None;
        }
        i = i + 1;
    }
    proof {
        assert(v@.subrange(0, v@.len() as int) =~= v@);
    }
    match digits_to_u64(&v, 0, v.len(), 4294967294) {
        Some(n) => Some(n as usize),
        None => None,
    }
}

/// The family and number that a name belongs to.
pub fn split_layer_index(name: &str) -> (r: Option<(String, usize)>)
    ensures
        match r {
            Some((p, i)) => layer_of(name@) == Some((p@, i as nat)) && i < u32::MAX,
            None => layer_of(name@) is None,
        },
{
    let mut parts = name_parts(name);
    let ghost all = parts_of(name@);
    let mut i: usize = 0;
    while i < parts.len()
        invariant
            i <= parts.len(),
            all == texts(parts@),
            all == parts_of(name@),
            first_index(all, 0) == first_index(all, i as int),
        decreases parts.len() - i,
    {
        proof {
            assert(all[i as int] == parts@[i as int]@);
        }
        match index_value(&parts[i]) {
            Some(n) => {
                parts.truncate(i);
                proof {
                    assert(texts(parts@) =~= all.take(i as int));
                }
                return Some((joined(&parts, "."), n));
            },
            None => {},
        }
        i = i + 1;
    }
    None
}

/// The number of the expert that a tensor belongs to.
pub fn expert_index(name: &str) -> (r: Option<usize>)
    ensures
        match r {
            Some(i) => expert_of(name@) == Some(i as nat) && i < u32::MAX,
            None => expert_of(name@) is None,
        },
{
    let parts = name_parts(name);
    let ghost all = parts_of(name@);
    let mut i: usize = 0;
    while i < parts.len() && i + 1 < parts.len()
        invariant
            i <= parts.len(),
            all == texts(parts@),
            all == parts_of(name@),
            expert_number(all, 0) == expert_number(all, i as int),
        decreases parts.len() - i,
    {
        proof {
            assert(all[i as int] == parts@[i as int]@);
            assert(all[i + 1] == parts@[i + 1]@);
        }
        if same(parts[i].as_str(), "experts") {
            match index_value(&parts[i + 1]) {
                Some(n) => {
                    return Some(n);
                },
                None => {},
            }
        }
        i = i + 1;
    }
    None
}

/// Whether a list of strings holds one.
pub fn any_is(parts: &Vec<String>, wanted: &str) -> (b: bool)
    ensures
        b == texts(parts@).contains(wanted@),
{
    let mut i: usize = 0;
    while i < parts.len()
        invariant
            i <= parts.len(),
            forall|j: int| 0 <= j < i ==> (#[trigger] parts@[j])@ != wanted@,
        decreases parts.len() - i,
    {
        if same(parts[i].as_str(), wanted) {
            proof {
                assert(texts(parts@)[i as int] == wanted@);
            }
            return true;
        }
        i = i + 1;
    }
    proof {
        assert forall|j: int| 0 <= j < texts(parts@).len() implies texts(parts@)[j] != wanted@ by {
            assert(texts(parts@)[j] == parts@[j]@);
        }
    }
    false
}

/// Whether a name has an `experts` part.
pub fn is_expert(name: &str) -> (b: bool)
    ensures
        b == names_expert(name@),
{
    any_is(&name_parts(name), "experts")
}

/// A name's family ends before the first of its parts that is a number, and that number is
/// its number there; a name without such a part has none.
pub proof fn law_first_number_counts(name: Seq<char>)
    ensures
        layer_of(name) is None <==> forall|i: int|
            0 <= i < parts_of(name).len() ==> !is_index(#[trigger] parts_of(name)[i]),
        layer_of(name) matches Some((p, n)) ==> exists|i: int|
            0 <= i < parts_of(name).len() && is_index(#[trigger] parts_of(name)[i])
                && digits_value(parts_of(name)[i]) == n && p == join(parts_of(name).take(i), "."@)
                && forall|j: int| 0 <= j < i ==> !is_index(#[trigger] parts_of(name)[j]),
{
    lemma_first_index(parts_of(name), 0);
}

proof fn lemma_first_index(parts: Seq<Seq<char>>, from: int)
    requires
        0 <= from,
    ensures
        match first_index(parts, from) {
            Some(i) => from <= i < parts.len() && is_index(parts[i]) && forall|j: int|
                from <= j < i ==> !is_index(#[trigger] parts[j]),
            None => forall|j: int| from <= j < parts.len() ==> !is_index(#[trigger] parts[j]),
        },
    decreases parts.len() - from,
{
    if from < parts.len() && !is_index(parts[from]) {
        lemma_first_index(parts, from + 1);
    }
}

/// A number of 32 bits, but for the largest, is a number as a part of a name.
pub proof fn law_numbers_are_parts(n: nat)
    ensures
        is_index(decimal(n)) <==> n < u32::MAX,
        digits_value(decimal(n)) == n,
{
    lemma_decimal_value(n);
}

/// The number of an expert is the first that follows an `experts` part; a name without one
/// has no number, and a name with a number names experts.
pub proof fn law_experts_are_numbered(name: Seq<char>)
    ensures
        names_expert(name) <==> exists|i: int|
            0 <= i < parts_of(name).len() && #[trigger] parts_of(name)[i] == "experts"@,
        expert_of(name) is Some ==> names_expert(name),
        expert_of(name) is None <==> forall|i: int|
            0 <= i < parts_of(name).len() - 1 && #[trigger] parts_of(name)[i] == "experts"@
                ==> !is_index(parts_of(name)[i + 1]),
        expert_of(name) matches Some(n) ==> exists|i: int|
            0 <= i < parts_of(name).len() - 1 && #[trigger] parts_of(name)[i] == "experts"@
                && is_index(parts_of(name)[i + 1]) && digits_value(parts_of(name)[i + 1]) == n
                && forall|j: int|
                0 <= j < i && #[trigger] parts_of(name)[j] == "experts"@ ==> !is_index(
                    parts_of(name)[j + 1],
                ),
{
    lemma_expert_number(parts_of(name), 0);
}

proof fn lemma_expert_number(parts: Seq<Seq<char>>, from: int)
    requires
        0 <= from,
    ensures
        match expert_number(parts, from) {
            Some(n) => exists|i: int|
                from <= i < parts.len() - 1 && #[trigger] parts[i] == "experts"@ && is_index(
                    parts[i + 1],
                ) && digits_value(parts[i + 1]) == n && forall|j: int|
                    from <= j < i && #[trigger] parts[j] == "experts"@ ==> !is_index(parts[j + 1]),
            None => forall|i: int|
                from <= i < parts.len() - 1 && #[trigger] parts[i] == "experts"@ ==> !is_index(
                    parts[i + 1],
                ),
        },
    decreases parts.len() - from,
{
    if from + 1 < parts.len() && !(parts[from] == "experts"@ && is_index(parts[from + 1])) {
        lemma_expert_number(parts, from + 1);
        if let Some(n) = expert_number(parts, from) {
            let i = choose|i: int|
                from + 1 <= i < parts.len() - 1 && #[trigger] parts[i] == "experts"@ && is_index(
                    parts[i + 1],
                ) && digits_value(parts[i + 1]) == n && forall|j: int|
                    from + 1 <= j < i && #[trigger] parts[j] == "experts"@ ==> !is_index(
                        parts[j + 1],
                    );
            assert(parts[i] == "experts"@);
        }
    } else if from + 1 < parts.len() {
        assert(parts[from] == "experts"@);
    }
}

} // verus!
