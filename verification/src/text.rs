//! Strings as sequences of characters.
use vstd::prelude::*;

verus! {

/// `String::push` appends the given character.
pub assume_specification[ String::push ](s: &mut String, c: char)
    ensures
        final(s)@ == old(s)@.push(c),
;

/// The characters of a string.
pub fn chars_of(s: &str) -> (v: Vec<char>)
    ensures
        v@ == s@,
{
    let mut v: Vec<char> = Vec::new();
    for c in it: s.chars()
        invariant
            v@ == it.seq().take(it.index() as int),
            it.seq() == s@,
    {
        v.push(c);
    }
    v
}

/// The string of the characters in `v[from..to]`.
pub fn substring(v: &Vec<char>, from: usize, to: usize) -> (s: String)
    requires
        from <= to <= v.len(),
    ensures
        s@ == v@.subrange(from as int, to as int),
{
    let mut s = String::new();
    let mut i: usize = from;
    while i < to
        invariant
            from <= i <= to <= v.len(),
            s@ == v@.subrange(from as int, i as int),
        decreases to - i,
    {
        s.push(v[i]);
        proof {
            assert(v@.subrange(from as int, i as int).push(v@[i as int]) =~= v@.subrange(
                from as int,
                i + 1,
            ));
        }
        i = i + 1;
    }
    s
}

/// The whole of `v` as a string.
pub fn from_chars(v: &Vec<char>) -> (s: String)
    ensures
        s@ == v@,
{
    let s = substring(v, 0, v.len());
    proof {
        assert(v@.subrange(0, v@.len() as int) =~= v@);
    }
    s
}

/// Whether two strings are the same.
pub fn same(a: &str, b: &str) -> (r: bool)
    ensures
        r == (a@ == b@),
{
    a.to_owned() == b.to_owned()
}

/// The models of a list of strings.
pub open spec fn texts(v: Seq<String>) -> Seq<Seq<char>> {
    v.map_values(|s: String| s@)
}

pub open spec fn is_digit(c: char) -> bool {
    '0' <= c && c <= '9'
}

/// Whether a character is an ASCII digit.
pub fn digit(c: char) -> (b: bool)
    ensures
        b == is_digit(c),
{
    '0' <= c && c <= '9'
}

/// The parts of `s` between the occurrences of `sep`.
pub open spec fn split(s: Seq<char>, sep: char) -> Seq<Seq<char>>
    decreases s.len(),
{
    if s.len() == 0 {
        seq![Seq::empty()]
    } else if s.last() == sep {
        split(s.drop_last(), sep).push(Seq::empty())
    } else {
        let head = split(s.drop_last(), sep);
        head.drop_last().push(head.last().push(s.last()))
    }
}

pub proof fn lemma_split_nonempty(s: Seq<char>, sep: char)
    ensures
        split(s, sep).len() > 0,
    decreases s.len(),
{
    if s.len() > 0 {
        lemma_split_nonempty(s.drop_last(), sep);
    }
}

/// Split on a character, as `str::split` does.
pub fn split_on(v: &Vec<char>, sep: char) -> (parts: Vec<String>)
    ensures
        texts(parts@) == split(v@, sep),
{
    let mut parts: Vec<String> = Vec::new();
    let mut part = String::new();
    let mut i: usize = 0;
    proof {
        assert(v@.take(0) =~= Seq::empty());
        assert(texts(parts@).push(part@) =~= split(v@.take(0), sep));
    }
    while i < v.len()
        invariant
            i <= v.len(),
            texts(parts@).push(part@) == split(v@.take(i as int), sep),
        decreases v.len() - i,
    {
        let c = v[i];
        proof {
            assert(v@.take(i + 1).drop_last() =~= v@.take(i as int));
            assert(v@.take(i + 1).last() == c);
            assert(texts(parts@).push(part@).drop_last() =~= texts(parts@));
        }
        if c == sep {
            proof {
                assert(texts(parts@.push(part)) =~= texts(parts@).push(part@));
            }
            parts.push(part);
            part = String::new();
        } else {
            part.push(c);
        }
        i = i + 1;
    }
    proof {
        assert(v@.take(i as int) =~= v@);
        assert(texts(parts@.push(part)) =~= texts(parts@).push(part@));
    }
    parts.push(part);
    parts
}

/// `s` with every `__`, found from the left, turned into `.`.
pub open spec fn fold_double_underscores(s: Seq<char>) -> Seq<char>
    decreases s.len(),
{
    if s.len() == 0 {
        s
    } else if s.len() >= 2 && s[0] == '_' && s[1] == '_' {
        seq!['.'] + fold_double_underscores(s.skip(2))
    } else {
        seq![s[0]] + fold_double_underscores(s.skip(1))
    }
}

/// Turn every `__` into `.`.
pub fn dotted(v: &Vec<char>) -> (r: Vec<char>)
    ensures
        r@ == fold_double_underscores(v@),
{
    let mut r: Vec<char> = Vec::new();
    let mut i: usize = 0;
    proof {
        assert(v@.skip(0) =~= v@);
        assert(r@ + fold_double_underscores(v@) =~= fold_double_underscores(v@));
    }
    while i < v.len()
        invariant
            i <= v.len(),
            r@ + fold_double_underscores(v@.skip(i as int)) == fold_double_underscores(v@),
        decreases v.len() - i,
    {
        let ghost before = r@;
        let ghost rest = v@.skip(i as int);
        if i + 1 < v.len() && v[i] == '_' && v[i + 1] == '_' {
            r.push('.');
            proof {
                assert(rest.skip(2) =~= v@.skip(i + 2));
                assert(before + (seq!['.'] + fold_double_underscores(rest.skip(2))) =~= before.push('.')
                    + fold_double_underscores(rest.skip(2)));
            }
            i = i + 2;
        } else {
            r.push(v[i]);
            proof {
                assert(rest.skip(1) =~= v@.skip(i + 1));
                assert(rest[0] == v@[i as int]);
                assert(before + (seq![rest[0]] + fold_double_underscores(rest.skip(1)))
                    =~= before.push(rest[0]) + fold_double_underscores(rest.skip(1)));
            }
            i = i + 1;
        }
    }
    proof {
        assert(v@.skip(i as int) =~= Seq::empty());
        assert(r@ + Seq::<char>::empty() =~= r@);
    }
    r
}

/// The number that a run of digits writes.
pub open spec fn digits_value(s: Seq<char>) -> nat
    decreases s.len(),
{
    if s.len() == 0 {
        0
    } else {
        digits_value(s.drop_last()) * 10 + (s.last() as nat - '0' as nat) as nat
    }
}

pub open spec fn all_digits(s: Seq<char>) -> bool {
    forall|i: int| 0 <= i < s.len() ==> is_digit(#[trigger] s[i])
}

pub proof fn lemma_digits_value_grows(s: Seq<char>, n: int)
    requires
        all_digits(s),
        0 <= n <= s.len(),
    ensures
        digits_value(s.take(n)) <= digits_value(s),
    decreases s.len() - n,
{
    if n < s.len() {
        lemma_digits_value_grows(s, n + 1);
        assert(s.take(n + 1).drop_last() =~= s.take(n));
    } else {
        assert(s.take(n) =~= s);
    }
}

/// The number that the digits `v[from..to]` write, if it is at most `max`.
pub fn digits_to_u64(v: &Vec<char>, from: usize, to: usize, max: u64) -> (r: Option<u64>)
    requires
        from <= to <= v.len(),
        all_digits(v@.subrange(from as int, to as int)),
    ensures
        digits_value(v@.subrange(from as int, to as int)) <= max ==> r == Some(
            digits_value(v@.subrange(from as int, to as int)) as u64,
        ),
        digits_value(v@.subrange(from as int, to as int)) > max ==> r is None,
{
    let ghost s = v@.subrange(from as int, to as int);
    let mut n: u64 = 0;
    let mut i: usize = from;
    proof {
        assert(s.take(0) =~= Seq::empty());
    }
    while i < to
        invariant
            from <= i <= to <= v.len(),
            s == v@.subrange(from as int, to as int),
            all_digits(s),
            n == digits_value(s.take(i - from)),
            n <= max,
        decreases to - i,
    {
        let c = v[i];
        proof {
            assert(s.take(i + 1 - from).drop_last() =~= s.take(i - from));
            assert(s[i - from] == c);
            assert(is_digit(s[i - from]));
            lemma_digits_value_grows(s, i + 1 - from);
        }
        let d: u64 = (c as u32 - '0' as u32) as u64;
        let wide: u128 = n as u128 * 10 + d as u128;
        if wide > max as u128 {
            return None;
        }
        n = wide as u64;
        i = i + 1;
    }
    proof {
        assert(s.take(i - from) =~= s);
    }
    Some(n)
}


/// A digit's character.
pub open spec fn digit_char(d: nat) -> char {
    (('0' as nat) + d) as char
}

/// `n` in decimal.
pub open spec fn decimal(n: nat) -> Seq<char>
    decreases n,
{
    if n < 10 {
        seq![digit_char(n)]
    } else {
        decimal(n / 10).push(digit_char(n % 10))
    }
}

fn char_of_digit(d: u128) -> (c: char)
    requires
        d < 10,
    ensures
        c == digit_char(d as nat),
{
    (48u8 + d as u8) as char
}

/// `n` in decimal.
pub fn decimal_string(n: u128) -> (s: String)
    ensures
        s@ == decimal(n as nat),
    decreases n,
{
    if n < 10 {
        let mut s = String::new();
        s.push(char_of_digit(n));
        proof {
            assert(s@ =~= decimal(n as nat));
        }
        s
    } else {
        let mut s = decimal_string(n / 10);
        s.push(char_of_digit(n % 10));
        s
    }
}

/// A decimal number reads back as itself.
pub proof fn lemma_decimal_value(n: nat)
    ensures
        all_digits(decimal(n)),
        digits_value(decimal(n)) == n,
        decimal(n).len() > 0,
    decreases n,
{
    if n < 10 {
        let s = decimal(n);
        assert(s.drop_last() =~= Seq::empty());
        assert(digits_value(s.drop_last()) == 0);
    } else {
        lemma_decimal_value(n / 10);
        let s = decimal(n);
        assert(s.drop_last() =~= decimal(n / 10));
        assert(s.last() == digit_char(n % 10));
        assert forall|i: int| 0 <= i < s.len() implies is_digit(#[trigger] s[i]) by {
            if i < s.len() - 1 {
                assert(s[i] == decimal(n / 10)[i]);
            }
        }
    }
}

/// `n` spaces.
pub open spec fn spaces(n: nat) -> Seq<char> {
    Seq::new(n, |i: int| ' ')
}

/// `s` filled up with spaces on the right to `width` characters.
pub open spec fn pad_right(s: Seq<char>, width: nat) -> Seq<char> {
    if s.len() < width {
        s + spaces((width - s.len()) as nat)
    } else {
        s
    }
}

/// `s` filled up with spaces on the left to `width` characters.
pub open spec fn pad_left(s: Seq<char>, width: nat) -> Seq<char> {
    if s.len() < width {
        spaces((width - s.len()) as nat) + s
    } else {
        s
    }
}

/// `n` spaces.
pub fn blank(n: usize) -> (s: String)
    ensures
        s@ == spaces(n as nat),
{
    let mut s = String::new();
    let mut i: usize = 0;
    while i < n
        invariant
            i <= n,
            s@ =~= spaces(i as nat),
        decreases n - i,
    {
        s.push(' ');
        i = i + 1;
    }
    s
}

/// Fill up with spaces on the right.
pub fn padded_right(s: &str, width: usize) -> (r: String)
    ensures
        r@ == pad_right(s@, width as nat),
{
    let n = s.unicode_len();
    let r = s.to_owned();
    if n < width {
        r.concat(blank(width - n).as_str())
    } else {
        r
    }
}

/// Fill up with spaces on the left.
pub fn padded_left(s: &str, width: usize) -> (r: String)
    ensures
        r@ == pad_left(s@, width as nat),
{
    let n = s.unicode_len();
    if n < width {
        blank(width - n).concat(s)
    } else {
        s.to_owned()
    }
}

/// The strings in a row with `sep` between them.
pub open spec fn join(parts: Seq<Seq<char>>, sep: Seq<char>) -> Seq<char>
    decreases parts.len(),
{
    if parts.len() == 0 {
        Seq::empty()
    } else if parts.len() == 1 {
        parts[0]
    } else {
        join(parts.drop_last(), sep) + sep + parts.last()
    }
}

/// Join strings with a separator.
pub fn joined(parts: &Vec<String>, sep: &str) -> (r: String)
    ensures
        r@ == join(texts(parts@), sep@),
{
    let mut r = String::new();
    let ghost all = texts(parts@);
    if parts.len() == 0 {
        return r;
    }
    r.append(parts[0].as_str());
    let mut i: usize = 1;
    proof {
        assert(all.take(1)[0] == parts@[0]@);
        assert(r@ =~= all.take(1)[0]);
    }
    while i < parts.len()
        invariant
            1 <= i <= parts.len(),
            all == texts(parts@),
            r@ == join(all.take(i as int), sep@),
        decreases parts.len() - i,
    {
        proof {
            assert(all.take(i + 1).drop_last() =~= all.take(i as int));
            assert(all.take(i + 1).last() == parts@[i as int]@);
        }
        r.append(sep);
        r.append(parts[i].as_str());
        i = i + 1;
    }
    proof {
        assert(all.take(i as int) =~= all);
    }
    r
}

/// Append a line to a list of lines.
pub fn add_line(lines: &mut Vec<String>, line: String)
    ensures
        texts(final(lines)@) == texts(old(lines)@).push(line@),
{
    lines.push(line);
    proof {
        assert(texts(lines@) =~= texts(old(lines)@).push(line@));
    }
}

/// Append lines to a list of lines.
pub fn add_lines(lines: &mut Vec<String>, more: Vec<String>)
    ensures
        texts(final(lines)@) == texts(old(lines)@) + texts(more@),
{
    let mut more = more;
    let ghost extra = more@;
    lines.append(&mut more);
    proof {
        assert(texts(lines@) =~= texts(old(lines)@) + texts(extra));
    }
}

/// The number of bytes that a string takes.
pub open spec fn byte_len(s: Seq<char>) -> usize {
    vstd::utf8::encode_utf8(s).len() as usize
}

/// `sub` stands in `s` from character `i` on.
pub open spec fn occurs_at(s: Seq<char>, sub: Seq<char>, i: int) -> bool {
    0 <= i && i + sub.len() <= s.len() && s.subrange(i, i + sub.len()) == sub
}

/// `sub` stands somewhere in `s`.
pub open spec fn occurs(s: Seq<char>, sub: Seq<char>) -> bool {
    exists|i: int| occurs_at(s, sub, i)
}

/// Whether `sub` stands in `v` from character `i` on.
pub fn matches_at(v: &Vec<char>, sub: &Vec<char>, i: usize) -> (b: bool)
    ensures
        b == occurs_at(v@, sub@, i as int),
{
    if i > v.len() || sub.len() > v.len() - i {
        return false;
    }
    let mut k: usize = 0;
    while k < sub.len()
        invariant
            k <= sub.len(),
            i + sub.len() <= v.len(),
            forall|j: int| 0 <= j < k ==> v@[i + j] == #[trigger] sub@[j],
        decreases sub.len() - k,
    {
        if v[i + k] != sub[k] {
            proof {
                assert(v@.subrange(i as int, i + sub@.len())[k as int] != sub@[k as int]);
            }
            return false;
        }
        k = k + 1;
    }
    proof {
        assert(v@.subrange(i as int, i + sub@.len()) =~= sub@);
    }
    true
}

/// Whether a string holds another.
pub fn holds(s: &str, sub: &str) -> (b: bool)
    ensures
        b == occurs(s@, sub@),
{
    let v = chars_of(s);
    let w = chars_of(sub);
    if w.len() == 0 {
        proof {
            assert(s@.subrange(0, 0) =~= sub@);
            assert(occurs_at(s@, sub@, 0));
        }
        return true;
    }
    let mut i: usize = 0;
    while i < v.len()
        invariant
            i <= v.len(),
            v@ == s@,
            w@ == sub@,
            forall|j: int| 0 <= j < i ==> !occurs_at(s@, sub@, j),
        decreases v.len() - i,
    {
        if matches_at(&v, &w, i) {
            proof {
                assert(occurs_at(s@, sub@, i as int));
            }
            return true;
        }
        i = i + 1;
    }
    false
}


/// The index behind the last occurrence of `a` or `b`, or 0.
pub open spec fn after_last_of(s: Seq<char>, a: char, b: char) -> int
    decreases s.len(),
{
    if s.len() == 0 {
        0
    } else if s.last() == a || s.last() == b {
        s.len() as int
    } else {
        after_last_of(s.drop_last(), a, b)
    }
}

/// An ASCII letter in lower case.
pub open spec fn lower_char(c: char) -> char {
    if 'A' <= c && c <= 'Z' {
        (c as u8 + 32) as char
    } else {
        c
    }
}

/// `s` with its ASCII letters in lower case.
pub open spec fn lower_ascii(s: Seq<char>) -> Seq<char> {
    s.map_values(|c: char| lower_char(c))
}

/// An ASCII letter in lower case.
pub fn lower(c: char) -> (r: char)
    ensures
        r == lower_char(c),
{
    if 'A' <= c && c <= 'Z' {
        (c as u8 + 32) as char
    } else {
        c
    }
}

/// ASCII letters in lower case.
pub fn lower_string(s: &str) -> (r: String)
    ensures
        r@ == lower_ascii(s@),
{
    let v = chars_of(s);
    let mut r = String::new();
    let mut i: usize = 0;
    while i < v.len()
        invariant
            i <= v.len(),
            v@ == s@,
            r@ =~= lower_ascii(v@.take(i as int)),
        decreases v.len() - i,
    {
        r.push(lower(v[i]));
        i = i + 1;
    }
    proof {
        assert(v@.take(i as int) =~= v@);
    }
    r
}


/// The lines, each ended by a line feed.
pub open spec fn terminated(lines: Seq<Seq<char>>) -> Seq<char>
    decreases lines.len(),
{
    if lines.len() == 0 {
        Seq::empty()
    } else {
        terminated(lines.drop_last()) + lines.last() + "\n"@
    }
}

/// End each line with a line feed.
pub fn end_lines(lines: &Vec<String>) -> (r: String)
    ensures
        r@ == terminated(texts(lines@)),
{
    let ghost all = texts(lines@);
    let mut r = String::new();
    let mut i: usize = 0;
    proof {
        assert(all.take(0) =~= Seq::empty());
    }
    while i < lines.len()
        invariant
            i <= lines.len(),
            all == texts(lines@),
            r@ == terminated(all.take(i as int)),
        decreases lines.len() - i,
    {
        proof {
            assert(all.take(i + 1).drop_last() =~= all.take(i as int));
            assert(all.take(i + 1).last() == lines@[i as int]@);
        }
        r.append(lines[i].as_str());
        r.append("\n");
        i = i + 1;
    }
    proof {
        assert(all.take(i as int) =~= all);
    }
    r
}

/// A text with every occurrence of `pat`, found from the left, replaced.
pub open spec fn replaced(s: Seq<char>, pat: Seq<char>, with: Seq<char>) -> Seq<char>
    decreases s.len(),
{
    if pat.len() == 0 || s.len() < pat.len() {
        s
    } else if s.take(pat.len() as int) == pat {
        with + replaced(s.skip(pat.len() as int), pat, with)
    } else {
        seq![s[0]] + replaced(s.skip(1), pat, with)
    }
}

/// Replace every occurrence of a text, as `str::replace` does.
pub fn replace(s: &str, pat: &str, with: &str) -> (r: String)
    requires
        pat@.len() > 0,
    ensures
        r@ == replaced(s@, pat@, with@),
{
    let v = chars_of(s);
    let p = chars_of(pat);
    let mut r = String::new();
    let mut i: usize = 0;
    proof {
        assert(v@.skip(0) =~= v@);
        assert(r@ + replaced(v@, p@, with@) =~= replaced(v@, p@, with@));
    }
    while i < v.len()
        invariant
            i <= v.len(),
            p@.len() > 0,
            r@ + replaced(v@.skip(i as int), p@, with@) == replaced(v@, p@, with@),
        decreases v.len() - i,
    {
        let ghost rest = v@.skip(i as int);
        let ghost had = r@;
        if v.len() - i >= p.len() && matches_at(&v, &p, i) {
            proof {
                assert(rest.take(p@.len() as int) =~= p@);
                assert(rest.skip(p@.len() as int) =~= v@.skip(i + p@.len()));
            }
            r.append(with);
            proof {
                assert(r@ + replaced(v@.skip(i + p@.len()), p@, with@) =~= had + replaced(
                    rest,
                    p@,
                    with@,
                ));
            }
            i = i + p.len();
        } else {
            proof {
                if rest.len() >= p@.len() && rest.take(p@.len() as int) == p@ {
                    assert(v@.subrange(i as int, i + p@.len()) =~= rest.take(p@.len() as int));
                }
            }
            r.push(v[i]);
            proof {
                assert(rest.skip(1) =~= v@.skip(i + 1));
                if rest.len() < p@.len() {
                    assert(replaced(rest.skip(1), p@, with@) == rest.skip(1));
                    assert(seq![rest[0]] + rest.skip(1) =~= rest);
                }
                assert(r@ + replaced(v@.skip(i + 1), p@, with@) =~= had + replaced(
                    rest,
                    p@,
                    with@,
                ));
            }
            i = i + 1;
        }
    }
    proof {
        assert(v@.skip(i as int) =~= Seq::empty());
        assert(r@ + Seq::<char>::empty() =~= r@);
    }
    r
}

/// A line without a carriage return at its end.
pub open spec fn without_return(line: Seq<char>) -> Seq<char> {
    if line.len() > 0 && line.last() == '\r' {
        line.drop_last()
    } else {
        line
    }
}

/// The lines of a text: they end with a line feed, before which one carriage return may
/// stand. What follows the last line feed is a line if it is not empty.
pub open spec fn lines_of(s: Seq<char>) -> Seq<Seq<char>> {
    let parts = split(s, '\n');
    let ended = parts.drop_last().map_values(|line: Seq<char>| without_return(line));
    if parts.last().len() > 0 {
        ended.push(parts.last())
    } else {
        ended
    }
}

/// The lines of a text, as `str::lines` gives them.
pub fn lines(s: &str) -> (r: Vec<String>)
    ensures
        texts(r@) == lines_of(s@),
{
    let v = chars_of(s);
    let parts = split_on(&v, '\n');
    let ghost all = split(s@, '\n');
    proof {
        lemma_split_nonempty(s@, '\n');
    }
    let n: usize = parts.len();
    let mut r: Vec<String> = Vec::new();
    let mut i: usize = 0;
    let ghost ended = all.drop_last().map_values(|line: Seq<char>| without_return(line));
    while i + 1 < n
        invariant
            n == parts.len(),
            n > 0,
            i < n,
            texts(parts@) == all,
            ended == all.drop_last().map_values(|line: Seq<char>| without_return(line)),
            texts(r@) =~= ended.take(i as int),
        decreases n - i,
    {
        let line = chars_of(parts[i].as_str());
        let m: usize = if line.len() > 0 && line[line.len() - 1] == '\r' {
            line.len() - 1
        } else {
            line.len()
        };
        let kept = substring(&line, 0, m);
        proof {
            assert(all[i as int] == parts@[i as int]@);
            assert(kept@ =~= without_return(all[i as int]));
        }
        add_line(&mut r, kept);
        i = i + 1;
    }
    proof {
        assert(texts(r@) =~= ended);
        assert(all.last() == parts@[n - 1]@);
    }
    if parts[n - 1].as_str().unicode_len() > 0 {
        add_line(&mut r, parts[n - 1].clone());
    }
    r
}

// ---------------------------------------------------------------------------
// What the functions above undo, and what they leave alone

/// The parts of a text, with the separator between them, are the text again; none of them
/// holds the separator.
pub proof fn law_parts_join_to_the_text(s: Seq<char>, sep: char)
    ensures
        join(split(s, sep), seq![sep]) == s,
        forall|i: int|
            0 <= i < split(s, sep).len() ==> !(#[trigger] split(s, sep)[i]).contains(sep),
    decreases s.len(),
{
    let all = split(s, sep);
    if s.len() == 0 {
        assert(join(all, seq![sep]) =~= s);
    } else {
        let t = s.drop_last();
        let c = s.last();
        let head = split(t, sep);
        law_parts_join_to_the_text(t, sep);
        lemma_split_nonempty(t, sep);
        if c == sep {
            assert(all.drop_last() =~= head);
            assert(join(all, seq![sep]) =~= s);
            assert forall|i: int| 0 <= i < all.len() implies !(#[trigger] all[i]).contains(sep) by {
                if i < head.len() {
                    assert(all[i] == head[i]);
                }
            }
        } else {
            assert(all.drop_last() =~= head.drop_last());
            assert(all.last() =~= head.last().push(c));
            if head.len() == 1 {
                assert(join(all, seq![sep]) =~= s);
            } else {
                let before = join(head.drop_last(), seq![sep]) + seq![sep];
                assert(t =~= before + head.last());
                assert(join(all, seq![sep]) =~= before + head.last().push(c));
                assert(s =~= t.push(c));
            }
            assert forall|i: int| 0 <= i < all.len() implies !(#[trigger] all[i]).contains(sep) by {
                if i < head.len() - 1 {
                    assert(all[i] == head[i]);
                } else {
                    let last = head.last();
                    assert(head[head.len() - 1] == last);
                    if last.push(c).contains(sep) {
                        let k = last.push(c).index_of(sep);
                        if k < last.len() {
                            assert(last[k] == sep);
                            assert(last.contains(sep));
                        }
                    }
                }
            }
        }
    }
}

/// Parts without the separator, joined by it, are split into themselves again.
pub proof fn law_joined_parts_split_again(parts: Seq<Seq<char>>, sep: char)
    requires
        parts.len() > 0,
        forall|i: int| 0 <= i < parts.len() ==> !(#[trigger] parts[i]).contains(sep),
    ensures
        split(join(parts, seq![sep]), sep) == parts,
    decreases parts.len(),
{
    let last = parts.last();
    assert(parts[parts.len() - 1] == last);
    if parts.len() == 1 {
        lemma_split_onto(Seq::empty(), last, sep);
        assert(Seq::<char>::empty() + last =~= last);
        assert(split(Seq::<char>::empty(), sep).drop_last() =~= Seq::empty());
        assert(split(last, sep) =~= parts);
    } else {
        let before = parts.drop_last();
        assert forall|i: int| 0 <= i < before.len() implies !(#[trigger] before[i]).contains(sep) by {
            assert(before[i] == parts[i]);
        }
        law_joined_parts_split_again(before, sep);
        let head = join(before, seq![sep]) + seq![sep];
        assert(head.drop_last() =~= join(before, seq![sep]));
        assert(split(head, sep) =~= before.push(Seq::empty()));
        lemma_split_onto(head, last, sep);
        assert(split(head + last, sep) =~= parts);
    }
}

proof fn lemma_split_onto(head: Seq<char>, tail: Seq<char>, sep: char)
    requires
        !tail.contains(sep),
    ensures
        split(head + tail, sep) == split(head, sep).drop_last().push(
            split(head, sep).last() + tail,
        ),
    decreases tail.len(),
{
    lemma_split_nonempty(head, sep);
    let at = split(head, sep);
    if tail.len() == 0 {
        assert(head + tail =~= head);
        assert(at.last() + tail =~= at.last());
        assert(at.drop_last().push(at.last()) =~= at);
    } else {
        let t = tail.drop_last();
        let c = tail.last();
        assert(tail[tail.len() - 1] == c);
        assert(c != sep);
        assert forall|k: int| 0 <= k < t.len() implies t[k] != sep by {
            assert(tail[k] == t[k]);
        }
        lemma_split_onto(head, t, sep);
        assert((head + tail).drop_last() =~= head + t);
        let r = split(head + t, sep);
        assert(r.drop_last() =~= at.drop_last());
        assert((at.last() + t).push(c) =~= at.last() + tail);
    }
}

/// A text with a separator in it has the parts before it and those behind it.
pub proof fn law_split_at_a_separator(a: Seq<char>, b: Seq<char>, sep: char)
    ensures
        split(a + seq![sep] + b, sep) == split(a, sep) + split(b, sep),
{
    let (x, y) = (split(a, sep), split(b, sep));
    law_parts_join_to_the_text(a, sep);
    law_parts_join_to_the_text(b, sep);
    lemma_split_nonempty(a, sep);
    lemma_split_nonempty(b, sep);
    lemma_join_two(x, y, seq![sep]);
    let all = x + y;
    assert forall|i: int| 0 <= i < all.len() implies !(#[trigger] all[i]).contains(sep) by {
        if i < x.len() {
            assert(all[i] == x[i]);
        } else {
            assert(all[i] == y[i - x.len()]);
        }
    }
    law_joined_parts_split_again(all, sep);
}

proof fn lemma_join_two(x: Seq<Seq<char>>, y: Seq<Seq<char>>, sep: Seq<char>)
    requires
        x.len() > 0,
        y.len() > 0,
    ensures
        join(x + y, sep) == join(x, sep) + sep + join(y, sep),
    decreases y.len(),
{
    let all = x + y;
    assert(all.drop_last() =~= x + y.drop_last());
    assert(all.last() == y.last());
    if y.len() == 1 {
        assert(all.drop_last() =~= x);
    } else {
        lemma_join_two(x, y.drop_last(), sep);
        assert(join(all, sep) =~= join(x, sep) + sep + join(y, sep));
    }
}

/// Lines without line feeds, each ended by one, are read back as they were, but for a
/// carriage return at their end.
pub proof fn law_ended_lines_are_read_back(lines: Seq<Seq<char>>)
    requires
        forall|i: int|
            0 <= i < lines.len() ==> !(#[trigger] lines[i]).contains('\n') && (lines[i].len() > 0
                ==> lines[i].last() != '\r'),
    ensures
        lines_of(terminated(lines)) == lines,
{
    let parts = lines.push(Seq::empty());
    reveal_strlit("\n");
    assert("\n"@ =~= seq!['\n']);
    lemma_terminated_joins(lines);
    assert forall|i: int| 0 <= i < parts.len() implies !(#[trigger] parts[i]).contains('\n') by {
        if i < lines.len() {
            assert(parts[i] == lines[i]);
        }
    }
    law_joined_parts_split_again(parts, '\n');
    assert(parts.drop_last() =~= lines);
    assert(lines.map_values(|line: Seq<char>| without_return(line)) =~= lines);
}

proof fn lemma_terminated_joins(lines: Seq<Seq<char>>)
    ensures
        terminated(lines) == join(lines.push(Seq::empty()), seq!['\n']),
    decreases lines.len(),
{
    reveal_strlit("\n");
    assert("\n"@ =~= seq!['\n']);
    let parts = lines.push(Seq::<char>::empty());
    assert(parts.drop_last() =~= lines);
    if lines.len() == 0 {
        assert(join(parts, seq!['\n']) =~= Seq::<char>::empty());
    } else {
        let before = lines.drop_last();
        lemma_terminated_joins(before);
        let shorter = before.push(Seq::<char>::empty());
        assert(shorter.drop_last() =~= before);
        assert(terminated(lines) =~= join(parts, seq!['\n'])) by {
            if before.len() == 0 {
                assert(join(lines, seq!['\n']) =~= lines.last());
            } else {
                assert(join(shorter, seq!['\n']) =~= join(before, seq!['\n']) + seq!['\n']);
                assert(join(lines, seq!['\n']) =~= join(before, seq!['\n']) + seq!['\n']
                    + lines.last());
            }
        }
    }
}

/// A decimal number is made of digits, without a needless 0 in front, and reads back as
/// itself; so no two numbers are written alike.
pub proof fn law_decimals_read_back(n: nat)
    ensures
        all_digits(decimal(n)),
        digits_value(decimal(n)) == n,
        n > 0 ==> decimal(n)[0] != '0',
        n < 10 ==> decimal(n) == seq![(('0' as nat) + n) as char],
        forall|d: nat| #![trigger decimal(10 * n + d)]
            n > 0 && d < 10 ==> decimal(10 * n + d) == decimal(n).push((('0' as nat) + d) as char),
    decreases n,
{
    lemma_decimal_value(n);
    if n >= 10 {
        law_decimals_read_back(n / 10);
        lemma_decimal_value(n / 10);
    }
    assert forall|d: nat| #![trigger decimal(10 * n + d)] n > 0 && d < 10 implies decimal(
        10 * n + d,
    ) == decimal(n).push((('0' as nat) + d) as char) by {
        assert((10 * n + d) / 10 == n);
        assert((10 * n + d) % 10 == d);
    }
}

/// Filling a text up keeps it at its side and adds nothing but spaces; it is then as wide as
/// asked, or as it was where it was wider.
pub proof fn law_filling_adds_spaces(s: Seq<char>, width: nat)
    ensures
        pad_right(s, width).len() == if s.len() < width {
            width
        } else {
            s.len()
        },
        pad_left(s, width).len() == pad_right(s, width).len(),
        pad_right(s, width).take(s.len() as int) == s,
        pad_left(s, width).skip(pad_left(s, width).len() - s.len()) == s,
        forall|i: int|
            s.len() <= i < pad_right(s, width).len() ==> #[trigger] pad_right(s, width)[i] == ' ',
        forall|i: int|
            0 <= i < pad_left(s, width).len() - s.len() ==> #[trigger] pad_left(s, width)[i] == ' ',
{
    assert(pad_right(s, width).take(s.len() as int) =~= s);
    assert(pad_left(s, width).skip(pad_left(s, width).len() - s.len()) =~= s);
}

/// What is behind the last of two characters holds neither, and begins right behind one of
/// them, or is the whole text.
pub proof fn law_behind_the_last(s: Seq<char>, a: char, b: char)
    ensures
        0 <= after_last_of(s, a, b) <= s.len(),
        forall|i: int| after_last_of(s, a, b) <= i < s.len() ==> #[trigger] s[i] != a && s[i] != b,
        after_last_of(s, a, b) > 0 ==> {
            let c = s[after_last_of(s, a, b) - 1];
            c == a || c == b
        },
    decreases s.len(),
{
    if s.len() > 0 {
        let t = s.drop_last();
        law_behind_the_last(t, a, b);
        assert forall|i: int| after_last_of(s, a, b) <= i < s.len() implies #[trigger] s[i] != a
            && s[i] != b by {
            if i < t.len() {
                assert(t[i] == s[i]);
            }
        }
    }
}

/// Replacing a text that does not occur changes nothing; a text that begins with the pattern
/// begins with its replacement then.
pub proof fn law_replacing(s: Seq<char>, pat: Seq<char>, with: Seq<char>)
    requires
        pat.len() > 0,
    ensures
        !occurs(s, pat) ==> replaced(s, pat, with) == s,
        replaced(pat + s, pat, with) == with + replaced(s, pat, with),
    decreases s.len(),
{
    let n = pat.len() as int;
    assert((pat + s).take(n) =~= pat);
    assert((pat + s).skip(n) =~= s);
    if !occurs(s, pat) && s.len() >= pat.len() {
        assert(s.subrange(0, n) =~= s.take(n));
        assert(!occurs_at(s, pat, 0));
        assert(!occurs(s.skip(1), pat)) by {
            if occurs(s.skip(1), pat) {
                let i = choose|i: int| occurs_at(s.skip(1), pat, i);
                assert(s.skip(1).subrange(i, i + n) =~= s.subrange(i + 1, i + 1 + n));
                assert(occurs_at(s, pat, i + 1));
            }
        }
        law_replacing(s.skip(1), pat, with);
        assert(replaced(s, pat, with) =~= s);
    }
}

} // verus!
