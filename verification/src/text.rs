//! Splitting and formatting text as sequences of characters.

use vstd::prelude::*;
use vstd::string::StrSliceExecFns;

verus! {

/// Appending a character to a string. Claimed of it: the characters of the
/// string followed by the new one.
pub assume_specification[ String::push ](s: &mut String, c: char)
    ensures
        final(s)@ == old(s)@.push(c),
;

/// The characters of a text.
pub fn to_chars(text: &str) -> (chars: Vec<char>)
    ensures
        chars@ == text@,
{
    let mut chars: Vec<char> = Vec::new();
    let ghost all = text@;
    for c in iter: text.chars()
        invariant
            iter.seq() == all,
            chars@ == all.take(iter.index()),
    {
        let ghost before = chars@;
        chars.push(c);
        assert(chars@ =~= all.take(iter.index() + 1));
    }
    assert(chars@ =~= all);
    chars
}

/// The string of some characters.
pub fn to_text(chars: &Vec<char>) -> (text: String)
    ensures
        text@ == chars@,
{
    let mut text = String::new();
    let mut k: usize = 0;
    assert(chars@.take(0) =~= Seq::<char>::empty());
    while k < chars.len()
        invariant
            k <= chars@.len(),
            text@ == chars@.take(k as int),
        decreases chars@.len() - k,
    {
        text.push(chars[k]);
        k = k + 1;
        assert(text@ =~= chars@.take(k as int));
    }
    assert(chars@.take(k as int) =~= chars@);
    text
}

/// A copy of part of a text.
pub fn slice(chars: &Vec<char>, from: usize, to: usize) -> (part: Vec<char>)
    requires
        from <= to <= chars@.len(),
    ensures
        part@ == chars@.subrange(from as int, to as int),
{
    let mut part: Vec<char> = Vec::new();
    let mut k: usize = from;
    while k < to
        invariant
            from <= k <= to <= chars@.len(),
            part@ == chars@.subrange(from as int, k as int),
        decreases to - k,
    {
        part.push(chars[k]);
        k = k + 1;
        assert(part@ =~= chars@.subrange(from as int, k as int));
    }
    part
}

pub fn copy(chars: &Vec<char>) -> (out: Vec<char>)
    ensures
        out@ == chars@,
{
    let out = slice(chars, 0, chars.len());
    assert(chars@.subrange(0, chars@.len() as int) =~= chars@);
    out
}

/// Whether two texts agree.
pub fn same(left: &Vec<char>, right: &Vec<char>) -> (b: bool)
    ensures
        b == (left@ == right@),
{
    if left.len() != right.len() {
        return false;
    }
    let mut k: usize = 0;
    while k < left.len()
        invariant
            left@.len() == right@.len(),
            k <= left@.len(),
            left@.take(k as int) == right@.take(k as int),
        decreases left@.len() - k,
    {
        if left[k] != right[k] {
            assert(left@[k as int] != right@[k as int]);
            return false;
        }
        k = k + 1;
        assert(left@.take(k as int) =~= left@.take(k - 1).push(left@[k - 1]));
        assert(right@.take(k as int) =~= right@.take(k - 1).push(right@[k - 1]));
    }
    assert(left@.take(k as int) =~= left@);
    assert(right@.take(k as int) =~= right@);
    true
}

/// Whether a text is a given word.
pub fn is_word(chars: &Vec<char>, word: &str) -> (b: bool)
    ensures
        b == (chars@ == word@),
{
    let other = to_chars(word);
    same(chars, &other)
}

/// Append a word to a text.
pub fn put(chars: &mut Vec<char>, word: &str)
    ensures
        final(chars)@ == old(chars)@ + word@,
{
    let mut other = to_chars(word);
    let ghost before = chars@;
    chars.append(&mut other);
    assert(chars@ =~= before + word@);
}

/// Append a text to a text.
pub fn put_all(chars: &mut Vec<char>, other: &Vec<char>)
    ensures
        final(chars)@ == old(chars)@ + other@,
{
    let mut other = copy(other);
    let ghost before = chars@;
    let ghost tail = other@;
    chars.append(&mut other);
    assert(chars@ =~= before + tail);
}

/// The white-space characters of Unicode.
pub open spec fn white(c: char) -> bool {
    let n = c as u32;
    ||| 0x9 <= n <= 0xd
    ||| n == 0x20
    ||| n == 0x85
    ||| n == 0xa0
    ||| n == 0x1680
    ||| 0x2000 <= n <= 0x200a
    ||| n == 0x2028
    ||| n == 0x2029
    ||| n == 0x202f
    ||| n == 0x205f
    ||| n == 0x3000
}

pub fn is_white(c: char) -> (b: bool)
    ensures
        b == white(c),
{
    let n: u32 = c as u32;
    (0x9 <= n && n <= 0xd) || n == 0x20 || n == 0x85 || n == 0xa0 || n == 0x1680 || (0x2000 <= n
        && n <= 0x200a) || n == 0x2028 || n == 0x2029 || n == 0x202f || n == 0x205f || n == 0x3000
}

/// How many characters at the start are white, or are not.
pub open spec fn leading(s: Seq<char>, space: bool) -> nat
    decreases s.len(),
{
    if s.len() > 0 && white(s[0]) == space {
        1 + leading(s.skip(1), space)
    } else {
        0
    }
}

proof fn leading_fits(s: Seq<char>, space: bool)
    ensures
        leading(s, space) <= s.len(),
        leading(s, space) < s.len() ==> white(s[leading(s, space) as int]) != space,
        forall|k: int| 0 <= k < leading(s, space) ==> white(#[trigger] s[k]) == space,
    decreases s.len(),
{
    if s.len() > 0 && white(s[0]) == space {
        let rest = s.skip(1);
        leading_fits(rest, space);
        assert forall|k: int| 0 <= k < leading(s, space) implies white(#[trigger] s[k])
            == space by {
            if k > 0 {
                assert(rest[k - 1] == s[k]);
            }
        }
        if leading(s, space) < s.len() {
            assert(rest[leading(rest, space) as int] == s[leading(s, space) as int]);
        }
    }
}

/// The end of a run of white, or of other, characters.
fn run_end(s: &Vec<char>, from: usize, space: bool) -> (to: usize)
    requires
        from <= s@.len(),
    ensures
        to == from + leading(s@.skip(from as int), space),
        from <= to <= s@.len(),
        to < s@.len() ==> white(s@[to as int]) != space,
        forall|k: int| from <= k < to ==> white(#[trigger] s@[k]) == space,
{
    let mut to: usize = from;
    while to < s.len() && is_white(s[to]) == space
        invariant
            from <= to <= s@.len(),
            forall|k: int| from <= k < to ==> white(#[trigger] s@[k]) == space,
            leading(s@.skip(from as int), space) == to - from + leading(
                s@.skip(to as int),
                space,
            ),
        decreases s@.len() - to,
    {
        assert(s@.skip(to as int)[0] == s@[to as int]);
        assert(s@.skip(to as int).skip(1) =~= s@.skip(to + 1));
        to = to + 1;
    }
    assert(to < s@.len() ==> s@.skip(to as int)[0] == s@[to as int]);
    to
}

/// The words of a text, between white space.
pub open spec fn words_of(s: Seq<char>) -> Seq<Seq<char>>
    decreases s.len(),
    when true
    via words_shrink
{
    let rest = s.skip(leading(s, true) as int);
    if rest.len() == 0 {
        Seq::empty()
    } else {
        let n = leading(rest, false);
        seq![rest.take(n as int)] + words_of(rest.skip(n as int))
    }
}

#[via_fn]
proof fn words_shrink(s: Seq<char>) {
    leading_fits(s, true);
    let rest = s.skip(leading(s, true) as int);
    if rest.len() > 0 {
        leading_fits(rest, false);
        assert(white(rest[0]) == false);
        assert(leading(rest, false) > 0);
    }
}

/// The views of a list of texts.
pub open spec fn texts(list: Seq<Vec<char>>) -> Seq<Seq<char>> {
    Seq::new(list.len(), |k: int| list[k]@)
}

pub fn words(s: &Vec<char>) -> (list: Vec<Vec<char>>)
    ensures
        texts(list@) == words_of(s@),
{
    let mut list: Vec<Vec<char>> = Vec::new();
    let mut at: usize = 0;
    assert(s@.skip(0) =~= s@);
    assert(texts(list@) + words_of(s@) =~= words_of(s@));
    loop
        invariant
            at <= s@.len(),
            texts(list@) + words_of(s@.skip(at as int)) == words_of(s@),
        decreases s@.len() - at,
    {
        let ghost here = s@.skip(at as int);
        let from: usize = run_end(s, at, true);
        let ghost rest = here.skip(leading(here, true) as int);
        assert(rest =~= s@.skip(from as int));
        if from == s.len() {
            assert(texts(list@) + words_of(here) =~= texts(list@));
            return list;
        }
        let to: usize = run_end(s, from, false);
        assert(to > from);
        let ghost before = texts(list@);
        list.push(slice(s, from, to));
        proof {
            let n = leading(rest, false);
            assert(rest.take(n as int) =~= s@.subrange(from as int, to as int));
            assert(rest.skip(n as int) =~= s@.skip(to as int));
            assert(texts(list@) =~= before.push(rest.take(n as int)));
            assert(texts(list@) + words_of(s@.skip(to as int)) =~= before + words_of(here));
        }
        at = to;
    }
}

/// Without white space at either end.
pub open spec fn trimmed(s: Seq<char>) -> Seq<char> {
    trimmed_end(s.skip(leading(s, true) as int))
}

pub open spec fn trimmed_end(s: Seq<char>) -> Seq<char>
    decreases s.len(),
{
    if s.len() > 0 && white(s.last()) {
        trimmed_end(s.drop_last())
    } else {
        s
    }
}

/// A part of a text, without white space at its ends.
pub fn trim(s: &Vec<char>, from: usize, to: usize) -> (out: Vec<char>)
    requires
        from <= to <= s@.len(),
    ensures
        out@ == trimmed(s@.subrange(from as int, to as int)),
{
    let part = slice(s, from, to);
    let start: usize = run_end(&part, 0, true);
    let mut end: usize = part.len();
    assert(part@.skip(0) =~= part@);
    let ghost rest = part@.skip(start as int);
    assert(rest =~= part@.subrange(start as int, end as int));
    while start < end && is_white(part[end - 1])
        invariant
            start <= end <= part@.len(),
            trimmed_end(rest) == trimmed_end(part@.subrange(start as int, end as int)),
        decreases end - start,
    {
        proof {
            let here = part@.subrange(start as int, end as int);
            assert(here.last() == part@[end - 1]);
            assert(here.drop_last() =~= part@.subrange(start as int, end - 1));
        }
        end = end - 1;
    }
    proof {
        let here = part@.subrange(start as int, end as int);
        if start < end {
            assert(here.last() == part@[end - 1]);
        }
    }
    slice(&part, start, end)
}

/// Characters before the first line feed.
pub open spec fn line_length(s: Seq<char>) -> nat
    decreases s.len(),
{
    if s.len() == 0 || s[0] == '\n' {
        0
    } else {
        1 + line_length(s.skip(1))
    }
}

/// A line that a line feed ends, without the carriage return before it.
pub open spec fn without_return(s: Seq<char>) -> Seq<char> {
    if s.len() > 0 && s.last() == '\r' {
        s.drop_last()
    } else {
        s
    }
}

/// The lines of a text. The last one needs no line feed.
pub open spec fn lines_of(s: Seq<char>) -> Seq<Seq<char>>
    decreases s.len(),
{
    if s.len() == 0 {
        Seq::empty()
    } else {
        let n = line_length(s) as int;
        if n >= s.len() {
            seq![s]
        } else {
            seq![without_return(s.take(n))] + lines_of(s.skip(n + 1))
        }
    }
}

pub fn lines(s: &Vec<char>) -> (list: Vec<Vec<char>>)
    ensures
        texts(list@) == lines_of(s@),
{
    let mut list: Vec<Vec<char>> = Vec::new();
    let mut at: usize = 0;
    assert(s@.skip(0) =~= s@);
    assert(texts(list@) + lines_of(s@) =~= lines_of(s@));
    while at < s.len()
        invariant
            at <= s@.len(),
            texts(list@) + lines_of(s@.skip(at as int)) == lines_of(s@),
        decreases s@.len() - at,
    {
        let ghost here = s@.skip(at as int);
        let mut to: usize = at;
        while to < s.len() && s[to] != '\n'
            invariant
                at <= to <= s@.len(),
                here == s@.skip(at as int),
                line_length(here) == to - at + line_length(s@.skip(to as int)),
            decreases s@.len() - to,
        {
            assert(s@.skip(to as int)[0] == s@[to as int]);
            assert(s@.skip(to as int).skip(1) =~= s@.skip(to + 1));
            to = to + 1;
        }
        assert(to < s@.len() ==> s@.skip(to as int)[0] == s@[to as int]);
        let ghost before = texts(list@);
        if to == s.len() {
            list.push(slice(s, at, to));
            proof {
                assert(s@.subrange(at as int, to as int) =~= here);
                assert(texts(list@) =~= before.push(here));
                assert(texts(list@) =~= before + lines_of(here));
            }
            return list;
        }
        let mut end: usize = to;
        if at < to && s[to - 1] == '\r' {
            end = to - 1;
        }
        list.push(slice(s, at, end));
        proof {
            let n = to - at;
            let line = here.take(n);
            assert(line =~= s@.subrange(at as int, to as int));
            if n > 0 {
                assert(line.last() == s@[to - 1]);
            }
            assert(s@.subrange(at as int, end as int) =~= without_return(line));
            assert(here.skip(n + 1) =~= s@.skip(to + 1));
            assert(texts(list@) =~= before.push(without_return(line)));
            assert(texts(list@) + lines_of(s@.skip(to + 1)) =~= before + lines_of(here));
        }
        at = to + 1;
    }
    assert(texts(list@) + lines_of(s@.skip(at as int)) =~= texts(list@));
    list
}

pub open spec fn digit(n: int) -> char {
    if n == 0 {
        '0'
    } else if n == 1 {
        '1'
    } else if n == 2 {
        '2'
    } else if n == 3 {
        '3'
    } else if n == 4 {
        '4'
    } else if n == 5 {
        '5'
    } else if n == 6 {
        '6'
    } else if n == 7 {
        '7'
    } else if n == 8 {
        '8'
    } else {
        '9'
    }
}

/// A number in decimal notation.
pub open spec fn decimal(n: nat) -> Seq<char>
    decreases n,
{
    if n < 10 {
        seq![digit(n as int)]
    } else {
        decimal(n / 10).push(digit((n % 10) as int))
    }
}

fn digit_of(n: u128) -> (c: char)
    requires
        n < 10,
    ensures
        c == digit(n as int),
{
    if n == 0 {
        '0'
    } else if n == 1 {
        '1'
    } else if n == 2 {
        '2'
    } else if n == 3 {
        '3'
    } else if n == 4 {
        '4'
    } else if n == 5 {
        '5'
    } else if n == 6 {
        '6'
    } else if n == 7 {
        '7'
    } else if n == 8 {
        '8'
    } else {
        '9'
    }
}

pub fn number(n: u128) -> (chars: Vec<char>)
    ensures
        chars@ == decimal(n as nat),
    decreases n,
{
    let last = digit_of(n % 10);
    if n < 10 {
        let mut chars: Vec<char> = Vec::new();
        chars.push(last);
        assert(chars@ =~= decimal(n as nat));
        chars
    } else {
        let mut chars = number(n / 10);
        chars.push(last);
        chars
    }
}

/// Distinct numbers have distinct notations.
pub proof fn decimal_is_injective(m: nat, n: nat)
    requires
        decimal(m) == decimal(n),
    ensures
        m == n,
    decreases m,
{
    assert(decimal(m).len() > 0 && decimal(n).len() > 0) by {
        decimal_length(m);
        decimal_length(n);
    }
    if m < 10 && n < 10 {
        assert(decimal(m)[0] == digit(m as int));
        assert(decimal(n)[0] == digit(n as int));
    } else if m < 10 {
        decimal_length(n / 10);
        assert(decimal(n).len() > 1);
        assert(decimal(m).len() == 1);
    } else if n < 10 {
        decimal_length(m / 10);
        assert(decimal(m).len() > 1);
        assert(decimal(n).len() == 1);
    } else {
        assert(decimal(m).last() == decimal(n).last());
        assert(decimal(m).drop_last() =~= decimal(m / 10));
        assert(decimal(n).drop_last() =~= decimal(n / 10));
        decimal_is_injective(m / 10, n / 10);
        assert(decimal(m).last() == digit((m % 10) as int));
        assert(decimal(n).last() == digit((n % 10) as int));
        assert(m == 10 * (m / 10) + m % 10);
        assert(n == 10 * (n / 10) + n % 10);
    }
}

proof fn decimal_length(n: nat)
    ensures
        decimal(n).len() > 0,
    decreases n,
{
    if n >= 10 {
        decimal_length(n / 10);
    }
}

} // verus!
