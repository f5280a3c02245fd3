//! Lines, words and numbers in text.

use vstd::prelude::*;

verus! {

/// A whitespace character.
pub open spec fn white(c: char) -> bool {
    let n = c as u32;
    ||| 9 <= n <= 13
    ||| n == 32
    ||| n == 0x85
    ||| n == 0xa0
    ||| n == 0x1680
    ||| 0x2000 <= n <= 0x200a
    ||| n == 0x2028
    ||| n == 0x2029
    ||| n == 0x202f
    ||| n == 0x205f
    ||| n == 0x3000
}

/// A decimal digit.
pub open spec fn decimal_digit(c: char) -> bool {
    '0' <= c && c <= '9'
}

/// The value of a decimal digit.
pub open spec fn digit_value(c: char) -> int {
    c as int - '0' as int
}

/// The position of the first character of `s` from `i` on that is `c`, or the
/// length of `s`.
pub open spec fn position_of(s: Seq<char>, c: char, i: int) -> int
    decreases s.len() - i,
{
    if i >= s.len() {
        s.len() as int
    } else if s[i] == c {
        i
    } else {
        position_of(s, c, i + 1)
    }
}

/// A line without the carriage return in front of its newline.
pub open spec fn without_return(s: Seq<char>) -> Seq<char> {
    if s.len() > 0 && s.last() == '\r' {
        s.drop_last()
    } else {
        s
    }
}

/// The lines of a text. A final newline ends the last line rather than starting
/// another.
pub open spec fn lines(s: Seq<char>) -> Seq<Seq<char>>
    decreases s.len(),
{
    let k = position_of(s, '\n', 0);
    if s.len() == 0 {
        Seq::empty()
    } else if k >= s.len() || k < 0 {
        seq![s]
    } else {
        seq![without_return(s.subrange(0, k))] + lines(s.subrange(k + 1, s.len() as int))
    }
}

/// The position of the first whitespace character of `s` from `i` on, or the
/// length of `s`.
pub open spec fn word_end(s: Seq<char>, i: int) -> int
    decreases s.len() - i,
{
    if i >= s.len() {
        s.len() as int
    } else if white(s[i]) {
        i
    } else {
        word_end(s, i + 1)
    }
}

/// The words of a line from `i` on: its maximal runs without whitespace.
pub open spec fn words_from(s: Seq<char>, i: int) -> Seq<Seq<char>>
    decreases s.len() - i,
{
    if i >= s.len() {
        Seq::empty()
    } else if white(s[i]) {
        words_from(s, i + 1)
    } else {
        let k = word_end(s, i);
        if k <= i || k > s.len() {
            Seq::empty()
        } else {
            seq![s.subrange(i, k)] + words_from(s, k)
        }
    }
}

/// The words of a line.
pub open spec fn words(s: Seq<char>) -> Seq<Seq<char>> {
    words_from(s, 0)
}

/// The texts that some vectors of characters hold.
pub open spec fn texts(v: Seq<Vec<char>>) -> Seq<Seq<char>> {
    Seq::new(v.len(), |i: int| v[i]@)
}

proof fn lemma_position(s: Seq<char>, c: char, i: int)
    requires
        0 <= i <= s.len(),
    ensures
        i <= position_of(s, c, i) <= s.len(),
    decreases s.len() - i,
{
    if i < s.len() && s[i] != c {
        lemma_position(s, c, i + 1);
    }
}

proof fn lemma_word_end(s: Seq<char>, i: int)
    requires
        0 <= i <= s.len(),
    ensures
        i <= word_end(s, i) <= s.len(),
        i < s.len() && !white(s[i]) ==> i < word_end(s, i),
    decreases s.len() - i,
{
    if i < s.len() && !white(s[i]) {
        lemma_word_end(s, i + 1);
    }
}

/// No word is empty.
pub proof fn lemma_words_not_empty(s: Seq<char>, i: int)
    requires
        0 <= i,
    ensures
        forall|j: int| 0 <= j < words_from(s, i).len() ==> (#[trigger] words_from(s, i)[j]).len() > 0,
    decreases s.len() - i,
{
    if i < s.len() {
        if white(s[i]) {
            lemma_words_not_empty(s, i + 1);
            assert(words_from(s, i) == words_from(s, i + 1));
        } else {
            lemma_word_end(s, i);
            let k = word_end(s, i);
            lemma_words_not_empty(s, k);
            assert forall|j: int| 0 <= j < words_from(s, i).len() implies (#[trigger] words_from(s, i)[j]).len() > 0 by {
                if j > 0 {
                    assert(words_from(s, i)[j] == words_from(s, k)[j - 1]);
                }
            }
        }
    }
}

/// True for a whitespace character.
pub fn is_white(c: char) -> (r: bool)
    ensures
        r == white(c),
{
    let n: u32 = c as u32;
    (9 <= n && n <= 13) || n == 32 || n == 0x85 || n == 0xa0 || n == 0x1680 || (0x2000 <= n && n <= 0x200a) || n
        == 0x2028 || n == 0x2029 || n == 0x202f || n == 0x205f || n == 0x3000
}

/// The characters of a string.
pub fn characters(s: &str) -> (v: Vec<char>)
    ensures
        v@ == s@,
{
    let mut v: Vec<char> = Vec::new();
    for c in it: s.chars()
        invariant
            v@ == it.seq().take(it.index()),
            it.seq() == s@,
    {
        v.push(c);
        proof {
            assert(it.seq().take(it.index() + 1) =~= it.seq().take(it.index()).push(c));
        }
    }
    proof {
        assert(s@.take(s@.len() as int) =~= s@);
    }
    v
}

/// A copy of part of a text.
pub fn excerpt(s: &[char], from: usize, to: usize) -> (v: Vec<char>)
    requires
        from <= to <= s@.len(),
    ensures
        v@ == s@.subrange(from as int, to as int),
{
    let mut v: Vec<char> = Vec::new();
    let mut i: usize = from;
    while i < to
        invariant
            from <= i <= to <= s@.len(),
            v@ == s@.subrange(from as int, i as int),
        decreases to - i,
    {
        v.push(s[i]);
        i = i + 1;
        proof {
            assert(s@.subrange(from as int, i as int) =~= s@.subrange(from as int, i - 1).push(s@[i - 1]));
        }
    }
    v
}

/// The lines of a text.
pub fn split_lines(s: &[char]) -> (v: Vec<Vec<char>>)
    ensures
        texts(v@) == lines(s@),
{
    let mut v: Vec<Vec<char>> = Vec::new();
    let mut start: usize = 0;
    proof {
        assert(s@.subrange(0, s@.len() as int) =~= s@);
        assert(texts(v@) + lines(s@) =~= lines(s@));
    }
    while start < s.len()
        invariant
            start <= s.len(),
            texts(v@) + lines(s@.subrange(start as int, s@.len() as int)) == lines(s@),
        decreases s.len() - start,
    {
        let ghost rest = s@.subrange(start as int, s@.len() as int);
        let mut k: usize = start;
        proof {
            lemma_position(rest, '\n', 0);
        }
        while k < s.len() && s[k] != '\n'
            invariant
                start <= k <= s.len(),
                rest == s@.subrange(start as int, s@.len() as int),
                position_of(rest, '\n', 0) == position_of(rest, '\n', k - start),
            decreases s.len() - k,
        {
            k = k + 1;
        }
        let ghost was = v@;
        if k >= s.len() {
            let line: Vec<char> = excerpt(s, start, k);
            proof {
                assert(line@ =~= rest);
                assert(lines(rest) == seq![rest]);
            }
            v.push(line);
            proof {
                assert(texts(v@) =~= texts(was).push(rest));
                assert(texts(v@) =~= texts(was) + lines(rest));
            }
            return v;
        }
        let end: usize = if k > start && s[k - 1] == '\r' { k - 1 } else { k };
        let line: Vec<char> = excerpt(s, start, end);
        proof {
            let n = k - start;
            assert(position_of(rest, '\n', 0) == n);
            let head = rest.subrange(0, n);
            assert(head.len() > 0 ==> head.last() == s@[k - 1]);
            assert(line@ =~= without_return(head));
            assert(rest.subrange(n + 1, rest.len() as int) =~= s@.subrange(k + 1, s@.len() as int));
        }
        v.push(line);
        start = k + 1;
        proof {
            assert(texts(v@) =~= texts(was).push(line@));
            assert(texts(was) + (seq![line@] + lines(s@.subrange(start as int, s@.len() as int))) =~= texts(v@) + lines(
                s@.subrange(start as int, s@.len() as int),
            ));
        }
    }
    proof {
        assert(s@.subrange(start as int, s@.len() as int).len() == 0);
        assert(texts(v@) + Seq::empty() =~= texts(v@));
    }
    v
}

/// The words of a line.
pub fn split_words(s: &[char]) -> (v: Vec<Vec<char>>)
    ensures
        texts(v@) == words(s@),
{
    let mut v: Vec<Vec<char>> = Vec::new();
    let mut i: usize = 0;
    proof {
        assert(texts(v@) + words(s@) =~= words(s@));
    }
    while i < s.len()
        invariant
            i <= s.len(),
            texts(v@) + words_from(s@, i as int) == words(s@),
        decreases s.len() - i,
    {
        if is_white(s[i]) {
            i = i + 1;
        } else {
            let start: usize = i;
            proof {
                lemma_word_end(s@, start as int);
            }
            while i < s.len() && !is_white(s[i])
                invariant
                    start <= i <= s.len(),
                    word_end(s@, start as int) == word_end(s@, i as int),
                decreases s.len() - i,
            {
                i = i + 1;
            }
            let word: Vec<char> = excerpt(s, start, i);
            let ghost was = v@;
            proof {
                assert(word_end(s@, start as int) == i);
            }
            v.push(word);
            proof {
                assert(texts(v@) =~= texts(was).push(word@));
                assert(texts(was) + (seq![word@] + words_from(s@, i as int)) =~= texts(v@) + words_from(s@, i as int));
            }
        }
    }
    proof {
        assert(texts(v@) + Seq::empty() =~= texts(v@));
    }
    v
}

/// True if a text is a given one.
pub fn same_text(s: &[char], t: &str) -> (r: bool)
    ensures
        r == (s@ == t@),
{
    let u: Vec<char> = characters(t);
    if s.len() != u.len() {
        return false;
    }
    let mut i: usize = 0;
    while i < s.len()
        invariant
            i <= s.len(),
            s@.len() == u@.len(),
            u@ == t@,
            forall|j: int| 0 <= j < i ==> s@[j] == u@[j],
        decreases s.len() - i,
    {
        if s[i] != u[i] {
            return false;
        }
        i = i + 1;
    }
    proof {
        assert(s@ =~= u@);
    }
    true
}

/// The number that the first `n` characters spell as decimal digits.
pub open spec fn digits_value(s: Seq<char>, n: int) -> int
    decreases n,
{
    if n <= 0 {
        0
    } else {
        10 * digits_value(s, n - 1) + digit_value(s[n - 1])
    }
}

/// All characters are decimal digits, and there is at least one.
pub open spec fn all_digits(s: Seq<char>) -> bool {
    s.len() > 0 && forall|i: int| 0 <= i < s.len() ==> decimal_digit(#[trigger] s[i])
}

/// A text without the sign in front.
pub open spec fn unsigned_part(s: Seq<char>) -> Seq<char> {
    if s.len() > 0 && (s[0] == '+' || s[0] == '-') {
        s.drop_first()
    } else {
        s
    }
}

/// The integer that a text spells in decimal: an optional sign and digits.
pub open spec fn integer_of(s: Seq<char>) -> Option<int> {
    let d = unsigned_part(s);
    if !all_digits(d) {
        None
    } else if s[0] == '-' {
        Some(-digits_value(d, d.len() as int))
    } else {
        Some(digits_value(d, d.len() as int))
    }
}

/// The integer that a text spells, where a 64-bit integer holds it.
pub fn parse_integer(s: &[char]) -> (r: Option<i64>)
    ensures
        r == match integer_of(s@) {
            Some(v) => if i64::MIN <= v <= i64::MAX {
                Some(v as i64)
            } else {
                None
            },
            None => None,
        },
{
    let n: usize = s.len();
    if n == 0 {
        return None;
    }
    let start: usize = if s[0] == '+' || s[0] == '-' { 1 } else { 0 };
    let negative: bool = s[0] == '-';
    let ghost d = unsigned_part(s@);
    proof {
        assert(forall|i: int| 0 <= i < d.len() ==> d[i] == s@[i + start]);
    }
    if start == n {
        return None;
    }
    let mut i: usize = start;
    let mut total: i128 = 0;
    let mut over: bool = false;
    while i < n
        invariant
            start <= i <= n,
            n == s@.len(),
            d == unsigned_part(s@),
            d.len() == n - start,
            forall|j: int| 0 <= j < d.len() ==> d[j] == s@[j + start],
            forall|j: int| 0 <= j < i - start ==> decimal_digit(#[trigger] d[j]),
            0 <= total <= 0x1_0000_0000_0000_0000,
            over ==> digits_value(d, i - start) > 0x1_0000_0000_0000_0000,
            !over ==> digits_value(d, i - start) == total,
            digits_value(d, i - start) >= 0,
        decreases n - i,
    {
        let c: char = s[i];
        assert(d[i - start] == c);
        if !('0' <= c && c <= '9') {
            assert(!decimal_digit(d[i - start]));
            return None;
        }
        let digit: i128 = (c as u32 - '0' as u32) as i128;
        let next: i128 = 10 * total + digit;
        if over || next > 0x1_0000_0000_0000_0000 {
            over = true;
            total = 0;
        } else {
            total = next;
        }
        i = i + 1;
    }
    if over {
        return None;
    }
    let value: i128 = if negative { -total } else { total };
    if value < i64::MIN as i128 || value > i64::MAX as i128 {
        return None;
    }
    Some(value as i64)
}

/// [`String::push`] puts one character behind the others.
pub assume_specification[ String::push ](s: &mut String, c: char)
    ensures
        final(s)@ == old(s)@.push(c),
;

/// A text without the whitespace around it.
pub open spec fn trimmed(s: Seq<char>) -> Seq<char>
    decreases s.len(),
{
    if s.len() == 0 {
        s
    } else if white(s[0]) {
        trimmed(s.drop_first())
    } else if white(s.last()) {
        trimmed(s.drop_last())
    } else {
        s
    }
}

/// A text without the whitespace around it.
pub fn trim(s: &[char]) -> (v: Vec<char>)
    ensures
        v@ == trimmed(s@),
{
    let mut from: usize = 0;
    let mut to: usize = s.len();
    proof {
        assert(s@.subrange(0, s@.len() as int) =~= s@);
    }
    while from < to && is_white(s[from])
        invariant
            from <= to == s@.len(),
            trimmed(s@) == trimmed(s@.subrange(from as int, to as int)),
        decreases to - from,
    {
        proof {
            assert(s@.subrange(from as int, to as int).drop_first() =~= s@.subrange(from + 1, to as int));
        }
        from = from + 1;
    }
    while from < to && is_white(s[to - 1])
        invariant
            from <= to <= s@.len(),
            from < to ==> !white(s@[from as int]),
            trimmed(s@) == trimmed(s@.subrange(from as int, to as int)),
        decreases to - from,
    {
        proof {
            assert(s@.subrange(from as int, to as int).drop_last() =~= s@.subrange(from as int, to - 1));
        }
        to = to - 1;
    }
    excerpt(s, from, to)
}

/// The character of a decimal digit.
pub open spec fn digit_char(d: nat) -> char {
    (d + '0' as u32) as char
}

/// A number in decimal.
pub open spec fn decimal_text(n: nat) -> Seq<char>
    decreases n,
{
    if n < 10 {
        seq![digit_char(n)]
    } else {
        decimal_text(n / 10).push(digit_char(n % 10))
    }
}

fn to_digit(d: u64) -> (c: char)
    requires
        d < 10,
    ensures
        c == digit_char(d as nat),
{
    match d {
        0 => '0',
        1 => '1',
        2 => '2',
        3 => '3',
        4 => '4',
        5 => '5',
        6 => '6',
        7 => '7',
        8 => '8',
        _ => '9',
    }
}

/// Writes a number in decimal behind a text.
pub fn push_number(s: &mut String, n: u64)
    ensures
        final(s)@ == old(s)@ + decimal_text(n as nat),
    decreases n,
{
    if n < 10 {
        s.push(to_digit(n));
        proof {
            assert(old(s)@.push(digit_char(n as nat)) =~= old(s)@ + decimal_text(n as nat));
        }
    } else {
        push_number(s, n / 10);
        s.push(to_digit(n % 10));
        proof {
            assert((old(s)@ + decimal_text((n / 10) as nat)).push(digit_char((n % 10) as nat)) =~= old(s)@ + decimal_text(
                n as nat,
            ));
        }
    }
}

/// Writes characters behind a text.
pub fn push_characters(s: &mut String, v: &[char])
    ensures
        final(s)@ == old(s)@ + v@,
{
    let mut i: usize = 0;
    proof {
        assert(s@ =~= old(s)@ + v@.subrange(0, 0));
    }
    while i < v.len()
        invariant
            i <= v.len(),
            s@ == old(s)@ + v@.subrange(0, i as int),
        decreases v.len() - i,
    {
        s.push(v[i]);
        i = i + 1;
        proof {
            assert(s@ =~= old(s)@ + v@.subrange(0, i as int));
        }
    }
    proof {
        assert(v@.subrange(0, i as int) =~= v@);
    }
}

/// A string of some characters.
pub fn string_of(v: &[char]) -> (s: String)
    ensures
        s@ == v@,
{
    let mut s: String = String::new();
    push_characters(&mut s, v);
    proof {
        assert(Seq::<char>::empty() + v@ =~= v@);
    }
    s
}

/// An integer in decimal, with a sign in front of a negative one.
pub open spec fn signed_text(v: int) -> Seq<char> {
    if v < 0 {
        seq!['-'] + decimal_text((-v) as nat)
    } else {
        decimal_text(v as nat)
    }
}

/// Writes an integer in decimal behind a text.
pub fn push_signed(s: &mut String, v: i64)
    ensures
        final(s)@ == old(s)@ + signed_text(v as int),
{
    if v < 0 {
        s.push('-');
        push_number(s, (-(v as i128)) as u64);
        proof {
            assert(s@ =~= old(s)@ + signed_text(v as int));
        }
    } else {
        push_number(s, v as u64);
    }
}

} // verus!
