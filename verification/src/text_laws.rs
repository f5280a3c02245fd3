//! How lines, words and numbers come apart again after they were put together.

use crate::text::{
    all_digits, decimal_digit, decimal_text, digit_char, digits_value, integer_of, lines, position_of, unsigned_part,
    white, without_return, word_end, words, words_from,
};
use vstd::prelude::*;

verus! {

/// A text that is one word.
pub open spec fn plain_word(w: Seq<char>) -> bool {
    w.len() > 0 && forall|i: int| 0 <= i < w.len() ==> !white(#[trigger] w[i])
}

/// A text without newlines.
pub open spec fn single_line(l: Seq<char>) -> bool {
    forall|i: int| 0 <= i < l.len() ==> #[trigger] l[i] != '\n'
}

/// The position of a character that does not occur before `n` but at `n`.
pub proof fn lemma_position_is(s: Seq<char>, c: char, i: int, n: int)
    requires
        0 <= i <= n <= s.len(),
        forall|j: int| i <= j < n ==> #[trigger] s[j] != c,
        n == s.len() || s[n] == c,
    ensures
        position_of(s, c, i) == n,
    decreases n - i,
{
    if i < n {
        lemma_position_is(s, c, i + 1, n);
    }
}

/// A line in front of a text is the first of its lines.
pub proof fn law_first_line(l: Seq<char>, rest: Seq<char>)
    requires
        single_line(l),
    ensures
        lines(l + seq!['\n'] + rest) == seq![without_return(l)] + lines(rest),
{
    let s = l + seq!['\n'] + rest;
    let k = l.len() as int;
    assert forall|j: int| 0 <= j < k implies #[trigger] s[j] != '\n' by {
        assert(s[j] == l[j]);
    }
    lemma_position_is(s, '\n', 0, k);
    assert(s.subrange(0, k) =~= l);
    assert(s.subrange(k + 1, s.len() as int) =~= rest);
}

proof fn lemma_word_end_shift(a: Seq<char>, s: Seq<char>, i: int)
    requires
        0 <= i <= s.len(),
    ensures
        word_end(a + s, a.len() + i) == a.len() + word_end(s, i),
    decreases s.len() - i,
{
    if i < s.len() {
        assert((a + s)[a.len() + i] == s[i]);
        if !white(s[i]) {
            lemma_word_end_shift(a, s, i + 1);
        }
    }
}

proof fn lemma_word_end_range(s: Seq<char>, i: int)
    requires
        0 <= i <= s.len(),
    ensures
        i <= word_end(s, i) <= s.len(),
    decreases s.len() - i,
{
    if i < s.len() && !white(s[i]) {
        lemma_word_end_range(s, i + 1);
    }
}

proof fn lemma_words_shift(a: Seq<char>, s: Seq<char>, i: int)
    requires
        0 <= i <= s.len(),
    ensures
        words_from(a + s, a.len() + i) == words_from(s, i),
    decreases s.len() - i,
{
    if i < s.len() {
        assert((a + s)[a.len() + i] == s[i]);
        if white(s[i]) {
            lemma_words_shift(a, s, i + 1);
        } else {
            lemma_word_end_shift(a, s, i);
            lemma_word_end_range(s, i);
            let k = word_end(s, i);
            if k > i {
                lemma_words_shift(a, s, k);
                assert((a + s).subrange(a.len() + i, a.len() + k) =~= s.subrange(i, k));
            }
        }
    }
}

/// Whitespace in front does not change the words.
pub proof fn law_words_behind_space(c: char, s: Seq<char>)
    requires
        white(c),
    ensures
        words(seq![c] + s) == words(s),
{
    lemma_words_shift(seq![c], s, 0);
    assert((seq![c] + s)[0] == c);
}

proof fn lemma_word_end_of(w: Seq<char>, s: Seq<char>, i: int)
    requires
        plain_word(w),
        0 <= i <= w.len(),
        s.len() > 0 ==> white(s[0]),
    ensures
        word_end(w + s, i) == w.len(),
    decreases w.len() - i,
{
    if i < w.len() {
        assert((w + s)[i] == w[i]);
        lemma_word_end_of(w, s, i + 1);
    } else if s.len() > 0 {
        assert((w + s)[i] == s[0]);
    }
}

/// A word in front, with whitespace behind it or nothing, is the first of the
/// words.
pub proof fn law_first_word(w: Seq<char>, s: Seq<char>)
    requires
        plain_word(w),
        s.len() > 0 ==> white(s[0]),
    ensures
        words(w + s) == seq![w] + words(s),
{
    lemma_word_end_of(w, s, 0);
    lemma_words_shift(w, s, 0);
    assert((w + s)[0] == w[0]);
    assert((w + s).subrange(0, w.len() as int) =~= w);
}

/// A carriage return at the end of a line does not change its words.
pub proof fn law_return_is_no_word(s: Seq<char>)
    ensures
        words(without_return(s)) == words(s),
{
    if s.len() > 0 && s.last() == '\r' {
        let a = s.drop_last();
        assert(s =~= a + seq!['\r']);
        lemma_words_trailing(a, '\r', 0);
    }
}

proof fn lemma_word_end_trailing(a: Seq<char>, c: char, i: int)
    requires
        white(c),
        0 <= i <= a.len(),
    ensures
        word_end(a + seq![c], i) == word_end(a, i),
    decreases a.len() - i,
{
    if i < a.len() {
        assert((a + seq![c])[i] == a[i]);
        if !white(a[i]) {
            lemma_word_end_trailing(a, c, i + 1);
        }
    } else {
        assert((a + seq![c])[i] == c);
    }
}

proof fn lemma_words_trailing(a: Seq<char>, c: char, i: int)
    requires
        white(c),
        0 <= i <= a.len(),
    ensures
        words_from(a + seq![c], i) == words_from(a, i),
    decreases a.len() - i,
{
    let s = a + seq![c];
    if i < a.len() {
        assert(s[i] == a[i]);
        if white(a[i]) {
            lemma_words_trailing(a, c, i + 1);
        } else {
            lemma_word_end_trailing(a, c, i);
            lemma_word_end_range(a, i);
            let k = word_end(a, i);
            if k > i {
                lemma_words_trailing(a, c, k);
                assert(s.subrange(i, k) =~= a.subrange(i, k));
            }
        }
    } else {
        assert(s[i] == c);
        assert(words_from(s, i + 1) =~= Seq::<Seq<char>>::empty());
    }
}

/// A word, a space in front of it.
pub open spec fn spaced(w: Seq<char>) -> Seq<char> {
    seq![' '] + w
}

/// A spaced word in front is the first of the words.
pub proof fn lemma_spaced_word(w: Seq<char>, s: Seq<char>)
    requires
        plain_word(w),
        s.len() > 0 ==> white(s[0]),
    ensures
        words(spaced(w) + s) == seq![w] + words(s),
{
    assert(spaced(w) + s =~= seq![' '] + (w + s));
    law_words_behind_space(' ', w + s);
    law_first_word(w, s);
}

/// The words of three spaced words.
pub proof fn lemma_three_words(x: Seq<char>, y: Seq<char>, z: Seq<char>)
    requires
        plain_word(x),
        plain_word(y),
        plain_word(z),
    ensures
        words(spaced(x) + spaced(y) + spaced(z)) == seq![x, y, z],
        single_line(spaced(x) + spaced(y) + spaced(z)),
{
    let none = Seq::<char>::empty();
    assert(words(none) =~= Seq::<Seq<char>>::empty());
    lemma_spaced_word(z, none);
    assert(spaced(z) + none =~= spaced(z));
    lemma_spaced_word(y, spaced(z));
    lemma_spaced_word(x, spaced(y) + spaced(z));
    assert(spaced(x) + spaced(y) + spaced(z) =~= spaced(x) + (spaced(y) + spaced(z)));
    assert(seq![x] + (seq![y] + (seq![z] + Seq::<Seq<char>>::empty())) =~= seq![x, y, z]);
}

/// A number in decimal is digits and nothing else, and spells the number.
pub proof fn law_decimal_spells(n: nat)
    ensures
        all_digits(decimal_text(n)),
        plain_word(decimal_text(n)),
        digits_value(decimal_text(n), decimal_text(n).len() as int) == n,
        integer_of(decimal_text(n)) == Some(n as int),
    decreases n,
{
    let t = decimal_text(n);
    if n < 10 {
        assert(decimal_digit(t[0]));
        assert(digits_value(t, 0) == 0);
        assert(digits_value(t, 1) == crate::text::digit_value(t[0]));
    } else {
        law_decimal_spells(n / 10);
        let p = decimal_text(n / 10);
        assert(decimal_digit(digit_char(n % 10)));
        assert forall|i: int| 0 <= i < t.len() implies decimal_digit(#[trigger] t[i]) by {
            if i < p.len() {
                assert(t[i] == p[i]);
            }
        }
        lemma_digits_prefix(p, digit_char(n % 10), p.len() as int);
    }
    assert forall|i: int| 0 <= i < t.len() implies !white(#[trigger] t[i]) by {
        assert(decimal_digit(t[i]));
    }
    assert(decimal_digit(t[0]));
    assert(unsigned_part(t) == t);
}

proof fn lemma_digits_prefix(p: Seq<char>, c: char, n: int)
    requires
        0 <= n <= p.len(),
    ensures
        digits_value(p.push(c), n) == digits_value(p, n),
    decreases n,
{
    if n > 0 {
        lemma_digits_prefix(p, c, n - 1);
    }
}

/// Lines, each with a newline behind it.
pub open spec fn joined(ls: Seq<Seq<char>>) -> Seq<char>
    decreases ls.len(),
{
    if ls.len() == 0 {
        Seq::empty()
    } else {
        joined(ls.drop_last()) + ls.last() + seq!['\n']
    }
}

/// A first line can be split off.
proof fn lemma_joined_first(ls: Seq<Seq<char>>)
    requires
        ls.len() > 0,
    ensures
        joined(ls) == ls[0] + seq!['\n'] + joined(ls.drop_first()),
    decreases ls.len(),
{
    let none = Seq::<char>::empty();
    if ls.len() == 1 {
        assert(joined(ls.drop_last()) == none);
        assert(joined(ls.drop_first()) == none);
        assert(none + ls[0] + seq!['\n'] =~= ls[0] + seq!['\n'] + none);
    } else {
        lemma_joined_first(ls.drop_last());
        assert(ls.drop_last().drop_first() =~= ls.drop_first().drop_last());
        let mid = joined(ls.drop_first().drop_last());
        assert(ls[0] + seq!['\n'] + mid + ls.last() + seq!['\n'] =~= ls[0] + seq!['\n'] + (mid + ls.last() + seq!['\n']));
    }
}

/// Joined lines come apart again, but for a carriage return at the end of one.
pub proof fn law_lines_of_joined(ls: Seq<Seq<char>>)
    requires
        forall|i: int| 0 <= i < ls.len() ==> single_line(#[trigger] ls[i]),
    ensures
        lines(joined(ls)) == Seq::new(ls.len(), |i: int| without_return(ls[i])),
    decreases ls.len(),
{
    let stripped = Seq::new(ls.len(), |i: int| without_return(ls[i]));
    if ls.len() == 0 {
        assert(lines(joined(ls)) =~= stripped);
    } else {
        lemma_joined_first(ls);
        let rest = ls.drop_first();
        assert forall|i: int| 0 <= i < rest.len() implies single_line(#[trigger] rest[i]) by {
            assert(rest[i] == ls[i + 1]);
        }
        law_lines_of_joined(rest);
        assert(single_line(ls[0]));
        law_first_line(ls[0], joined(rest));
        assert(lines(joined(ls)) =~= stripped);
    }
}

/// Lines can be joined piece by piece.
pub proof fn lemma_joined_adds(a: Seq<Seq<char>>, b: Seq<Seq<char>>)
    ensures
        joined(a + b) == joined(a) + joined(b),
    decreases b.len(),
{
    if b.len() == 0 {
        assert(a + b =~= a);
        assert(joined(a) + Seq::<char>::empty() =~= joined(a));
    } else {
        lemma_joined_adds(a, b.drop_last());
        assert((a + b).drop_last() =~= a + b.drop_last());
        assert(joined(a) + joined(b.drop_last()) + b.last() + seq!['\n'] =~= joined(a) + (joined(b.drop_last())
            + b.last() + seq!['\n']));
    }
}

} // verus!
