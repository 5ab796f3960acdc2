//! Character and string utilities shared by the path model, the rule table
//! and the configuration parser.
//!
//! Strings are modelled by their view, a `Seq<char>`; every function here is
//! specified over that view.

use vstd::prelude::*;
use vstd::string::*;

verus! {

/// ASCII lowercasing of a single character: `'A'..='Z'` map to `'a'..='z'`,
/// everything else is unchanged.
pub open spec fn lower_char(c: char) -> char {
    if 65 <= c as u32 && c as u32 <= 90 {
        (c as u32 + 32) as char
    } else {
        c
    }
}

/// ASCII lowercasing of a whole string.
pub open spec fn lower_seq(s: Seq<char>) -> Seq<char> {
    s.map_values(|c: char| lower_char(c))
}

pub fn char_to_lower(c: char) -> (r: char)
    ensures
        r == lower_char(c),
{
    let n = c as u32;
    if 65 <= n && n <= 90 {
        let b = (n + 32) as u8;
        assert(((n + 32) as u8) as u32 == n + 32) by (bit_vector)
            requires
                65 <= n && n <= 90,
        ;
        b as char
    } else {
        c
    }
}

/// The suffix of `s` that follows the last occurrence of `sep`;
/// all of `s` when `sep` does not occur.
pub open spec fn suffix_after_last(s: Seq<char>, sep: char) -> Seq<char>
    decreases s.len(),
{
    if s.len() == 0 {
        s
    } else if s.last() == sep {
        Seq::empty()
    } else {
        suffix_after_last(s.drop_last(), sep).push(s.last())
    }
}

/// `suffix_after_last` never contains the separator it cuts at.
pub proof fn lemma_suffix_after_last_no_sep(s: Seq<char>, sep: char)
    ensures
        !suffix_after_last(s, sep).contains(sep),
    decreases s.len(),
{
    if s.len() == 0 {
    } else if s.last() == sep {
    } else {
        lemma_suffix_after_last_no_sep(s.drop_last(), sep);
        let r = suffix_after_last(s.drop_last(), sep).push(s.last());
        assert forall|i: int| 0 <= i < r.len() implies r[i] != sep by {
            if i < r.len() - 1 {
                assert(suffix_after_last(s.drop_last(), sep)[i] != sep);
            }
        }
    }
}

/// Where the last separator sits at index `i` (or nowhere, `i == -1`),
/// the suffix after it is exactly the tail of `s` from `i + 1`.
pub proof fn lemma_suffix_after_last_at(s: Seq<char>, sep: char, i: int)
    requires
        -1 <= i < s.len(),
        i >= 0 ==> s[i] == sep,
        forall|j: int| i < j < s.len() ==> s[j] != sep,
    ensures
        suffix_after_last(s, sep) == s.subrange(i + 1, s.len() as int),
    decreases s.len(),
{
    if s.len() == 0 {
        assert(s.subrange(i + 1, s.len() as int) =~= s);
    } else if s.last() == sep {
        assert(i == s.len() - 1);
        assert(s.subrange(i + 1, s.len() as int) =~= Seq::<char>::empty());
    } else {
        assert(i < s.len() - 1);
        lemma_suffix_after_last_at(s.drop_last(), sep, i);
        assert(suffix_after_last(s, sep) =~= s.subrange(i + 1, s.len() as int));
    }
}

/// Appending separator-free text extends the suffix after the last separator.
pub proof fn lemma_suffix_after_last_concat(a: Seq<char>, b: Seq<char>, sep: char)
    requires
        !b.contains(sep),
    ensures
        suffix_after_last(a + b, sep) == suffix_after_last(a, sep) + b,
    decreases b.len(),
{
    if b.len() == 0 {
        assert(a + b =~= a);
        assert(suffix_after_last(a, sep) + b =~= suffix_after_last(a, sep));
    } else {
        assert(!b.drop_last().contains(sep)) by {
            assert(forall|i: int|
                0 <= i < b.drop_last().len() ==> b.drop_last()[i] == b[i] && b[i] != sep);
        }
        lemma_suffix_after_last_concat(a, b.drop_last(), sep);
        let ab = a + b;
        assert(b.contains(b.last()));
        assert(ab.last() == b.last() && ab.last() != sep);
        assert(ab.drop_last() =~= a + b.drop_last());
        assert(suffix_after_last(a + b, sep) =~= suffix_after_last(a, sep) + b);
    }
}

/// ASCII whitespace, which trimming removes from either end of a line.
pub open spec fn is_space(c: char) -> bool {
    c == ' ' || c == '\t' || c == '\r' || c == '\n'
}

pub fn char_is_space(c: char) -> (r: bool)
    ensures
        r == is_space(c),
{
    c == ' ' || c == '\t' || c == '\r' || c == '\n'
}

/// `s` without leading whitespace.
pub open spec fn trim_front(s: Seq<char>) -> Seq<char>
    decreases s.len(),
{
    if s.len() > 0 && is_space(s.first()) {
        trim_front(s.drop_first())
    } else {
        s
    }
}

/// `s` without trailing whitespace.
pub open spec fn trim_back(s: Seq<char>) -> Seq<char>
    decreases s.len(),
{
    if s.len() > 0 && is_space(s.last()) {
        trim_back(s.drop_last())
    } else {
        s
    }
}

/// `s` without leading or trailing whitespace.
pub open spec fn trim_seq(s: Seq<char>) -> Seq<char> {
    trim_back(trim_front(s))
}

pub proof fn lemma_trim_front_at(s: Seq<char>, i: int)
    requires
        0 <= i <= s.len(),
        forall|j: int| 0 <= j < i ==> is_space(s[j]),
        i < s.len() ==> !is_space(s[i]),
    ensures
        trim_front(s) == s.subrange(i, s.len() as int),
    decreases i,
{
    if i == 0 {
        assert(s.subrange(0, s.len() as int) =~= s);
    } else {
        assert(is_space(s.first()));
        lemma_trim_front_at(s.drop_first(), i - 1);
        assert(s.drop_first().subrange(i - 1, s.drop_first().len() as int)
            =~= s.subrange(i, s.len() as int));
    }
}

pub proof fn lemma_trim_back_at(s: Seq<char>, i: int)
    requires
        0 <= i <= s.len(),
        forall|j: int| i <= j < s.len() ==> is_space(s[j]),
        i > 0 ==> !is_space(s[i - 1]),
    ensures
        trim_back(s) == s.subrange(0, i),
    decreases s.len() - i,
{
    if i == s.len() {
        assert(s.subrange(0, i) =~= s);
    } else {
        assert(is_space(s.last()));
        lemma_trim_back_at(s.drop_last(), i);
        assert(s.drop_last().subrange(0, i) =~= s.subrange(0, i));
    }
}

/// `s` cut at every occurrence of `sep`: the pieces, in order, without the
/// separators. Text without a separator is one piece; the empty text is one
/// empty piece.
pub open spec fn split_on(s: Seq<char>, sep: char) -> Seq<Seq<char>>
    decreases s.len(),
{
    if s.len() == 0 {
        seq![s]
    } else if s.first() == sep {
        seq![Seq::<char>::empty()] + split_on(s.drop_first(), sep)
    } else {
        let rest = split_on(s.drop_first(), sep);
        seq![seq![s.first()] + rest.first()] + rest.skip(1)
    }
}

pub proof fn lemma_split_on_nonempty(s: Seq<char>, sep: char)
    ensures
        split_on(s, sep).len() >= 1,
    decreases s.len(),
{
    if s.len() == 0 {
    } else {
        lemma_split_on_nonempty(s.drop_first(), sep);
    }
}

/// Where the first separator sits at index `i` (or `i == s.len()`, nowhere),
/// splitting peels off `s.take(i)` and continues after the separator.
pub proof fn lemma_split_on_first(s: Seq<char>, sep: char, i: int)
    requires
        0 <= i <= s.len(),
        forall|j: int| 0 <= j < i ==> s[j] != sep,
        i < s.len() ==> s[i] == sep,
    ensures
        i == s.len() ==> split_on(s, sep) == seq![s],
        i < s.len() ==> split_on(s, sep) == seq![s.take(i)] + split_on(s.skip(i + 1), sep),
    decreases s.len(),
{
    lemma_split_on_nonempty(s, sep);
    if s.len() == 0 {
        assert(split_on(s, sep) =~~= seq![s]);
    } else if s.first() == sep {
        assert(i == 0);
        assert(s.drop_first() =~= s.skip(1));
        assert(s.take(0) =~= Seq::<char>::empty());
        assert(split_on(s, sep) =~~= seq![s.take(0)] + split_on(s.skip(1), sep));
    } else {
        assert(i >= 1);
        let d = s.drop_first();
        lemma_split_on_nonempty(d, sep);
        assert(forall|j: int| 0 <= j < i - 1 ==> d[j] != sep);
        lemma_split_on_first(d, sep, i - 1);
        let rest = split_on(d, sep);
        if i == s.len() {
            assert(rest == seq![d]);
            assert(seq![s.first()] + rest.first() =~= s);
            assert(rest.skip(1) =~= Seq::<Seq<char>>::empty());
            assert(split_on(s, sep) =~~= seq![s]);
        } else {
            assert(rest == seq![d.take(i - 1)] + split_on(d.skip(i), sep));
            assert(rest.first() == d.take(i - 1));
            assert(seq![s.first()] + d.take(i - 1) =~= s.take(i));
            assert(rest.skip(1) =~= split_on(d.skip(i), sep));
            assert(d.skip(i) =~= s.skip(i + 1));
            assert(split_on(s, sep) =~~= seq![s.take(i)] + split_on(s.skip(i + 1), sep));
        }
    }
}

/// The part of `s` before the first occurrence of `sep`; all of `s` when
/// `sep` does not occur.
pub open spec fn prefix_before_first(s: Seq<char>, sep: char) -> Seq<char>
    decreases s.len(),
{
    if s.len() == 0 {
        s
    } else if s.first() == sep {
        Seq::empty()
    } else {
        seq![s.first()] + prefix_before_first(s.drop_first(), sep)
    }
}

/// The part of `s` after the first occurrence of `sep`; empty when `sep`
/// does not occur.
pub open spec fn suffix_after_first(s: Seq<char>, sep: char) -> Seq<char>
    decreases s.len(),
{
    if s.len() == 0 {
        s
    } else if s.first() == sep {
        s.drop_first()
    } else {
        suffix_after_first(s.drop_first(), sep)
    }
}

/// Where the first separator sits at index `i`, the prefix before it is
/// `s.take(i)` and the suffix after it is `s.skip(i + 1)`.
pub proof fn lemma_split_first_at(s: Seq<char>, sep: char, i: int)
    requires
        0 <= i < s.len(),
        s[i] == sep,
        forall|j: int| 0 <= j < i ==> s[j] != sep,
    ensures
        prefix_before_first(s, sep) == s.take(i),
        suffix_after_first(s, sep) == s.skip(i + 1),
    decreases s.len(),
{
    if s.first() == sep {
        assert(i == 0);
        assert(prefix_before_first(s, sep) =~= s.take(0));
        assert(s.drop_first() =~= s.skip(1));
    } else {
        let d = s.drop_first();
        lemma_split_first_at(d, sep, i - 1);
        assert(seq![s.first()] + d.take(i - 1) =~= s.take(i));
        assert(d.skip(i) =~= s.skip(i + 1));
    }
}

/// A line piece with one trailing carriage return removed, as line
/// splitting treats Windows line ends.
pub open spec fn strip_cr(s: Seq<char>) -> Seq<char> {
    if s.len() > 0 && s.last() == '\r' {
        s.drop_last()
    } else {
        s
    }
}

/// `s` without leading dots.
pub open spec fn strip_dots(s: Seq<char>) -> Seq<char>
    decreases s.len(),
{
    if s.len() > 0 && s.first() == '.' {
        strip_dots(s.drop_first())
    } else {
        s
    }
}

pub proof fn lemma_strip_dots_at(s: Seq<char>, i: int)
    requires
        0 <= i <= s.len(),
        forall|j: int| 0 <= j < i ==> s[j] == '.',
        i < s.len() ==> s[i] != '.',
    ensures
        strip_dots(s) == s.subrange(i, s.len() as int),
    decreases i,
{
    if i == 0 {
        assert(s.subrange(0, s.len() as int) =~= s);
    } else {
        lemma_strip_dots_at(s.drop_first(), i - 1);
        assert(s.drop_first().subrange(i - 1, s.drop_first().len() as int)
            =~= s.subrange(i, s.len() as int));
    }
}

/// The first position of `c` within `s[from..to]`, if any.
pub fn find_first_in(s: &str, from: usize, to: usize, c: char) -> (r: Option<usize>)
    requires
        from <= to <= s@.len(),
    ensures
        match r {
            Some(i) => from <= i < to && s@[i as int] == c
                && forall|j: int| from <= j < i ==> s@[j] != c,
            None => forall|j: int| from <= j < to ==> s@[j] != c,
        },
{
    let mut i: usize = from;
    while i < to
        invariant
            from <= i <= to <= s@.len(),
            forall|j: int| from <= j < i ==> s@[j] != c,
        decreases to - i,
    {
        if s.get_char(i) == c {
            return Some(i);
        }
        i = i + 1;
    }
    None
}

/// The characters of `s` between `from` and `to`, collected one by one.
pub fn chars_of_range(s: &str, from: usize, to: usize) -> (v: Vec<char>)
    requires
        from <= to <= s@.len(),
    ensures
        v@ == s@.subrange(from as int, to as int),
{
    let mut v: Vec<char> = Vec::new();
    let mut i: usize = from;
    while i < to
        invariant
            from <= i <= to <= s@.len(),
            v@ == s@.subrange(from as int, i as int),
        decreases to - i,
    {
        v.push(s.get_char(i));
        assert(s@.subrange(from as int, i + 1 as int)
            =~= s@.subrange(from as int, i as int).push(s@[i as int]));
        i = i + 1;
    }
    v
}

/// The characters of `s` between `from` and `to`, lowercased.
pub fn lower_chars_of_range(s: &str, from: usize, to: usize) -> (v: Vec<char>)
    requires
        from <= to <= s@.len(),
    ensures
        v@ == lower_seq(s@.subrange(from as int, to as int)),
{
    let mut v: Vec<char> = Vec::new();
    let mut i: usize = from;
    while i < to
        invariant
            from <= i <= to <= s@.len(),
            v@ == lower_seq(s@.subrange(from as int, i as int)),
        decreases to - i,
    {
        v.push(char_to_lower(s.get_char(i)));
        assert(lower_seq(s@.subrange(from as int, i + 1 as int))
            =~= lower_seq(s@.subrange(from as int, i as int)).push(lower_char(s@[i as int])));
        i = i + 1;
    }
    v
}

/// Character-for-character equality of two character vectors.
pub fn chars_eq(a: &Vec<char>, b: &Vec<char>) -> (r: bool)
    ensures
        r == (a@ == b@),
{
    if a.len() != b.len() {
        assert(a@.len() != b@.len());
        return false;
    }
    let mut i: usize = 0;
    while i < a.len()
        invariant
            0 <= i <= a@.len(),
            a@.len() == b@.len(),
            forall|j: int| 0 <= j < i ==> a@[j] == b@[j],
        decreases a@.len() - i,
    {
        if a[i] != b[i] {
            return false;
        }
        i = i + 1;
    }
    assert(a@ =~= b@);
    true
}

/// The last position of `c` within `s[from..to]`, if any.
pub fn find_last_in(s: &str, from: usize, to: usize, c: char) -> (r: Option<usize>)
    requires
        from <= to <= s@.len(),
    ensures
        match r {
            Some(i) => from <= i < to && s@[i as int] == c
                && forall|j: int| i < j < to ==> s@[j] != c,
            None => forall|j: int| from <= j < to ==> s@[j] != c,
        },
{
    let mut i: usize = to;
    while i > from
        invariant
            from <= i <= to <= s@.len(),
            forall|j: int| i <= j < to ==> s@[j] != c,
        decreases i,
    {
        i = i - 1;
        if s.get_char(i) == c {
            return Some(i);
        }
    }
    None
}

/// The views of a list of strings.
pub open spec fn views_of_strings(v: Seq<String>) -> Seq<Seq<char>> {
    v.map_values(|s: String| s@)
}

/// Character-for-character equality of two strings.
pub fn string_eq(a: &String, b: &String) -> (r: bool)
    ensures
        r == (a@ == b@),
{
    a.eq(b)
}

/// Whether `s[from..to]` equals `lit`.
pub fn region_eq(s: &str, from: usize, to: usize, lit: &str) -> (r: bool)
    requires
        from <= to <= s@.len(),
    ensures
        r == (s@.subrange(from as int, to as int) == lit@),
{
    let ghost piece = s@.subrange(from as int, to as int);
    let lit_len = lit.unicode_len();
    if to - from != lit_len {
        assert(piece.len() != lit@.len());
        return false;
    }
    let mut j: usize = 0;
    while j < lit_len
        invariant
            0 <= j <= lit_len == lit@.len(),
            from + lit_len == to <= s@.len(),
            piece == s@.subrange(from as int, to as int),
            forall|i: int| 0 <= i < j ==> piece[i] == lit@[i],
        decreases lit_len - j,
    {
        if s.get_char(from + j) != lit.get_char(j) {
            assert(piece[j as int] == s@[from + j]);
            return false;
        }
        assert(piece[j as int] == s@[from + j]);
        j = j + 1;
    }
    assert(piece =~= lit@);
    true
}

/// The bounds of `s[from..to]` with surrounding whitespace removed.
pub fn trim_range(s: &str, from: usize, to: usize) -> (r: (usize, usize))
    requires
        from <= to <= s@.len(),
    ensures
        from <= r.0 <= r.1 <= to,
        s@.subrange(r.0 as int, r.1 as int) == trim_seq(s@.subrange(from as int, to as int)),
{
    let ghost piece = s@.subrange(from as int, to as int);
    let mut lo: usize = from;
    while lo < to && char_is_space(s.get_char(lo))
        invariant
            from <= lo <= to <= s@.len(),
            forall|j: int| from <= j < lo ==> is_space(s@[j]),
        decreases to - lo,
    {
        lo = lo + 1;
    }
    proof {
        lemma_trim_front_at(piece, lo - from);
        assert(piece.subrange(lo - from, piece.len() as int)
            =~= s@.subrange(lo as int, to as int));
    }
    // Now s@.subrange(lo, to) == trim_front(piece).
    let mut hi: usize = to;
    while hi > lo && char_is_space(s.get_char(hi - 1))
        invariant
            from <= lo <= hi <= to <= s@.len(),
            forall|j: int| hi <= j < to ==> is_space(s@[j]),
        decreases hi,
    {
        hi = hi - 1;
    }
    proof {
        let front = s@.subrange(lo as int, to as int);
        lemma_trim_back_at(front, hi - lo);
        assert(front.subrange(0, hi - lo) =~= s@.subrange(lo as int, hi as int));
    }
    (lo, hi)
}

} // verus!
