//! Character-level helpers on strings, each stated over `Seq<char>`.

use vstd::prelude::*;

verus! {

broadcast use vstd::string::group_string_axioms;

/// Appends one character (`String::push`).
#[verifier::external_body]
pub(crate) fn push_char(s: &mut String, c: char)
    ensures
        final(s)@ == old(s)@.push(c),
{
    s.push(c);
}

/// The characters of a string slice, in order.
pub fn chars_of(s: &str) -> (v: Vec<char>)
    ensures
        v@ == s@,
{
    let mut v: Vec<char> = Vec::new();
    for c in it: s.chars()
        invariant
            it.seq() == s@,
            v@ == it.seq().take(it.index()),
    {
        v.push(c);
    }
    v
}


// ---------------------------------------------------------------------
// Splitting and joining

/// The pieces of `s` between occurrences of `sep`, in order; there is
/// always one piece more than there are separators.
pub open spec fn split_pieces(s: Seq<char>, sep: char) -> Seq<Seq<char>>
    decreases s.len(),
{
    if s.len() == 0 {
        seq![Seq::<char>::empty()]
    } else {
        let before = split_pieces(s.drop_last(), sep);
        if s.last() == sep {
            before.push(Seq::<char>::empty())
        } else {
            before.update(before.len() - 1, before.last().push(s.last()))
        }
    }
}

/// The pieces joined, with `sep` between each two of them.
pub open spec fn joined(pieces: Seq<Seq<char>>, sep: char) -> Seq<char>
    decreases pieces.len(),
{
    if pieces.len() == 0 {
        Seq::<char>::empty()
    } else if pieces.len() == 1 {
        pieces[0]
    } else {
        joined(pieces.drop_last(), sep).push(sep) + pieces.last()
    }
}

/// Splitting never yields an empty list of pieces, and no piece holds the
/// separator.
pub proof fn lemma_split_pieces_shape(s: Seq<char>, sep: char)
    ensures
        split_pieces(s, sep).len() >= 1,
        split_pieces(s, sep).len() <= s.len() + 1,
        forall|i: int, j: int|
            0 <= i < split_pieces(s, sep).len() && 0 <= j < split_pieces(s, sep)[i].len()
                ==> split_pieces(s, sep)[i][j] != sep,
    decreases s.len(),
{
    if s.len() > 0 {
        lemma_split_pieces_shape(s.drop_last(), sep);
    }
}

/// Joining the pieces of a split gives back the string that was split.
pub proof fn lemma_join_split(s: Seq<char>, sep: char)
    ensures
        joined(split_pieces(s, sep), sep) == s,
    decreases s.len(),
{
    if s.len() > 0 {
        let before = split_pieces(s.drop_last(), sep);
        lemma_join_split(s.drop_last(), sep);
        lemma_split_pieces_shape(s.drop_last(), sep);
        if s.last() == sep {
            assert(before.push(Seq::<char>::empty()).drop_last() =~= before);
            assert(s =~= s.drop_last().push(sep) + Seq::<char>::empty());
        } else {
            let after = before.update(before.len() - 1, before.last().push(s.last()));
            if before.len() == 1 {
                assert(s =~= s.drop_last().push(s.last()));
            } else {
                assert(after.drop_last() =~= before.drop_last());
                assert(joined(before, sep) == joined(before.drop_last(), sep).push(sep) + before.last());
                let j = joined(before.drop_last(), sep).push(sep);
                assert(s =~= s.drop_last().push(s.last()));
                assert((j + before.last()).push(s.last()) =~= j + before.last().push(s.last()));
            }
        }
    }
}

/// Pieces of a string slice between occurrences of `sep` (`str::split`
/// with a character pattern).
pub fn split_on<'a>(s: &'a str, sep: char) -> (pieces: Vec<&'a str>)
    ensures
        pieces.deep_view() == split_pieces(s@, sep),
{
    let chars = chars_of(s);
    let n = chars.len();
    let mut pieces: Vec<&'a str> = Vec::new();
    let mut start: usize = 0;
    assert(s@.take(0) =~= Seq::<char>::empty());
    assert(pieces.deep_view().push(s@.subrange(0, 0)) =~= seq![Seq::<char>::empty()]);
    for i in 0..n
        invariant
            n == s@.len(),
            chars@ == s@,
            start <= i,
            pieces.deep_view().push(s@.subrange(start as int, i as int)) =~= split_pieces(s@.take(i as int), sep),
    {
        let ghost prefix = s@.take(i + 1);
        assert(prefix.drop_last() =~= s@.take(i as int));
        assert(prefix.last() == s@[i as int]);
        if chars[i] == sep {
            let ghost before = pieces.deep_view();
            let piece = s.substring_char(start, i);
            pieces.push(piece);
            assert(pieces.deep_view() =~= before.push(s@.subrange(start as int, i as int)));
            start = i + 1;
            assert(s@.subrange(start as int, i + 1) =~= Seq::<char>::empty());
        } else {
            assert(s@.subrange(start as int, i + 1) =~= s@.subrange(start as int, i as int).push(s@[i as int]));
        }
    }
    let ghost before = pieces.deep_view();
    let piece = s.substring_char(start, n);
    pieces.push(piece);
    assert(pieces.deep_view() =~= before.push(s@.subrange(start as int, n as int)));
    assert(s@.take(n as int) =~= s@);
    pieces
}

// ---------------------------------------------------------------------
// White space

/// The characters with the Unicode `White_Space` property, which is what
/// `char::is_whitespace` tests.
pub open spec fn is_white_space(c: char) -> bool {
    let u = c as u32;
    ||| 0x9 <= u <= 0xD
    ||| u == 0x20
    ||| u == 0x85
    ||| u == 0xA0
    ||| u == 0x1680
    ||| 0x2000 <= u <= 0x200A
    ||| u == 0x2028
    ||| u == 0x2029
    ||| u == 0x202F
    ||| u == 0x205F
    ||| u == 0x3000
}

/// Whether `c` is white space.
pub fn white_space(c: char) -> (b: bool)
    ensures
        b == is_white_space(c),
{
    let u = c as u32;
    (0x9 <= u && u <= 0xD) || u == 0x20 || u == 0x85 || u == 0xA0 || u == 0x1680 || (0x2000 <= u
        && u <= 0x200A) || u == 0x2028 || u == 0x2029 || u == 0x202F || u == 0x205F || u == 0x3000
}

/// `s` without its leading white space.
pub open spec fn trim_start(s: Seq<char>) -> Seq<char>
    decreases s.len(),
{
    if s.len() > 0 && is_white_space(s[0]) {
        trim_start(s.drop_first())
    } else {
        s
    }
}

/// `s` without its trailing white space.
pub open spec fn trim_end(s: Seq<char>) -> Seq<char>
    decreases s.len(),
{
    if s.len() > 0 && is_white_space(s.last()) {
        trim_end(s.drop_last())
    } else {
        s
    }
}

/// `s` without leading and trailing white space (`str::trim`).
pub open spec fn trimmed(s: Seq<char>) -> Seq<char> {
    trim_end(trim_start(s))
}

proof fn lemma_trim_start_skip(s: Seq<char>, a: int)
    requires
        0 <= a < s.len(),
        is_white_space(s[a]),
    ensures
        trim_start(s.skip(a)) == trim_start(s.skip(a + 1)),
{
    assert(s.skip(a).drop_first() =~= s.skip(a + 1));
}

proof fn lemma_trim_end_take(s: Seq<char>, b: int)
    requires
        0 < b <= s.len(),
        is_white_space(s[b - 1]),
    ensures
        trim_end(s.take(b)) == trim_end(s.take(b - 1)),
{
    assert(s.take(b).drop_last() =~= s.take(b - 1));
}

proof fn lemma_trim_start_shape(s: Seq<char>)
    ensures
        exists|a: int|
            0 <= a <= s.len() && trim_start(s) == s.skip(a) && (forall|j: int| 0 <= j < a ==> is_white_space(
                #[trigger] s[j],
            )) && (a < s.len() ==> !is_white_space(s[a])),
    decreases s.len(),
{
    if s.len() > 0 && is_white_space(s[0]) {
        lemma_trim_start_shape(s.drop_first());
        let a = choose|a: int|
            0 <= a <= s.drop_first().len() && trim_start(s.drop_first()) == s.drop_first().skip(a) && (forall|j: int|
                0 <= j < a ==> is_white_space(#[trigger] s.drop_first()[j])) && (a < s.drop_first().len()
                ==> !is_white_space(s.drop_first()[a]));
        assert(s.drop_first().skip(a) =~= s.skip(a + 1));
        assert forall|j: int| 0 <= j < a + 1 implies is_white_space(#[trigger] s[j]) by {
            if j > 0 {
                assert(s.drop_first()[j - 1] == s[j]);
            }
        }
        assert(a + 1 < s.len() ==> s.drop_first()[a] == s[a + 1]);
    } else {
        assert(s.skip(0) =~= s);
    }
}

proof fn lemma_trim_end_shape(s: Seq<char>)
    ensures
        exists|b: int|
            0 <= b <= s.len() && trim_end(s) == s.take(b) && (forall|j: int| b <= j < s.len() ==> is_white_space(
                #[trigger] s[j],
            )) && (b > 0 ==> !is_white_space(s[b - 1])),
    decreases s.len(),
{
    if s.len() > 0 && is_white_space(s.last()) {
        lemma_trim_end_shape(s.drop_last());
        let b = choose|b: int|
            0 <= b <= s.drop_last().len() && trim_end(s.drop_last()) == s.drop_last().take(b) && (forall|j: int|
                b <= j < s.drop_last().len() ==> is_white_space(#[trigger] s.drop_last()[j])) && (b > 0
                ==> !is_white_space(s.drop_last()[b - 1]));
        assert(s.drop_last().take(b) =~= s.take(b));
        assert forall|j: int| b <= j < s.len() implies is_white_space(#[trigger] s[j]) by {
            if j < s.len() - 1 {
                assert(s.drop_last()[j] == s[j]);
            }
        }
    } else {
        assert(s.take(s.len() as int) =~= s);
    }
}

/// Trimming keeps a run of `s` in the middle: everything cut off before
/// and after it is white space, and the run neither begins nor ends with
/// white space.
pub proof fn lemma_trimmed_shape(s: Seq<char>)
    ensures
        exists|a: int, b: int|
            0 <= a <= b <= s.len() && trimmed(s) == s.subrange(a, b) && (forall|j: int|
                0 <= j < a ==> is_white_space(#[trigger] s[j])) && (forall|j: int|
                b <= j < s.len() ==> is_white_space(#[trigger] s[j])) && (a < b ==> !is_white_space(s[a])
                && !is_white_space(s[b - 1])),
{
    lemma_trim_start_shape(s);
    let a = choose|a: int|
        0 <= a <= s.len() && trim_start(s) == s.skip(a) && (forall|j: int| 0 <= j < a ==> is_white_space(
            #[trigger] s[j],
        )) && (a < s.len() ==> !is_white_space(s[a]));
    let r = s.skip(a);
    lemma_trim_end_shape(r);
    let c = choose|b: int|
        0 <= b <= r.len() && trim_end(r) == r.take(b) && (forall|j: int| b <= j < r.len() ==> is_white_space(
            #[trigger] r[j],
        )) && (b > 0 ==> !is_white_space(r[b - 1]));
    let b = a + c;
    assert(r.take(c) =~= s.subrange(a, b));
    assert forall|j: int| b <= j < s.len() implies is_white_space(#[trigger] s[j]) by {
        assert(r[j - a] == s[j]);
    }
    if a < b {
        assert(r[c - 1] == s[b - 1]);
    }
    assert(0 <= a <= b <= s.len() && trimmed(s) == s.subrange(a, b) && (forall|j: int|
        0 <= j < a ==> is_white_space(#[trigger] s[j])) && (forall|j: int| b <= j < s.len() ==> is_white_space(
        #[trigger] s[j],
    )) && (a < b ==> !is_white_space(s[a]) && !is_white_space(s[b - 1])));
}

/// The string slice without leading and trailing white space.
pub fn trim<'a>(s: &'a str) -> (t: &'a str)
    ensures
        t@ == trimmed(s@),
{
    let chars = chars_of(s);
    let n = chars.len();
    let mut a: usize = 0;
    assert(s@.skip(0) =~= s@);
    while a < n && white_space(chars[a])
        invariant
            chars@ == s@,
            n == s@.len(),
            a <= n,
            trim_start(s@) == trim_start(s@.skip(a as int)),
        decreases n - a,
    {
        proof {
            lemma_trim_start_skip(s@, a as int);
        }
        a += 1;
    }
    let ghost rest = s@.skip(a as int);
    assert(trim_start(s@) == rest) by {
        if a < n {
            assert(rest[0] == s@[a as int]);
        }
    }
    let mut b: usize = n;
    assert(rest.take(rest.len() as int) =~= rest);
    while b > a && white_space(chars[b - 1])
        invariant
            chars@ == s@,
            n == s@.len(),
            a <= b <= n,
            rest == s@.skip(a as int),
            trim_end(rest) == trim_end(rest.take(b - a)),
        decreases b - a,
    {
        proof {
            assert(rest[b - a - 1] == s@[b - 1]);
            lemma_trim_end_take(rest, b - a);
        }
        b -= 1;
    }
    assert(trim_end(rest.take(b - a)) == rest.take(b - a)) by {
        if b > a {
            assert(rest.take(b - a).last() == s@[b - 1]);
        }
    }
    assert(rest.take(b - a) =~= s@.subrange(a as int, b as int));
    s.substring_char(a, b)
}

} // verus!
