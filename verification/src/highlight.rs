//! Highlighting of the word being typed and of the player's input.
//!
//! The passage is shown as one span per character. While a word is being
//! typed, its characters that match the input so far are marked correct,
//! the first character of the word at which the player went wrong is
//! marked as a mistake, and the rest of the word stays plain. Every
//! character of the input from the first mistake on is marked as a
//! mistake.

use vstd::prelude::*;
use crate::text::{chars_of, push_char, joined, split_pieces, lemma_join_split, lemma_split_pieces_shape};

verus! {

broadcast use vstd::string::group_string_axioms;

/// How a piece of text is shown.
#[derive(Clone, Copy, PartialEq, Eq, Structural, Debug)]
pub enum SpanStyle {
    /// shown as it is
    Plain,
    /// typed correctly (green text)
    Correct,
    /// typed wrongly (white text on red)
    Mistake,
    /// a message of the game (white text on green)
    Banner,
}

/// A piece of text with the style it is shown in.
#[derive(Debug)]
pub struct Span {
    pub text: String,
    pub style: SpanStyle,
}

impl View for Span {
    type V = (Seq<char>, SpanStyle);

    open spec fn view(&self) -> (Seq<char>, SpanStyle) {
        (self.text@, self.style)
    }
}

impl DeepView for Span {
    type V = (Seq<char>, SpanStyle);

    open spec fn deep_view(&self) -> (Seq<char>, SpanStyle) {
        (self.text@, self.style)
    }
}

/// A span of one character.
pub open spec fn char_span(c: char, style: SpanStyle) -> (Seq<char>, SpanStyle) {
    (seq![c], style)
}

/// A span holding the single character `c`.
pub fn char_span_of(c: char, style: SpanStyle) -> (s: Span)
    ensures
        s@ == char_span(c, style),
{
    let mut text = String::new();
    push_char(&mut text, c);
    Span { text, style }
}

/// The characters of the passage, each in a plain span.
pub open spec fn plain_spans(text: Seq<char>) -> Seq<(Seq<char>, SpanStyle)> {
    Seq::new(text.len(), |i: int| char_span(text[i], SpanStyle::Plain))
}

/// One plain span per character of `text`.
pub fn plain_spans_of(text: &str) -> (spans: Vec<Span>)
    ensures
        spans.deep_view() == plain_spans(text@),
{
    let chars = chars_of(text);
    let mut spans: Vec<Span> = Vec::new();
    for i in 0..chars.len()
        invariant
            chars@ == text@,
            spans.deep_view() =~= plain_spans(text@).take(i as int),
    {
        let ghost before = spans.deep_view();
        spans.push(char_span_of(chars[i], SpanStyle::Plain));
        assert(spans.deep_view() =~= before.push(char_span(chars@[i as int], SpanStyle::Plain)));
    }
    assert(plain_spans(text@).take(chars.len() as int) =~= plain_spans(text@));
    spans
}

/// Whether the player's input is exactly the word of the passage.
pub fn check_word(word: &str, input: &String) -> (same: bool)
    ensures
        same == (word@ == input@),
{
    let w = chars_of(word);
    let t = chars_of(input.as_str());
    if w.len() != t.len() {
        return false;
    }
    for i in 0..w.len()
        invariant
            w@ == word@,
            t@ == input@,
            w.len() == t.len(),
            forall|j: int| 0 <= j < i ==> w@[j] == t@[j],
    {
        if w[i] != t[i] {
            return false;
        }
    }
    assert(w@ =~= t@);
    true
}

/// The number of leading characters on which `word` and `input` agree.
pub open spec fn first_mismatch(word: Seq<char>, input: Seq<char>) -> nat
    decreases word.len(),
{
    if word.len() == 0 || input.len() == 0 || word[0] != input[0] {
        0
    } else {
        1 + first_mismatch(word.drop_first(), input.drop_first())
    }
}

/// How the word of the passage is shown while `input` is typed for it.
pub open spec fn word_spans(word: Seq<char>, input: Seq<char>) -> Seq<(Seq<char>, SpanStyle)> {
    let k = first_mismatch(word, input) as int;
    Seq::new(
        word.len(),
        |i: int|
            char_span(
                word[i],
                if i < k {
                    SpanStyle::Correct
                } else if i == k && k < input.len() {
                    SpanStyle::Mistake
                } else {
                    SpanStyle::Plain
                },
            ),
    )
}

/// How the player's input is shown while it is typed for `word`.
pub open spec fn input_spans(word: Seq<char>, input: Seq<char>) -> Seq<(Seq<char>, SpanStyle)> {
    let k = first_mismatch(word, input) as int;
    Seq::new(
        input.len(),
        |i: int| char_span(input[i], if i < k { SpanStyle::Correct } else { SpanStyle::Mistake }),
    )
}

/// The agreeing prefix: `first_mismatch` is the first index at which the
/// two differ, or the end of the shorter one.
pub proof fn lemma_first_mismatch(word: Seq<char>, input: Seq<char>)
    ensures
        first_mismatch(word, input) <= word.len(),
        first_mismatch(word, input) <= input.len(),
        forall|i: int| 0 <= i < first_mismatch(word, input) ==> word[i] == input[i],
        first_mismatch(word, input) < word.len() && first_mismatch(word, input) < input.len()
            ==> word[first_mismatch(word, input) as int] != input[first_mismatch(word, input) as int],
    decreases word.len(),
{
    if word.len() == 0 || input.len() == 0 || word[0] != input[0] {
    } else {
        lemma_first_mismatch(word.drop_first(), input.drop_first());
        assert forall|i: int| 0 <= i < first_mismatch(word, input) implies word[i] == input[i] by {
            if i > 0 {
                assert(word.drop_first()[i - 1] == word[i]);
                assert(input.drop_first()[i - 1] == input[i]);
            }
        }
    }
}

/// Counting the agreeing prefix from position `k` on.
proof fn lemma_first_mismatch_step(word: Seq<char>, input: Seq<char>, k: int)
    requires
        0 <= k < word.len(),
        k < input.len(),
        word[k] == input[k],
    ensures
        first_mismatch(word.skip(k), input.skip(k)) == 1 + first_mismatch(word.skip(k + 1), input.skip(k + 1)),
{
    assert(word.skip(k).drop_first() =~= word.skip(k + 1));
    assert(input.skip(k).drop_first() =~= input.skip(k + 1));
}

/// The rules of the highlighting, stated on the word and the input alone.
/// The spans show exactly the characters of the word and of the input,
/// one span per character. An input character is correct when it and every
/// character before it agree with the word, and a mistake otherwise. A
/// character of the word is correct when the input agrees with the word up
/// to and including it; it is a mistake when it is the first place where
/// a typed character differs from it; otherwise it is plain.
pub proof fn lemma_highlight_rules(word: Seq<char>, input: Seq<char>)
    ensures
        word_spans(word, input).len() == word.len(),
        input_spans(word, input).len() == input.len(),
        forall|i: int| 0 <= i < word.len() ==> (#[trigger] word_spans(word, input)[i]).0 == seq![word[i]],
        forall|i: int| 0 <= i < input.len() ==> (#[trigger] input_spans(word, input)[i]).0 == seq![input[i]],
        forall|i: int|
            0 <= i < input.len() ==> ((#[trigger] input_spans(word, input)[i]).1 == SpanStyle::Correct <==> (
            forall|j: int| 0 <= j <= i ==> j < word.len() && word[j] == input[j])),
        forall|i: int|
            0 <= i < input.len() ==> ((#[trigger] input_spans(word, input)[i]).1 == SpanStyle::Correct || input_spans(
                word,
                input,
            )[i].1 == SpanStyle::Mistake),
        forall|i: int|
            0 <= i < word.len() ==> ((#[trigger] word_spans(word, input)[i]).1 == SpanStyle::Correct <==> (i
                < input.len() && forall|j: int| 0 <= j <= i ==> word[j] == input[j])),
        forall|i: int|
            0 <= i < word.len() ==> ((#[trigger] word_spans(word, input)[i]).1 == SpanStyle::Mistake <==> (i
                < input.len() && word[i] != input[i] && forall|j: int| 0 <= j < i ==> word[j] == input[j])),
{
    lemma_first_mismatch(word, input);
    let k = first_mismatch(word, input) as int;
    assert forall|i: int| 0 <= i < input.len() implies ((#[trigger] input_spans(word, input)[i]).1
        == SpanStyle::Correct <==> (forall|j: int| 0 <= j <= i ==> j < word.len() && word[j] == input[j])) by {
        if i >= k {
            if k < word.len() {
                assert(word[k] != input[k]);
            }
            assert(!(k < word.len() && word[k] == input[k]));
        }
    }
    assert forall|i: int| 0 <= i < word.len() implies ((#[trigger] word_spans(word, input)[i]).1
        == SpanStyle::Correct <==> (i < input.len() && forall|j: int| 0 <= j <= i ==> word[j] == input[j])) by {
        if i >= k && k < input.len() {
            assert(word[k] != input[k]);
        }
    }
    assert forall|i: int| 0 <= i < word.len() implies ((#[trigger] word_spans(word, input)[i]).1
        == SpanStyle::Mistake <==> (i < input.len() && word[i] != input[i] && forall|j: int| 0 <= j < i ==> word[j]
        == input[j])) by {
        if i > k && k < input.len() {
            assert(word[k] != input[k]);
        }
    }
}

/// Formats one word of the passage and the player's input for it.
/// Returns the spans of the word and the spans of the input, one per
/// character: matching characters are correct, the first character of
/// the word at which the input goes wrong is a mistake, the rest of the
/// word is plain, and the input from its first wrong character on is a
/// mistake.
pub fn get_formatted_words(word: &str, input: &str) -> (spans: (Vec<Span>, Vec<Span>))
    ensures
        spans.0.deep_view() == word_spans(word@, input@),
        spans.1.deep_view() == input_spans(word@, input@),
        spans.0@.len() == word@.len(),
        spans.1@.len() == input@.len(),
        forall|i: int| 0 <= i < word@.len() ==> (#[trigger] spans.0.deep_view()[i]).0 == seq![word@[i]],
        forall|i: int| 0 <= i < input@.len() ==> (#[trigger] spans.1.deep_view()[i]).0 == seq![input@[i]],
{
    proof {
        lemma_highlight_rules(word@, input@);
    }
    let indexable_word = chars_of(word);
    let indexable_input = chars_of(input);
    let idx_word_count = indexable_word.len();
    let idx_input_count = indexable_input.len();
    let ghost w = word@;
    let ghost t = input@;

    let mut formatted_word: Vec<Span> = Vec::new();
    let mut formatted_input: Vec<Span> = Vec::new();
    let mut word_dex: usize = 0;
    assert(w.skip(0) =~= w);
    assert(t.skip(0) =~= t);

    while word_dex < idx_word_count && word_dex < idx_input_count
        invariant_except_break
            indexable_word@ == w,
            indexable_input@ == t,
            idx_word_count == w.len(),
            idx_input_count == t.len(),
            word_dex <= idx_word_count,
            word_dex <= idx_input_count,
            forall|j: int| 0 <= j < word_dex ==> w[j] == t[j],
            first_mismatch(w, t) == word_dex + first_mismatch(w.skip(word_dex as int), t.skip(word_dex as int)),
            formatted_word.deep_view() =~= Seq::new(word_dex as nat, |i: int| char_span(w[i], SpanStyle::Correct)),
            formatted_input.deep_view() =~= Seq::new(word_dex as nat, |i: int| char_span(w[i], SpanStyle::Correct)),
        ensures
            indexable_word@ == w,
            indexable_input@ == t,
            idx_word_count == w.len(),
            idx_input_count == t.len(),
            word_dex == first_mismatch(w, t),
            word_dex <= idx_word_count,
            word_dex <= idx_input_count,
            forall|j: int| 0 <= j < word_dex ==> w[j] == t[j],
            formatted_word.deep_view() =~= Seq::new(word_dex as nat, |i: int| char_span(w[i], SpanStyle::Correct)),
            formatted_input.deep_view() =~= Seq::new(word_dex as nat, |i: int| char_span(w[i], SpanStyle::Correct)),
        decreases idx_word_count - word_dex,
    {
        if indexable_word[word_dex] != indexable_input[word_dex] {
            assert(w.skip(word_dex as int)[0] == w[word_dex as int]);
            assert(t.skip(word_dex as int)[0] == t[word_dex as int]);
            break;
        }
        proof {
            lemma_first_mismatch_step(w, t, word_dex as int);
        }
        let ghost before_word = formatted_word.deep_view();
        let ghost before_input = formatted_input.deep_view();
        formatted_word.push(char_span_of(indexable_word[word_dex], SpanStyle::Correct));
        formatted_input.push(char_span_of(indexable_word[word_dex], SpanStyle::Correct));
        assert(formatted_word.deep_view() =~= before_word.push(char_span(w[word_dex as int], SpanStyle::Correct)));
        assert(formatted_input.deep_view() =~= before_input.push(char_span(w[word_dex as int], SpanStyle::Correct)));
        word_dex += 1;
    }
    proof {
        if word_dex == idx_word_count || word_dex == idx_input_count {
            assert(first_mismatch(w.skip(word_dex as int), t.skip(word_dex as int)) == 0);
        }
    }

    // Fill out whatever is left (the user has made a mistake for the rest of the word)
    // Only the first character of the word at which the input goes wrong is marked.
    let mut err_first_char = word_dex < idx_input_count;
    let mut i = word_dex;
    while i < idx_word_count
        invariant
            indexable_word@ == w,
            idx_word_count == w.len(),
            idx_input_count == t.len(),
            word_dex == first_mismatch(w, t),
            word_dex <= i <= idx_word_count,
            err_first_char == (i == word_dex && word_dex < idx_input_count),
            formatted_word.deep_view() =~= word_spans(w, t).take(i as int),
        decreases idx_word_count - i,
    {
        let ghost before = formatted_word.deep_view();
        if err_first_char {
            formatted_word.push(char_span_of(indexable_word[i], SpanStyle::Mistake));
            err_first_char = false;
        } else {
            formatted_word.push(char_span_of(indexable_word[i], SpanStyle::Plain));
        }
        assert(formatted_word.deep_view() =~= before.push(word_spans(w, t)[i as int]));
        assert(word_spans(w, t).take(i + 1) =~= word_spans(w, t).take(i as int).push(word_spans(w, t)[i as int]));
        i += 1;
    }
    assert(word_spans(w, t).take(idx_word_count as int) =~= word_spans(w, t));

    // Make all of the user's typed error red
    let mut i = word_dex;
    while i < idx_input_count
        invariant
            indexable_input@ == t,
            word_dex <= idx_word_count,
            idx_word_count == w.len(),
            idx_input_count == t.len(),
            word_dex == first_mismatch(w, t),
            word_dex <= i <= idx_input_count,
            forall|j: int| 0 <= j < word_dex ==> w[j] == t[j],
            formatted_input.deep_view() =~= input_spans(w, t).take(i as int),
        decreases idx_input_count - i,
    {
        let ghost before = formatted_input.deep_view();
        formatted_input.push(char_span_of(indexable_input[i], SpanStyle::Mistake));
        assert(formatted_input.deep_view() =~= before.push(input_spans(w, t)[i as int]));
        assert(input_spans(w, t).take(i + 1) =~= input_spans(w, t).take(i as int).push(input_spans(w, t)[i as int]));
        i += 1;
    }
    assert(input_spans(w, t).take(idx_input_count as int) =~= input_spans(w, t));

    (formatted_word, formatted_input)
}


/// Where word `n` of the passage starts: every word before it, each
/// followed by one separating space.
pub open spec fn word_start(words: Seq<Seq<char>>, n: int) -> int
    decreases n,
{
    if n <= 0 {
        0
    } else {
        word_start(words, n - 1) + words[n - 1].len() + 1
    }
}

/// Later words start further on.
pub proof fn lemma_word_start_monotone(words: Seq<Seq<char>>, i: int, j: int)
    requires
        0 <= i <= j,
    ensures
        word_start(words, i) <= word_start(words, j),
    decreases j - i,
{
    if i < j {
        lemma_word_start_monotone(words, i, j - 1);
    }
}

/// Gets index of fully formatted text where the word the user is typing starts.
pub fn get_starting_idx(words: &Vec<&str>, current_word_idx: &usize) -> (start: usize)
    requires
        *current_word_idx <= words.len(),
        word_start(words.deep_view(), *current_word_idx as int) <= usize::MAX,
    ensures
        start == word_start(words.deep_view(), *current_word_idx as int),
{
    let ghost dv = words.deep_view();
    let mut passage_starting_idx: usize = 0;
    for i in 0..*current_word_idx
        invariant
            *current_word_idx <= words.len(),
            dv == words.deep_view(),
            word_start(dv, *current_word_idx as int) <= usize::MAX,
            passage_starting_idx == word_start(dv, i as int),
    {
        proof {
            lemma_word_start_monotone(dv, i + 1, *current_word_idx as int);
        }
        assert(dv[i as int] == words[i as int]@);
        passage_starting_idx += words[i].unicode_len() + 1;
    }
    passage_starting_idx
}

/// `base` with the spans from position `at` on replaced by `piece`.
pub open spec fn spliced(base: Seq<(Seq<char>, SpanStyle)>, at: int, piece: Seq<(Seq<char>, SpanStyle)>) -> Seq<
    (Seq<char>, SpanStyle),
> {
    Seq::new(base.len(), |j: int| if at <= j < at + piece.len() { piece[j - at] } else { base[j] })
}

/// Get fully formatted versions of the passage, and the user's input: the
/// spans of the current word inside the passage are replaced by its
/// highlighted spans; the spans of the input are returned beside it.
pub fn get_formatted_texts(
    words: &Vec<&str>,
    user_input: &String,
    current_word_idx: &usize,
    formatted_text: Vec<Span>,
) -> (texts: (Vec<Span>, Vec<Span>))
    requires
        *current_word_idx < words.len(),
        word_start(words.deep_view(), *current_word_idx as int) + words[*current_word_idx as int]@.len()
            <= formatted_text.len(),
    ensures
        texts.0.deep_view() == spliced(
            formatted_text.deep_view(),
            word_start(words.deep_view(), *current_word_idx as int),
            word_spans(words[*current_word_idx as int]@, user_input@),
        ),
        texts.1.deep_view() == input_spans(words[*current_word_idx as int]@, user_input@),
{
    let ghost dv = words.deep_view();
    let ghost idx = *current_word_idx as int;
    let (mut formatted_passage_word, formatted_user_input) = get_formatted_words(
        words[*current_word_idx],
        user_input.as_str(),
    );
    let starting_idx = get_starting_idx(words, current_word_idx);
    let ghost piece = word_spans(words[idx]@, user_input@);
    let ghost base = formatted_text.deep_view();
    let mut formatted_text = formatted_text;

    // The spans of the word are moved into place from the last one back.
    while formatted_passage_word.len() > 0
        invariant
            starting_idx == word_start(dv, idx),
            starting_idx + piece.len() <= base.len(),
            formatted_text.len() == base.len(),
            formatted_passage_word.len() <= piece.len(),
            formatted_passage_word.deep_view() =~= piece.take(formatted_passage_word.len() as int),
            formatted_text.deep_view() =~= Seq::new(
                base.len(),
                |j: int|
                    if starting_idx + formatted_passage_word.len() <= j < starting_idx + piece.len() {
                        piece[j - starting_idx]
                    } else {
                        base[j]
                    },
            ),
        decreases formatted_passage_word.len(),
    {
        let n = formatted_passage_word.len();
        let ghost before = formatted_text.deep_view();
        let ghost remaining = formatted_passage_word.deep_view();
        let span = formatted_passage_word.pop().unwrap();
        assert(span.deep_view() == remaining[n - 1]);
        assert(formatted_passage_word.deep_view() =~= remaining.take(n - 1));
        formatted_text[starting_idx + n - 1] = span;
        assert(formatted_text.deep_view() =~= before.update(starting_idx + n - 1, remaining[n - 1]));
    }
    (formatted_text, formatted_user_input)
}


/// `word_start` only looks at the words before position `i`.
proof fn lemma_word_start_prefix(p: Seq<Seq<char>>, q: Seq<Seq<char>>, i: int)
    requires
        0 <= i <= q.len() <= p.len(),
        forall|j: int| 0 <= j < q.len() ==> p[j] == q[j],
    ensures
        word_start(p, i) == word_start(q, i),
    decreases i,
{
    if i > 0 {
        lemma_word_start_prefix(p, q, i - 1);
    }
}

/// In the pieces joined by a separator, piece `i` stands at
/// `word_start(pieces, i)`, and the joined text ends one place before the
/// start of a piece after the last.
pub proof fn lemma_joined_layout(pieces: Seq<Seq<char>>, sep: char)
    requires
        pieces.len() > 0,
    ensures
        joined(pieces, sep).len() + 1 == word_start(pieces, pieces.len() as int),
        forall|i: int|
            0 <= i < pieces.len() ==> joined(pieces, sep).subrange(
                word_start(pieces, i),
                word_start(pieces, i) + pieces[i].len(),
            ) == pieces[i],
    decreases pieces.len(),
{
    let n = pieces.len() as int;
    if n == 1 {
        assert(word_start(pieces, 0) == 0);
        assert(word_start(pieces, 1) == pieces[0].len() + 1);
        assert(joined(pieces, sep).subrange(0, pieces[0].len() as int) =~= pieces[0]);
    } else {
        let q = pieces.drop_last();
        lemma_joined_layout(q, sep);
        lemma_word_start_prefix(pieces, q, n - 1);
        assert(joined(pieces, sep) == joined(q, sep).push(sep) + pieces.last());
        assert(word_start(pieces, n) == word_start(pieces, n - 1) + pieces[n - 1].len() + 1);
        assert forall|i: int| 0 <= i < n implies joined(pieces, sep).subrange(
            word_start(pieces, i),
            word_start(pieces, i) + pieces[i].len(),
        ) == pieces[i] by {
            lemma_joined_layout_piece(pieces, sep, i);
        }
    }
}

/// One piece of `lemma_joined_layout`, from the layout of all but the last piece.
proof fn lemma_joined_layout_piece(pieces: Seq<Seq<char>>, sep: char, i: int)
    requires
        pieces.len() > 1,
        0 <= i < pieces.len(),
        joined(pieces.drop_last(), sep).len() + 1 == word_start(pieces.drop_last(), pieces.len() - 1),
        forall|k: int|
            0 <= k < pieces.len() - 1 ==> joined(pieces.drop_last(), sep).subrange(
                word_start(pieces.drop_last(), k),
                word_start(pieces.drop_last(), k) + pieces.drop_last()[k].len(),
            ) == pieces.drop_last()[k],
    ensures
        joined(pieces, sep).subrange(word_start(pieces, i), word_start(pieces, i) + pieces[i].len()) == pieces[i],
{
    let n = pieces.len() as int;
    let q = pieces.drop_last();
    let jq = joined(q, sep);
    assert(joined(pieces, sep) == jq.push(sep) + pieces.last());
    assert(jq.push(sep) =~= jq + seq![sep]);
    lemma_word_start_prefix(pieces, q, n - 1);
    if i < n - 1 {
        lemma_word_start_prefix(pieces, q, i);
        lemma_word_start_monotone(q, 0, i);
        lemma_word_start_monotone(q, i + 1, n - 1);
        let lo = word_start(q, i);
        let hi = lo + q[i].len();
        assert(hi + 1 == word_start(q, i + 1));
        lemma_subrange_of_prefix(jq.push(sep), pieces.last(), lo, hi);
        lemma_subrange_of_prefix(jq, seq![sep], lo, hi);
        assert(q[i] == pieces[i]);
    } else {
        assert((jq.push(sep) + pieces.last()).subrange(jq.len() + 1int, jq.len() + 1int + pieces.last().len())
            =~= pieces.last());
    }
}

proof fn lemma_subrange_of_prefix(a: Seq<char>, b: Seq<char>, lo: int, hi: int)
    requires
        0 <= lo <= hi <= a.len(),
    ensures
        (a + b).subrange(lo, hi) == a.subrange(lo, hi),
{
    assert((a + b).subrange(lo, hi) =~= a.subrange(lo, hi));
}

/// The words of a passage split at `sep` are found in the passage where
/// `get_starting_idx` says they start: word `i` is the text from
/// `word_start(words, i)` on, and it ends within the passage.
pub proof fn lemma_word_start_locates_word(passage: Seq<char>, sep: char, i: int)
    requires
        0 <= i < split_pieces(passage, sep).len(),
    ensures
        word_start(split_pieces(passage, sep), i) + split_pieces(passage, sep)[i].len() <= passage.len(),
        passage.subrange(
            word_start(split_pieces(passage, sep), i),
            word_start(split_pieces(passage, sep), i) + split_pieces(passage, sep)[i].len(),
        ) == split_pieces(passage, sep)[i],
{
    let words = split_pieces(passage, sep);
    lemma_split_pieces_shape(passage, sep);
    lemma_join_split(passage, sep);
    lemma_joined_layout(words, sep);
    lemma_word_start_monotone(words, i + 1, words.len() as int);
}


/// The input agrees with a word on all of any prefix of the word.
proof fn lemma_first_mismatch_of_prefix(word: Seq<char>, k: int)
    requires
        0 <= k <= word.len(),
    ensures
        first_mismatch(word, word.take(k)) == k,
    decreases k,
{
    if k > 0 {
        assert(word.take(k).drop_first() =~= word.drop_first().take(k - 1));
        lemma_first_mismatch_of_prefix(word.drop_first(), k - 1);
    }
}

/// As long as the player has typed a beginning of the word without a
/// mistake, nothing is shown as a mistake: the typed part of the word and
/// all of the input are correct, and the rest of the word is plain.
pub proof fn lemma_no_mistake_while_input_is_a_prefix(word: Seq<char>, k: int)
    requires
        0 <= k <= word.len(),
    ensures
        forall|i: int| 0 <= i < k ==> #[trigger] word_spans(word, word.take(k))[i] == char_span(word[i], SpanStyle::Correct),
        forall|i: int| k <= i < word.len() ==> #[trigger] word_spans(word, word.take(k))[i] == char_span(word[i], SpanStyle::Plain),
        forall|i: int| 0 <= i < k ==> #[trigger] input_spans(word, word.take(k))[i] == char_span(word[i], SpanStyle::Correct),
        input_spans(word, word.take(k)).len() == k,
{
    lemma_first_mismatch_of_prefix(word, k);
}

/// Once the input goes wrong, the first character of the word at which it
/// differs is shown as a mistake, and so is the input from there on.
pub proof fn lemma_first_mistake_is_marked(word: Seq<char>, input: Seq<char>)
    requires
        first_mismatch(word, input) < input.len(),
    ensures
        first_mismatch(word, input) < word.len() ==> word_spans(word, input)[first_mismatch(word, input) as int].1
            == SpanStyle::Mistake,
        forall|i: int| first_mismatch(word, input) <= i < input.len() ==> (#[trigger] input_spans(word, input)[i]).1
            == SpanStyle::Mistake,
{
}

/// In the pieces joined by a separator, the separator stands just before
/// the start of every piece but the first.
proof fn lemma_joined_separators(pieces: Seq<Seq<char>>, sep: char, i: int)
    requires
        1 <= i < pieces.len(),
    ensures
        1 <= word_start(pieces, i) <= joined(pieces, sep).len(),
        joined(pieces, sep)[word_start(pieces, i) - 1] == sep,
    decreases pieces.len(),
{
    let n = pieces.len() as int;
    let q = pieces.drop_last();
    let jq = joined(q, sep);
    lemma_joined_layout(pieces, sep);
    lemma_joined_layout(q, sep);
    assert(joined(pieces, sep) == jq.push(sep) + pieces.last());
    lemma_word_start_prefix(pieces, q, n - 1);
    lemma_word_start_prefix(pieces, q, i);
    lemma_word_start_monotone(q, 1, i);
    assert(word_start(q, 1) == q[0].len() + 1) by {
        assert(word_start(q, 0) == 0);
    }
    if i < n - 1 {
        lemma_joined_separators(q, sep, i);
    } else {
        assert((jq.push(sep) + pieces.last())[jq.len() as int] == sep);
    }
}

/// A space stands just before where `get_starting_idx` says each word but
/// the first starts; the first word starts at 0, and each next word starts
/// its length and one space later.
pub proof fn lemma_space_before_word_start(passage: Seq<char>, i: int)
    requires
        0 <= i < split_pieces(passage, ' ').len(),
    ensures
        word_start(split_pieces(passage, ' '), 0) == 0,
        word_start(split_pieces(passage, ' '), i + 1) == word_start(split_pieces(passage, ' '), i)
            + split_pieces(passage, ' ')[i].len() + 1,
        i > 0 ==> passage[word_start(split_pieces(passage, ' '), i) - 1] == ' ',
{
    if i > 0 {
        lemma_join_split(passage, ' ');
        lemma_joined_separators(split_pieces(passage, ' '), ' ', i);
    }
}

} // verus!
