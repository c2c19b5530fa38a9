//! Choosing the passage of a round from the Anki deck.
//!
//! The deck is an SQLite database; the queries are run by the caller.
//! This module decides which query to run next, reads the answers and
//! turns the fields of a note into the passage to type, its title and the
//! text shown beside it.

use vstd::prelude::*;
use crate::option::Argument;
use crate::text::{split_on, trim, joined, split_pieces, trimmed};
use crate::numbers::{decimal_i64, signed_decimal, parse_i32, parse_i64, integer_text_in};

verus! {

broadcast use vstd::string::group_string_axioms;

// ---------------------------------------------------------------------
// Outside calls

/// What `regex::Regex::new(pattern)` followed by `captures_iter(text)`
/// yields: `None` when the pattern does not compile, else, for each match
/// in order, its capture groups (group 0 first), each the matched text or
/// `None` where the group did not take part in the match.
pub uninterp spec fn regex_capture_groups(pattern: Seq<char>, text: Seq<char>) -> Option<
    Seq<Seq<Option<Seq<char>>>>,
>;

/// Calls `regex::Regex::new` and `Regex::captures_iter`, and hands out the
/// text of every group of every match. The contract only names the
/// result: what the regex engine matches is not restated here.
#[verifier::external_body]
fn capture_groups(pattern: &str, text: &str) -> (groups: Option<Vec<Vec<Option<String>>>>)
    ensures
        groups.deep_view() == regex_capture_groups(pattern@, text@),
{
    match regex::Regex::new(pattern) {
        Ok(re) => Some(
            re.captures_iter(text).map(
                |caps| caps.iter().map(|g| g.map(|m| m.as_str().to_string())).collect(),
            ).collect(),
        ),
        Err(_) => None,
    }
}

/// Calls `rand::Rng::gen_range(&mut rand::thread_rng(), low, high)`
/// (rand 0.7), which panics unless `low < high` and otherwise returns a
/// value of `low..high` drawn at random. Only the range is promised.
#[verifier::external_body]
fn random_in(low: i32, high: i32) -> (r: i32)
    requires
        low < high,
    ensures
        low <= r < high,
{
    rand::Rng::gen_range(&mut rand::thread_rng(), low, high)
}

// ---------------------------------------------------------------------
// Text helpers

/// `s` written `n` times in a row (`str::repeat`).
pub open spec fn repeated(s: Seq<char>, n: nat) -> Seq<char>
    decreases n,
{
    if n == 0 {
        Seq::<char>::empty()
    } else {
        repeated(s, (n - 1) as nat) + s
    }
}

/// `s` written `n` times in a row.
pub fn repeat_str(s: &str, n: usize) -> (r: String)
    ensures
        r@ == repeated(s@, n as nat),
{
    let mut r = String::new();
    for i in 0..n
        invariant
            r@ == repeated(s@, i as nat),
    {
        r.append(s);
    }
    r
}

/// The strings joined with `sep` between each two (`[String]::join`).
pub fn join_with(pieces: &Vec<String>, sep: char) -> (r: String)
    ensures
        r@ == joined(pieces.deep_view(), sep),
{
    let mut r = String::new();
    let ghost dv = pieces.deep_view();
    for i in 0..pieces.len()
        invariant
            dv == pieces.deep_view(),
            r@ == joined(dv.take(i as int), sep),
    {
        assert(dv.take(i + 1).drop_last() =~= dv.take(i as int));
        assert(dv.take(i + 1).last() == pieces[i as int]@);
        if i > 0 {
            crate::text::push_char(&mut r, sep);
        } else {
            assert(r@ =~= Seq::<char>::empty());
        }
        r.append(pieces[i].as_str());
        assert(i == 0 ==> dv.take(1)[0] == pieces[0]@);
    }
    assert(dv.take(pieces.len() as int) =~= dv);
    r
}

/// `s` written `n` times has `n` times as many characters as `s`, and its
/// character `i` is `s`'s character `i % |s|`.
pub proof fn lemma_repeated_shape(s: Seq<char>, n: nat)
    requires
        s.len() > 0,
    ensures
        repeated(s, n).len() == n * s.len(),
        forall|i: int| 0 <= i < n * s.len() ==> #[trigger] repeated(s, n)[i] == s[i % (s.len() as int)],
    decreases n,
{
    if n == 0 {
        assert(n * s.len() == 0) by (nonlinear_arith)
            requires
                n == 0,
        ;
    } else {
        let m = (n - 1) as nat;
        lemma_repeated_shape(s, m);
        let len = s.len() as int;
        assert(m * len + len == n * len) by (nonlinear_arith)
            requires
                m + 1 == n,
        ;
        assert forall|i: int| 0 <= i < n * s.len() implies #[trigger] repeated(s, n)[i] == s[i % len] by {
            if i >= m * len {
                let b = i - m * len;
                vstd::arithmetic::div_mod::lemma_mod_multiples_vanish(m as int, b, len);
                vstd::arithmetic::div_mod::lemma_small_mod(b as nat, len as nat);
                assert(len * m == m * len) by (nonlinear_arith);
            }
        }
    }
}

// ---------------------------------------------------------------------
// The fields of a note

/// The pattern of a card's fields: the word, its meaning and an example.
pub open spec fn card_pattern() -> Seq<char> {
    "([a-z]+).*<div style='color:BlueViolet'>(.+);</div>.*<div style='color:DeepSkyBlue'>(.+)\\.</div>.*"@
}

/// What a round remembers of the notes read so far: the current word and
/// the passage, its title and the text of the note.
pub type PassageState = (Seq<char>, (Seq<char>, Seq<char>, Seq<char>));

/// Whether a match of the card pattern has the groups that are used.
pub open spec fn usable_groups(groups: Seq<Option<Seq<char>>>, word_only: bool) -> bool {
    &&& groups.len() > 2
    &&& groups[1] is Some
    &&& groups[2] is Some
    &&& (word_only || (groups.len() > 3 && groups[3] is Some))
}

/// The passage of a card: the word and a space, `repeat` times, then,
/// unless only the word is typed, ". " and the example and ".".
pub open spec fn card_text(groups: Seq<Option<Seq<char>>>, word_only: bool, repeat: nat) -> Seq<char> {
    let words = repeated(groups[1]->0 + " "@, repeat);
    if word_only {
        words
    } else {
        words + ". "@ + groups[3]->0 + "."@
    }
}

/// The passage of a card begins with its word and a space, written
/// exactly `repeat` times; when only the word is typed that is all of it,
/// otherwise ". ", the example and "." follow.
pub proof fn lemma_card_text_shape(groups: Seq<Option<Seq<char>>>, word_only: bool, repeat: nat)
    requires
        usable_groups(groups, word_only),
    ensures
        ({
            let w = groups[1]->0.push(' ');
            let n = repeat * w.len();
            &&& card_text(groups, word_only, repeat).len() >= n
            &&& forall|i: int| 0 <= i < n ==> #[trigger] card_text(groups, word_only, repeat)[i] == w[i % (w.len() as int)]
            &&& word_only ==> card_text(groups, word_only, repeat).len() == n
            &&& !word_only ==> card_text(groups, word_only, repeat).skip(n as int) == ". "@ + groups[3]->0 + "."@
        }),
{
    reveal_strlit(" ");
    let w = groups[1]->0.push(' ');
    assert(groups[1]->0 + " "@ =~= w);
    lemma_repeated_shape(w, repeat);
    let r = repeated(w, repeat);
    let n = repeat * w.len();
    if !word_only {
        assert(card_text(groups, word_only, repeat) == r + ". "@ + groups[3]->0 + "."@);
        assert((r + ". "@ + groups[3]->0 + "."@).skip(n as int) =~= ". "@ + groups[3]->0 + "."@);
        assert forall|i: int| 0 <= i < n implies #[trigger] card_text(groups, word_only, repeat)[i] == w[i % (
        w.len() as int)] by {
            assert(card_text(groups, word_only, repeat)[i] == r[i]);
        }
    }
}

/// A usable match makes its word the current word and its card the passage.
pub open spec fn after_capture(
    state: PassageState,
    groups: Seq<Option<Seq<char>>>,
    plain: Seq<char>,
    word_only: bool,
    repeat: nat,
) -> PassageState {
    if usable_groups(groups, word_only) {
        (groups[1]->0, (card_text(groups, word_only, repeat), groups[2]->0, plain))
    } else {
        state
    }
}

/// The matches of one note, in order.
pub open spec fn after_captures(
    state: PassageState,
    captures: Seq<Seq<Option<Seq<char>>>>,
    plain: Seq<char>,
    word_only: bool,
    repeat: nat,
) -> PassageState
    decreases captures.len(),
{
    if captures.len() == 0 {
        state
    } else {
        after_capture(
            after_captures(state, captures.drop_last(), plain, word_only, repeat),
            captures.last(),
            plain,
            word_only,
            repeat,
        )
    }
}

/// One note: its fields as stored (`html`) and the pieces of text between
/// its tags (`pieces`), which are shown joined by line breaks.
pub open spec fn after_note(
    state: PassageState,
    html: Seq<char>,
    pieces: Seq<Seq<char>>,
    word_only: bool,
    repeat: nat,
) -> PassageState {
    match regex_capture_groups(card_pattern(), html) {
        Some(captures) => after_captures(state, captures, joined(pieces, '\n'), word_only, repeat),
        None => state,
    }
}

/// The notes that the query returned, in order.
pub open spec fn after_notes(
    state: PassageState,
    notes: Seq<(Seq<char>, Seq<Seq<char>>)>,
    word_only: bool,
    repeat: nat,
) -> PassageState
    decreases notes.len(),
{
    if notes.len() == 0 {
        state
    } else {
        after_note(
            after_notes(state, notes.drop_last(), word_only, repeat),
            notes.last().0,
            notes.last().1,
            word_only,
            repeat,
        )
    }
}

/// The settings of `a` and `b` agree, and so do their word history and
/// the note id of sequential mode.
pub open spec fn same_settings(a: Argument, b: Argument) -> bool {
    &&& a.repeat == b.repeat
    &&& a.speed_threshold == b.speed_threshold
    &&& a.anki_deck@ == b.anki_deck@
    &&& a.input@ == b.input@
    &&& a.word_only == b.word_only
    &&& a.words@ == b.words@
    &&& a.sequential == b.sequential
    &&& a.starting_word@ == b.starting_word@
}

/// Continues the passage of a round with the matches of the card pattern
/// in one note (each match: its capture groups, group 0 first) and the
/// note's text: every match that has the groups it needs makes its word
/// the current word and its card the passage; the last such match wins,
/// and with none the current word and the passage stay as they were.
pub fn passage_from_captures(
    option: &mut Argument,
    captures: &Vec<Vec<Option<String>>>,
    plain: &String,
    passage: &mut (String, String, String),
)
    ensures
        after_captures(
            (old(option).current_word@, (old(passage).0@, old(passage).1@, old(passage).2@)),
            captures.deep_view(),
            plain@,
            old(option).word_only,
            old(option).repeat as nat,
        ) == (final(option).current_word@, (final(passage).0@, final(passage).1@, final(passage).2@)),
        captures.deep_view().len() > 0 && usable_groups(captures.deep_view().last(), old(option).word_only) ==> ({
            let g = captures.deep_view().last();
            let w = g[1]->0.push(' ');
            let n = old(option).repeat as nat * w.len();
            &&& final(option).current_word@ == g[1]->0
            &&& final(passage).1@ == g[2]->0
            &&& final(passage).2@ == plain@
            &&& final(passage).0@.len() >= n
            &&& forall|i: int| 0 <= i < n ==> #[trigger] final(passage).0@[i] == w[i % (w.len() as int)]
            &&& old(option).word_only ==> final(passage).0@.len() == n
            &&& !old(option).word_only ==> final(passage).0@.skip(n as int) == ". "@ + g[3]->0 + "."@
        }),
        (forall|c: int|
            0 <= c < captures.deep_view().len() ==> !usable_groups(
                #[trigger] captures.deep_view()[c],
                old(option).word_only,
            )) ==> final(option).current_word@ == old(option).current_word@ && final(passage).0@ == old(
            passage,
        ).0@ && final(passage).1@ == old(passage).1@ && final(passage).2@ == old(passage).2@,
        same_settings(*old(option), *final(option)),
        final(option).typed_words@ == old(option).typed_words@,
        final(option).current_id == old(option).current_id,
{
    let ghost word_only = option.word_only;
    let ghost repeat = option.repeat as nat;
    let ghost first = *option;
    let ghost before: PassageState = (option.current_word@, (passage.0@, passage.1@, passage.2@));
    let ghost caps = captures.deep_view();
    assert(caps.take(0) =~= Seq::<Seq<Option<Seq<char>>>>::empty());
    for c in 0..captures.len()
        invariant
            caps == captures.deep_view(),
            word_only == option.word_only,
            repeat == option.repeat as nat,
            same_settings(first, *option),
            option.typed_words@ == first.typed_words@,
            option.current_id == first.current_id,
            after_captures(before, caps.take(c as int), plain@, word_only, repeat) == (
                option.current_word@,
                (passage.0@, passage.1@, passage.2@),
            ),
    {
        assert(caps.take(c + 1).drop_last() =~= caps.take(c as int));
        let group = &captures[c];
        let ghost g = caps[c as int];
        assert(caps.take(c + 1).last() == g);
        assert(g == group.deep_view());
        if group.len() > 2 {
            if let (Some(word), Some(meaning)) = (&group[1], &group[2]) {
                assert(g[1] == Some(word@));
                assert(g[2] == Some(meaning@));
                let mut words = word.clone();
                words.append(" ");
                let repeated_words = repeat_str(words.as_str(), option.repeat as usize);
                if option.word_only {
                    option.current_word = word.clone();
                    *passage = (repeated_words, meaning.clone(), plain.clone());
                } else if group.len() > 3 {
                    if let Some(example) = &group[3] {
                        assert(g[3] == Some(example@));
                        let mut content = repeated_words;
                        content.append(". ");
                        content.append(example.as_str());
                        content.append(".");
                        option.current_word = word.clone();
                        *passage = (content, meaning.clone(), plain.clone());
                    }
                }
            }
        }
    }
    assert(caps.take(captures.len() as int) =~= caps);
    proof {
        if caps.len() > 0 && usable_groups(caps.last(), word_only) {
            lemma_card_text_shape(caps.last(), word_only, repeat);
        }
        lemma_after_unusable_captures(before, caps, plain@, word_only, repeat);
    }
}

/// Matches without the groups they need change nothing.
pub proof fn lemma_after_unusable_captures(
    state: PassageState,
    captures: Seq<Seq<Option<Seq<char>>>>,
    plain: Seq<char>,
    word_only: bool,
    repeat: nat,
)
    ensures
        (forall|c: int| 0 <= c < captures.len() ==> !usable_groups(#[trigger] captures[c], word_only))
            ==> after_captures(state, captures, plain, word_only, repeat) == state,
    decreases captures.len(),
{
    if captures.len() > 0 {
        lemma_after_unusable_captures(state, captures.drop_last(), plain, word_only, repeat);
        if forall|c: int| 0 <= c < captures.len() ==> !usable_groups(#[trigger] captures[c], word_only) {
            assert forall|c: int| 0 <= c < captures.drop_last().len() implies !usable_groups(
                #[trigger] captures.drop_last()[c],
                word_only,
            ) by {
                assert(captures.drop_last()[c] == captures[c]);
            }
            assert(!usable_groups(captures[captures.len() - 1], word_only));
        }
    }
}

/// The passage, its title and the note's text from the notes that the
/// fields query returned: each note holds its stored fields and the
/// pieces of text between their HTML tags. The last match of the card
/// pattern that has its groups decides; its word becomes the current
/// word. With no such match the three are empty and the current word
/// stays.
pub fn get_passage_from_notes(option: &mut Argument, notes: &Vec<(String, Vec<String>)>) -> (passage: (
    String,
    String,
    String,
))
    ensures
        after_notes(
            (old(option).current_word@, (Seq::<char>::empty(), Seq::<char>::empty(), Seq::<char>::empty())),
            notes.deep_view(),
            old(option).word_only,
            old(option).repeat as nat,
        ) == (final(option).current_word@, (passage.0@, passage.1@, passage.2@)),
        same_settings(*old(option), *final(option)),
        final(option).typed_words@ == old(option).typed_words@,
        final(option).current_id == old(option).current_id,
{
    let ghost word_only = option.word_only;
    let ghost repeat = option.repeat as nat;
    let ghost dv = notes.deep_view();
    let ghost start: PassageState = (option.current_word@, (Seq::<char>::empty(), Seq::<char>::empty(), Seq::<char>::empty()));
    let ghost first = *option;
    let mut rtn: (String, String, String) = (String::new(), String::new(), String::new());
    let pattern = "([a-z]+).*<div style='color:BlueViolet'>(.+);</div>.*<div style='color:DeepSkyBlue'>(.+)\\.</div>.*";
    assert(pattern@ == card_pattern());
    for n in 0..notes.len()
        invariant
            dv == notes.deep_view(),
            pattern@ == card_pattern(),
            word_only == option.word_only,
            repeat == option.repeat as nat,
            same_settings(first, *option),
            option.typed_words@ == first.typed_words@,
            option.current_id == first.current_id,
            after_notes(start, dv.take(n as int), word_only, repeat) == (option.current_word@, (rtn.0@, rtn.1@, rtn.2@)),
    {
        assert(dv.take(n + 1).drop_last() =~= dv.take(n as int));
        let ghost before: PassageState = (option.current_word@, (rtn.0@, rtn.1@, rtn.2@));
        let html = &notes[n].0;
        let no_tag_content = join_with(&notes[n].1, '\n');
        assert(dv.take(n + 1).last() == dv[n as int]);
        if let Some(captures) = capture_groups(pattern, html.as_str()) {
            passage_from_captures(option, &captures, &no_tag_content, &mut rtn);
        }
    }
    assert(dv.take(notes.len() as int) =~= dv);
    rtn
}

// ---------------------------------------------------------------------
// Which note comes next

/// The words of a comma separated list, each trimmed.
pub open spec fn listed_words(list: Seq<char>) -> Seq<Seq<char>> {
    split_pieces(list, ',').map_values(|p: Seq<char>| trimmed(p))
}

/// Where `word` first stands in `words`, or 0 where it does not.
pub open spec fn position_or_first(words: Seq<Seq<char>>, word: Seq<char>) -> int {
    if exists|i: int| 0 <= i < words.len() && words[i] == word {
        choose|i: int|
            0 <= i < words.len() && words[i] == word && forall|j: int| 0 <= j < i ==> words[j] != word
    } else {
        0
    }
}

/// The word after `current` in the list: the first word when nothing was
/// typed yet, else the word after the first place of `current` (after a
/// word that is not listed, the second word); past the last word the list
/// starts over with the first word.
pub open spec fn next_listed_word(words: Seq<Seq<char>>, current: Seq<char>) -> Seq<char> {
    let index = position_or_first(words, current);
    if index == 0 && current.len() == 0 {
        words[0]
    } else if index + 1 < words.len() {
        words[index + 1]
    } else {
        words[0]
    }
}

/// The query that fetches the fields of the notes for `word`.
pub open spec fn fields_by_word_query(word: Seq<char>) -> Seq<char> {
    "select flds from notes where sfld='"@ + word + "'"@
}

/// The query that fetches the fields of the note with id `id`.
pub open spec fn fields_by_id_query(id: int) -> Seq<char> {
    "select flds from notes where id="@ + signed_decimal(id)
}

/// The query that finds the id of the note for `word`.
pub open spec fn id_by_word_query(word: Seq<char>) -> Seq<char> {
    "select id from notes where sfld='"@ + word + "'"@
}

/// The query that fetches the fields of the note at `offset`.
pub open spec fn fields_at_offset_query(offset: int) -> Seq<char> {
    "select flds from notes limit "@ + signed_decimal(offset) + ",1"@
}

/// The query that counts the notes.
pub open spec fn count_query() -> Seq<char> {
    "select count(*) as cnt from notes"@
}

/// A query that the caller runs on the deck next.
pub enum PassageQuery {
    /// fetch the fields of the note(s); hand the answer to `get_passage_from_notes`
    Fields(String),
    /// find the id of the starting word; hand each answer to `record_starting_id`
    StartingId(String),
    /// count the notes; hand the answer to `note_count`
    NoteCount(String),
}

/// Finds the index of the first word equal to `word`.
fn position_in(words: &Vec<&str>, word: &str) -> (index: usize)
    ensures
        index == position_or_first(words.deep_view(), word@),
{
    let ghost dv = words.deep_view();
    for i in 0..words.len()
        invariant
            dv == words.deep_view(),
            forall|j: int| 0 <= j < i ==> dv[j] != word@,
    {
        if crate::highlight::check_word(words[i], &word.to_owned()) {
            assert(dv[i as int] == word@);
            let ghost k = choose|k: int|
                0 <= k < dv.len() && dv[k] == word@ && forall|j: int| 0 <= j < k ==> dv[j] != word@;
            assert(k == i) by {
                if k < i {
                    assert(dv[k] != word@);
                }
                if k > i {
                    assert(dv[i as int] != word@);
                }
            }
            return i;
        }
    }
    0
}

/// The words of the comma separated list, trimmed.
pub fn list_words(list: &str) -> (words: Vec<&str>)
    ensures
        words.deep_view() == listed_words(list@),
        words.len() >= 1,
{
    let pieces = split_on(list, ',');
    let ghost pv = pieces.deep_view();
    proof {
        crate::text::lemma_split_pieces_shape(list@, ',');
    }
    let mut words: Vec<&str> = Vec::new();
    for i in 0..pieces.len()
        invariant
            pv == pieces.deep_view(),
            pv == split_pieces(list@, ','),
            words.deep_view() =~= listed_words(list@).take(i as int),
    {
        let ghost before = words.deep_view();
        let t = trim(pieces[i]);
        words.push(t);
        assert(words.deep_view() =~= before.push(trimmed(pv[i as int])));
    }
    assert(listed_words(list@).take(pieces.len() as int) =~= listed_words(list@));
    words
}

/// Moves the current word on to the next word of the list of words the
/// player asked for, and returns the query for its note.
pub fn next_word_query(option: &mut Argument) -> (query: String)
    ensures
        final(option).current_word@ == next_listed_word(listed_words(old(option).words@), old(option).current_word@),
        query@ == fields_by_word_query(final(option).current_word@),
        same_settings(*old(option), *final(option)),
        final(option).typed_words@ == old(option).typed_words@,
        final(option).current_id == old(option).current_id,
{
    let ghost ws = listed_words(option.words@);
    let next: String;
    {
        let words = list_words(option.words.as_str());
        let index = position_in(&words, option.current_word.as_str());
        next = if index == 0 && option.current_word.unicode_len() == 0 {
            words[0].to_owned()
        } else if index < words.len() - 1 {
            words[index + 1].to_owned()
        } else {
            // the words are finished: start over
            words[0].to_owned()
        };
    }
    option.current_word = next;
    let mut query = String::from_str("select flds from notes where sfld='");
    query.append(option.current_word.as_str());
    query.append("'");
    query
}

/// The next word of the list is always one of the listed words.
pub proof fn lemma_next_listed_word_is_listed(list: Seq<char>, current: Seq<char>)
    ensures
        listed_words(list).contains(next_listed_word(listed_words(list), current)),
{
    crate::text::lemma_split_pieces_shape(list, ',');
    let ws = listed_words(list);
    let index = position_or_first(ws, current);
    if exists|i: int| 0 <= i < ws.len() && ws[i] == current {
        let k = choose|i: int|
            0 <= i < ws.len() && ws[i] == current && forall|j: int| 0 <= j < i ==> ws[j] != current;
        assert(0 <= k < ws.len() && ws[k] == current && forall|j: int| 0 <= j < k ==> ws[j] != current) by {
            let w = choose|i: int| 0 <= i < ws.len() && ws[i] == current;
            lemma_first_place_exists(ws, current, w);
        }
        assert(index == k);
    }
    if index + 1 < ws.len() && !(index == 0 && current.len() == 0) {
        assert(ws[index + 1] == next_listed_word(ws, current));
    } else {
        assert(ws[0] == next_listed_word(ws, current));
    }
}

/// A word found in the list has a first place in it.
proof fn lemma_first_place_exists(words: Seq<Seq<char>>, w: Seq<char>, i: int)
    requires
        0 <= i < words.len(),
        words[i] == w,
    ensures
        exists|k: int| 0 <= k < words.len() && words[k] == w && forall|j: int| 0 <= j < k ==> words[j] != w,
    decreases i,
{
    if exists|j: int| 0 <= j < i && words[j] == w {
        let j = choose|j: int| 0 <= j < i && words[j] == w;
        lemma_first_place_exists(words, w, j);
    } else {
        assert(forall|j: int| 0 <= j < i ==> words[j] != w);
    }
}

/// The first place of a word that is in the list.
proof fn lemma_position_of_listed(words: Seq<Seq<char>>, i: int)
    requires
        0 <= i < words.len(),
        forall|j: int| 0 <= j < i ==> words[j] != words[i],
    ensures
        position_or_first(words, words[i]) == i,
{
    let w = words[i];
    assert(exists|k: int| 0 <= k < words.len() && words[k] == w);
    let k = choose|k: int| 0 <= k < words.len() && words[k] == w && forall|j: int| 0 <= j < k ==> words[j] != w;
    assert(0 <= i < words.len() && words[i] == w && forall|j: int| 0 <= j < i ==> words[j] != w);
    if k < i {
        assert(words[k] != w);
    }
    if k > i {
        assert(words[i] != w);
    }
}

/// The list is walked in order: after a word (at its first place in the
/// list, and not the empty word at the front) comes the word that
/// follows it in the list.
pub proof fn lemma_next_listed_word_advances(words: Seq<Seq<char>>, i: int)
    requires
        0 <= i,
        i + 1 < words.len(),
        forall|j: int| 0 <= j < i ==> words[j] != words[i],
        !(i == 0 && words[i].len() == 0),
    ensures
        next_listed_word(words, words[i]) == words[i + 1],
{
    lemma_position_of_listed(words, i);
    assert(words.contains(words[i + 1]));
}

/// When the last word of the list has been typed, the list starts over.
pub proof fn lemma_next_listed_word_starts_over(words: Seq<Seq<char>>, i: int)
    requires
        0 <= i,
        i + 1 == words.len(),
        forall|j: int| 0 <= j < i ==> words[j] != words[i],
        !(i == 0 && words[i].len() == 0),
    ensures
        next_listed_word(words, words[i]) == words[0],
{
    lemma_position_of_listed(words, i);
}

/// The current word after `k` rounds in the mode of a list of words,
/// starting from `current`.
pub open spec fn listed_word_after(words: Seq<Seq<char>>, current: Seq<char>, k: nat) -> Seq<char>
    decreases k,
{
    if k == 0 {
        current
    } else {
        next_listed_word(words, listed_word_after(words, current, (k - 1) as nat))
    }
}

/// Round after round, the words of a list of distinct, non-empty words
/// are visited in order, starting from the first when nothing was typed
/// yet, and the list starts over after its last word: round `k` (counted
/// from 0) plays word `k % n`.
pub proof fn lemma_listed_words_visited_in_order(words: Seq<Seq<char>>, k: nat)
    requires
        words.len() > 0,
        forall|i: int, j: int| 0 <= i < words.len() && 0 <= j < words.len() && i != j ==> words[i] != words[j],
        forall|i: int| 0 <= i < words.len() ==> words[i].len() > 0,
    ensures
        listed_word_after(words, Seq::<char>::empty(), k + 1) == words[(k % words.len()) as int],
    decreases k,
{
    let n = words.len();
    if k == 0 {
        assert(!(exists|i: int| 0 <= i < words.len() && words[i] == Seq::<char>::empty())) by {
            assert forall|i: int| 0 <= i < words.len() implies words[i] != Seq::<char>::empty() by {
                assert(words[i].len() > 0);
            }
        }
        assert(listed_word_after(words, Seq::<char>::empty(), 0) == Seq::<char>::empty());
        assert(0nat % n == 0) by (nonlinear_arith)
            requires
                n > 0,
        ;
    } else {
        lemma_listed_words_visited_in_order(words, (k - 1) as nat);
        let i = ((k - 1) as nat % n) as int;
        assert(0 <= i < n) by (nonlinear_arith)
            requires
                n > 0,
                i == ((k - 1) as nat % n) as int,
        ;
        assert(k % n == (if i + 1 < n { i + 1 } else { 0 })) by (nonlinear_arith)
            requires
                n > 0,
                k >= 1,
                i == ((k - 1) as nat % n) as int,
                0 <= i < n,
        ;
        assert(forall|j: int| 0 <= j < i ==> words[j] != words[i]);
        assert(listed_word_after(words, Seq::<char>::empty(), k + 1) == next_listed_word(words, words[i]));
        if i + 1 < n {
            lemma_next_listed_word_advances(words, i);
        } else {
            lemma_next_listed_word_starts_over(words, i);
        }
    }
}

/// The query for the next note in sequential mode: the note after
/// `current_id`, which moves on by one.
pub fn sequential_fields_query(option: &mut Argument) -> (query: String)
    requires
        old(option).current_id < i64::MAX,
    ensures
        final(option).current_id == old(option).current_id + 1,
        query@ == fields_by_id_query(final(option).current_id as int),
        same_settings(*old(option), *final(option)),
        final(option).current_word@ == old(option).current_word@,
        final(option).typed_words@ == old(option).typed_words@,
{
    let mut query = String::from_str("select flds from notes where id=");
    let id = decimal_i64(option.current_id + 1);
    query.append(id.as_str());
    option.current_id = option.current_id + 1;
    query
}

/// Reads one answer of the starting-id query: a note id that is a
/// non-negative integer puts sequential mode just before that note.
/// Returns `false`, changing nothing, when the answer is no such id.
pub fn record_starting_id(option: &mut Argument, value: &str) -> (found: bool)
    ensures
        found == (integer_text_in(value@, 0, i64::MAX as int) is Some),
        found ==> final(option).current_id == integer_text_in(value@, 0, i64::MAX as int)->0 - 1,
        !found ==> final(option).current_id == old(option).current_id,
        same_settings(*old(option), *final(option)),
        final(option).current_word@ == old(option).current_word@,
        final(option).typed_words@ == old(option).typed_words@,
{
    match parse_i64(value) {
        Some(id) => {
            if id < 0 {
                false
            } else {
                option.current_id = id - 1;
                true
            }
        },
        None => false,
    }
}

/// Reads the answer of the count query (a missing value counts as "0"):
/// the number of notes, or `None` when the answer is not an `i32`.
pub fn note_count(value: Option<&str>) -> (count: Option<i32>)
    ensures
        count matches Some(n) ==> integer_text_in(
            match value { Some(v) => v@, None => "0"@ },
            i32::MIN as int,
            i32::MAX as int,
        ) == Some(n as int),
        count is None ==> integer_text_in(
            match value { Some(v) => v@, None => "0"@ },
            i32::MIN as int,
            i32::MAX as int,
        ) is None,
{
    match value {
        Some(v) => parse_i32(v),
        None => parse_i32("0"),
    }
}

/// The query that fetches the note at `offset`.
pub fn fields_at_offset(offset: i32) -> (query: String)
    ensures
        query@ == fields_at_offset_query(offset as int),
{
    let mut query = String::from_str("select flds from notes limit ");
    let number = decimal_i64(offset as i64);
    query.append(number.as_str());
    query.append(",1");
    query
}

/// The query that fetches a note at a random offset, below the number of
/// notes less eleven.
pub fn random_fields_query(total: i32) -> (query: String)
    requires
        total > 11,
    ensures
        exists|offset: int| 0 <= offset < total - 11 && query@ == fields_at_offset_query(offset),
{
    let rnd = random_in(0, total - 11);
    fields_at_offset(rnd)
}

/// Decides the first query for the next passage: in the mode of a list of
/// words, the note of the next word of the list (moving the current word
/// on); in sequential mode, the note after the current one, or, before
/// the first note, the id of the starting word; otherwise the number of
/// notes, to pick one at random.
pub fn plan_passage_query(option: &mut Argument) -> (query: PassageQuery)
    requires
        old(option).words@.len() == 0 && old(option).sequential && old(option).current_id != 0
            ==> old(option).current_id < i64::MAX,
    ensures
        same_settings(*old(option), *final(option)),
        final(option).typed_words@ == old(option).typed_words@,
        old(option).words@.len() > 0 ==> {
            &&& final(option).current_word@ == next_listed_word(
                listed_words(old(option).words@),
                old(option).current_word@,
            )
            &&& final(option).current_id == old(option).current_id
            &&& query matches PassageQuery::Fields(q) && q@ == fields_by_word_query(final(option).current_word@)
        },
        old(option).words@.len() == 0 && old(option).sequential && old(option).current_id == 0 ==> {
            &&& *final(option) == *old(option)
            &&& query matches PassageQuery::StartingId(q) && q@ == id_by_word_query(old(option).starting_word@)
        },
        old(option).words@.len() == 0 && old(option).sequential && old(option).current_id != 0 ==> {
            &&& final(option).current_word@ == old(option).current_word@
            &&& final(option).current_id == old(option).current_id + 1
            &&& query matches PassageQuery::Fields(q) && q@ == fields_by_id_query(final(option).current_id as int)
        },
        old(option).words@.len() == 0 && !old(option).sequential ==> {
            &&& *final(option) == *old(option)
            &&& query matches PassageQuery::NoteCount(q) && q@ == count_query()
        },
{
    if option.words.unicode_len() > 0 {
        PassageQuery::Fields(next_word_query(option))
    } else if option.sequential {
        if option.current_id == 0 {
            let mut query = String::from_str("select id from notes where sfld='");
            query.append(option.starting_word.as_str());
            query.append("'");
            PassageQuery::StartingId(query)
        } else {
            PassageQuery::Fields(sequential_fields_query(option))
        }
    } else {
        PassageQuery::NoteCount(String::from_str("select count(*) as cnt from notes"))
    }
}

} // verus!
