//! The decisions of a round of the game.
//!
//! The caller draws the screen from a `Game`, reads one key at a time
//! from the terminal and hands it to `Game::on_key` with the current time,
//! moves the cursor as the returned `KeyOutcome` says, and then lets
//! `Game::after_key` bring the highlighting up to date. The round is over
//! when every word of the passage has been typed.

use vstd::prelude::*;
use crate::option::Argument;
use crate::highlight::{
    Span, SpanStyle, check_word, get_formatted_texts, plain_spans, plain_spans_of, word_start,
    word_spans, input_spans, spliced, lemma_word_start_locates_word, lemma_word_start_monotone,
};
use crate::numbers::{decimal, decimal_u64};
use crate::scoring::{get_wpm, words_per_minute};
use crate::text::{split_on, split_pieces, lemma_split_pieces_shape};
use crate::passage::same_settings;

verus! {

broadcast use vstd::string::group_string_axioms;

/// A key read from the terminal.
#[derive(Clone, Copy, PartialEq, Eq, Structural, Debug)]
pub enum TermKey {
    /// a character typed with the control key held
    Ctrl(char),
    /// a character typed
    Char(char),
    /// the backspace key
    Backspace,
    /// any other key
    Other,
}

/// What the caller does after a key.
#[derive(Clone, Copy, PartialEq, Eq, Structural, Debug)]
pub enum KeyOutcome {
    /// leave the game (^C)
    Quit,
    /// end this round and play another (^N)
    PlayAgain,
    /// move the cursor one place to the left
    CursorLeft,
    /// move the cursor one place to the right
    CursorRight,
    /// leave the cursor where it is
    Stay,
}

/// The line shown under the message at the end of a round.
pub open spec fn hint_text() -> Seq<char> {
    "^N to play again, ^C to quit"@
}

/// What the player sees at the end of a round: a message that the typing
/// was too slow when the speed is below the threshold, else "COMPLETE",
/// and the hint.
pub open spec fn completion_spans(wpm: nat, threshold: nat) -> Seq<(Seq<char>, SpanStyle)> {
    if wpm < threshold {
        seq![
            ("You are too slow! "@ + decimal(wpm) + " < "@ + decimal(threshold) + "\n"@, SpanStyle::Banner),
            (hint_text(), SpanStyle::Plain),
        ]
    } else {
        seq![("COMPLETE\n"@, SpanStyle::Banner), (hint_text(), SpanStyle::Plain)]
    }
}

/// The message at the end of a round says the typing was too slow, with
/// the speed and the threshold, exactly when the speed is below the
/// threshold, and says the round is complete otherwise; the hint follows.
pub proof fn lemma_completion_message(wpm: nat, threshold: nat)
    ensures
        completion_spans(wpm, threshold).len() == 2,
        wpm < threshold ==> completion_spans(wpm, threshold)[0] == (
            "You are too slow! "@ + decimal(wpm) + " < "@ + decimal(threshold) + "\n"@,
            SpanStyle::Banner,
        ),
        wpm >= threshold ==> completion_spans(wpm, threshold)[0] == ("COMPLETE\n"@, SpanStyle::Banner),
        completion_spans(wpm, threshold)[1] == ("^N to play again, ^C to quit"@, SpanStyle::Plain),
{
}

/// How a finished word is kept in the history of typed words.
pub open spec fn typed_record(word: Seq<char>) -> Seq<char> {
    "  "@ + word + "\n"@
}

/// Ends a round: puts the current word at the top of the history of typed
/// words and returns the message for the player.
pub fn get_complete_string(wpm: u64, option: &mut Argument) -> (message: Vec<Span>)
    ensures
        message.deep_view() == completion_spans(wpm as nat, old(option).speed_threshold as nat),
        message@.len() == 2,
        wpm < old(option).speed_threshold ==> message.deep_view()[0] == (
            "You are too slow! "@ + decimal(wpm as nat) + " < "@ + decimal(old(option).speed_threshold as nat)
                + "\n"@,
            SpanStyle::Banner,
        ),
        wpm >= old(option).speed_threshold ==> message.deep_view()[0] == ("COMPLETE\n"@, SpanStyle::Banner),
        message.deep_view()[1] == ("^N to play again, ^C to quit"@, SpanStyle::Plain),
        final(option).typed_words.deep_view() == seq![typed_record(old(option).current_word@)] + old(
            option,
        ).typed_words.deep_view(),
        final(option).typed_words@.len() == old(option).typed_words@.len() + 1,
        final(option).typed_words@[0]@ == "  "@ + old(option).current_word@ + "\n"@,
        forall|j: int|
            0 < j < final(option).typed_words@.len() ==> #[trigger] final(option).typed_words@[j]@ == old(
                option,
            ).typed_words@[j - 1]@,
        same_settings(*old(option), *final(option)),
        final(option).current_word@ == old(option).current_word@,
        final(option).current_id == old(option).current_id,
{
    let mut record = String::from_str("  ");
    record.append(option.current_word.as_str());
    record.append("\n");
    let ghost before = option.typed_words.deep_view();
    let ghost record_view = record@;
    option.typed_words.insert(0, record);
    assert(option.typed_words.deep_view() =~= seq![record_view] + before);

    let hint = Span { text: String::from_str("^N to play again, ^C to quit"), style: SpanStyle::Plain };
    let mut message: Vec<Span> = Vec::new();
    if wpm < option.speed_threshold as u64 {
        let mut text = String::from_str("You are too slow! ");
        text.append(decimal_u64(wpm).as_str());
        text.append(" < ");
        text.append(decimal_u64(option.speed_threshold as u64).as_str());
        text.append("\n");
        message.push(Span { text, style: SpanStyle::Banner });
    } else {
        message.push(Span { text: String::from_str("COMPLETE\n"), style: SpanStyle::Banner });
    }
    message.push(hint);
    assert(message.deep_view() =~= completion_spans(wpm as nat, option.speed_threshold as nat));
    proof {
        lemma_completion_message(wpm as nat, option.speed_threshold as nat);
    }
    message
}

/// Where the passage of a round comes from when the player gave one: the
/// passage, its title and the text shown beside it. `None` when the
/// passage is to be taken from the deck.
pub fn given_passage(option: &Argument) -> (passage: Option<(String, String, String)>)
    ensures
        passage is None <==> option.input@.len() == 0,
        passage matches Some(p) ==> p.0@ == option.input@ && p.1@ == "Terminal Typeracer"@ && p.2@
            == "Failed to get content from Anki Deck."@,
{
    if option.input.unicode_len() == 0 {
        None
    } else {
        Some(
            (
                option.input.clone(),
                String::from_str("Terminal Typeracer"),
                String::from_str("Failed to get content from Anki Deck."),
            ),
        )
    }
}

/// Removes the last character (`String::pop`).
#[verifier::external_body]
fn pop_char(s: &mut String) -> (c: Option<char>)
    ensures
        old(s)@.len() == 0 ==> c is None && final(s)@ == old(s)@,
        old(s)@.len() > 0 ==> c == Some(old(s)@.last()) && final(s)@ == old(s)@.drop_last(),
{
    s.pop()
}

/// What a key does to the word count, the input, the start time and the
/// speed, and what the caller is to do: ^C quits, ^N plays again,
/// backspace removes the last typed character, a space after the correct
/// word moves on to the next word, a line break or tab does nothing but
/// start the clock, and any other character is typed. The first typed
/// character starts the clock one second before `now`, and every typed
/// character but a line break or tab updates the speed.
pub open spec fn typing_step(
    idx: nat,
    input: Seq<char>,
    start: nat,
    wpm: nat,
    word: Seq<char>,
    key: TermKey,
    now: nat,
) -> (nat, Seq<char>, nat, nat, KeyOutcome) {
    match key {
        TermKey::Ctrl(c) => {
            if c == 'c' {
                (idx, input, start, wpm, KeyOutcome::Quit)
            } else if c == 'n' {
                (idx, input, start, wpm, KeyOutcome::PlayAgain)
            } else {
                (idx, input, start, wpm, KeyOutcome::Stay)
            }
        },
        TermKey::Backspace => {
            let rest = if input.len() > 0 { input.drop_last() } else { input };
            (idx, rest, start, wpm, if rest.len() > 0 { KeyOutcome::CursorLeft } else { KeyOutcome::Stay })
        },
        TermKey::Char(c) => {
            let started = if start == 0 { (now - 1) as nat } else { start };
            if c == ' ' && word == input {
                (
                    idx + 1,
                    Seq::<char>::empty(),
                    started,
                    words_per_minute(idx + 1, now, started),
                    KeyOutcome::Stay,
                )
            } else if c == '\n' || c == '\t' {
                (idx, input, started, wpm, KeyOutcome::Stay)
            } else {
                (idx, input.push(c), started, words_per_minute(idx, now, started), KeyOutcome::CursorRight)
            }
        },
        TermKey::Other => (idx, input, start, wpm, KeyOutcome::Stay),
    }
}

/// The rules of a key, stated on the word and the input alone: a space
/// moves on to the next word exactly when the input is the word, character
/// for character, and clears the input; otherwise a space is typed like any
/// character but a line break or tab, which is appended to the input and
/// leaves the word where it is. Backspace removes the last typed character
/// and nothing else; ^C and ^N end the round without changing anything.
pub proof fn lemma_typing_rules(
    idx: nat,
    input: Seq<char>,
    start: nat,
    wpm: nat,
    word: Seq<char>,
    key: TermKey,
    now: nat,
)
    ensures
        key == TermKey::Char(' ') && word == input ==> {
            let r = typing_step(idx, input, start, wpm, word, key, now);
            r.0 == idx + 1 && r.1 == Seq::<char>::empty() && r.4 == KeyOutcome::Stay
        },
        key == TermKey::Char(' ') && word != input ==> {
            let r = typing_step(idx, input, start, wpm, word, key, now);
            r.0 == idx && r.1 == input.push(' ') && r.4 == KeyOutcome::CursorRight
        },
        forall|c: char|
            c != ' ' && c != '\n' && c != '\t' && key == TermKey::Char(c) ==> {
                let r = typing_step(idx, input, start, wpm, word, key, now);
                r.0 == idx && r.1 == input.push(c) && r.4 == KeyOutcome::CursorRight
            },
        key == TermKey::Backspace ==> {
            let r = typing_step(idx, input, start, wpm, word, key, now);
            r.0 == idx && r.1 == (if input.len() > 0 { input.drop_last() } else { input }) && r.2 == start && r.3
                == wpm
        },
        key == TermKey::Ctrl('c') ==> typing_step(idx, input, start, wpm, word, key, now) == (
            idx,
            input,
            start,
            wpm,
            KeyOutcome::Quit,
        ),
        key == TermKey::Ctrl('n') ==> typing_step(idx, input, start, wpm, word, key, now) == (
            idx,
            input,
            start,
            wpm,
            KeyOutcome::PlayAgain,
        ),
{
}

/// A round of the game.
pub struct Game<'a> {
    /// the passage to type
    pub passage: &'a str,
    /// the words of the passage, split at spaces
    pub words: Vec<&'a str>,
    /// how many words have been typed
    pub current_word_idx: usize,
    /// what has been typed of the current word
    pub user_input: String,
    /// when typing started (seconds; 0 before the first key)
    pub start_time: u64,
    /// the typing speed so far
    pub wpm: u64,
    /// the passage, one span per character
    pub formatted_passage: Vec<Span>,
    /// the typed input, or the message at the end of the round
    pub formatted_user_input: Vec<Span>,
}

impl<'a> Game<'a> {
    /// The words are those of the passage, no more words are typed than
    /// there are, and the formatted passage shows the passage's
    /// characters, one per span.
    pub open spec fn well_formed(&self) -> bool {
        &&& self.words.deep_view() == split_pieces(self.passage@, ' ')
        &&& self.passage@.len() + 2 <= usize::MAX
        &&& self.current_word_idx <= self.words@.len()
        &&& self.formatted_passage@.len() == self.passage@.len()
        &&& forall|i: int|
            0 <= i < self.passage@.len() ==> (#[trigger] self.formatted_passage.deep_view()[i]).0 == seq![
                self.passage@[i],
            ]
    }

    /// Whether every word has been typed.
    pub open spec fn is_over(&self) -> bool {
        self.current_word_idx == self.words.len()
    }

    /// A new round on `passage`: nothing typed yet and the passage plain.
    pub fn new(passage: &'a str) -> (game: Game<'a>)
        requires
            passage@.len() + 2 <= usize::MAX,
        ensures
            game.well_formed(),
            game.passage == passage,
            game.current_word_idx == 0,
            game.user_input@ == Seq::<char>::empty(),
            game.start_time == 0,
            game.wpm == 0,
            game.formatted_passage.deep_view() == plain_spans(passage@),
            game.formatted_user_input@ == Seq::<Span>::empty(),
    {
        let words = split_on(passage, ' ');
        proof {
            lemma_split_pieces_shape(passage@, ' ');
        }
        let formatted_passage = plain_spans_of(passage);
        assert(formatted_passage.deep_view().len() == formatted_passage@.len());
        assert forall|i: int| 0 <= i < passage@.len() implies (
        #[trigger] formatted_passage.deep_view()[i]).0 == seq![passage@[i]] by {
            assert(plain_spans(passage@)[i] == (seq![passage@[i]], SpanStyle::Plain));
        }
        Game {
            passage,
            words,
            current_word_idx: 0,
            user_input: String::new(),
            start_time: 0,
            wpm: 0,
            formatted_passage,
            formatted_user_input: Vec::new(),
        }
    }

    /// Whether every word has been typed.
    pub fn finished(&self) -> (over: bool)
        ensures
            over == self.is_over(),
    {
        self.current_word_idx == self.words.len()
    }

    /// Reads one key typed at time `now` (seconds).
    pub fn on_key(&mut self, key: TermKey, now: u64) -> (outcome: KeyOutcome)
        requires
            old(self).well_formed(),
            !old(self).is_over(),
            key matches TermKey::Char(c) ==> {
                &&& old(self).start_time == 0 ==> now >= 1
                &&& old(self).start_time != 0 && c != '\n' && c != '\t' ==> now >= old(self).start_time
            },
        ensures
            final(self).well_formed(),
            (
                final(self).current_word_idx as nat,
                final(self).user_input@,
                final(self).start_time as nat,
                final(self).wpm as nat,
                outcome,
            ) == typing_step(
                old(self).current_word_idx as nat,
                old(self).user_input@,
                old(self).start_time as nat,
                old(self).wpm as nat,
                old(self).words[old(self).current_word_idx as int]@,
                key,
                now as nat,
            ),
            key == TermKey::Char(' ') && old(self).words[old(self).current_word_idx as int]@ == old(
                self,
            ).user_input@ ==> final(self).current_word_idx == old(self).current_word_idx + 1
                && final(self).user_input@ == Seq::<char>::empty() && outcome == KeyOutcome::Stay,
            key == TermKey::Char(' ') && old(self).words[old(self).current_word_idx as int]@ != old(
                self,
            ).user_input@ ==> final(self).current_word_idx == old(self).current_word_idx
                && final(self).user_input@ == old(self).user_input@.push(' ') && outcome == KeyOutcome::CursorRight,
            final(self).passage == old(self).passage,
            final(self).words@ == old(self).words@,
            final(self).formatted_passage@ == old(self).formatted_passage@,
            final(self).formatted_user_input@ == old(self).formatted_user_input@,
    {
        proof {
            lemma_split_pieces_shape(self.passage@, ' ');
            lemma_typing_rules(
                self.current_word_idx as nat,
                self.user_input@,
                self.start_time as nat,
                self.wpm as nat,
                self.words[self.current_word_idx as int]@,
                key,
                now as nat,
            );
        }
        match key {
            TermKey::Ctrl(c) => {
                if c == 'c' {
                    KeyOutcome::Quit
                } else if c == 'n' {
                    KeyOutcome::PlayAgain
                } else {
                    KeyOutcome::Stay
                }
            },
            TermKey::Backspace => {
                pop_char(&mut self.user_input);
                if self.user_input.unicode_len() > 0 {
                    KeyOutcome::CursorLeft
                } else {
                    KeyOutcome::Stay
                }
            },
            TermKey::Char(c) => {
                if self.start_time == 0 {
                    self.start_time = now - 1;
                }
                let outcome;
                if c == ' ' && check_word(self.words[self.current_word_idx], &self.user_input) {
                    self.current_word_idx = self.current_word_idx + 1;
                    self.user_input = String::new();
                    outcome = KeyOutcome::Stay;
                } else if c == '\n' || c == '\t' {
                    // Ignore a few types that can put the user in a weird spot
                    return KeyOutcome::Stay;
                } else {
                    crate::text::push_char(&mut self.user_input, c);
                    outcome = KeyOutcome::CursorRight;
                }
                self.wpm = get_wpm(self.current_word_idx, now, self.start_time);
                outcome
            },
            TermKey::Other => KeyOutcome::Stay,
        }
    }

    /// Brings the round up to date after a key read at time `now`: at the
    /// end of the passage (after the space behind the last word, or as
    /// soon as the last word is typed correctly) the round ends with the
    /// message for the player; otherwise the current word and the input
    /// are highlighted.
    pub fn after_key(&mut self, option: &mut Argument, now: u64)
        requires
            old(self).well_formed(),
            old(self).current_word_idx + 1 == old(self).words@.len() && old(self).words@[old(
                self,
            ).current_word_idx as int]@ == old(self).user_input@ ==> now >= old(self).start_time,
        ensures
            final(self).well_formed(),
            final(self).passage == old(self).passage,
            final(self).words@ == old(self).words@,
            final(self).start_time == old(self).start_time,
            same_settings(*old(option), *final(option)),
            final(option).current_word@ == old(option).current_word@,
            final(option).current_id == old(option).current_id,
            ({
                let idx = old(self).current_word_idx as int;
                let n = old(self).words.len() as int;
                let word = old(self).words[idx]@;
                if idx == n || (idx + 1 == n && word == old(self).user_input@) {
                    &&& final(self).current_word_idx == n
                    &&& final(self).wpm == (if idx == n {
                        old(self).wpm as nat
                    } else {
                        words_per_minute(n as nat, now as nat, old(self).start_time as nat)
                    })
                    &&& final(self).user_input@ == Seq::<char>::empty()
                    &&& final(self).formatted_user_input.deep_view() == completion_spans(
                        final(self).wpm as nat,
                        old(option).speed_threshold as nat,
                    )
                    &&& final(self).formatted_passage@ == old(self).formatted_passage@
                    &&& final(option).typed_words.deep_view() == seq![typed_record(old(option).current_word@)]
                        + old(option).typed_words.deep_view()
                } else {
                    &&& final(self).current_word_idx == idx
                    &&& final(self).wpm == old(self).wpm
                    &&& final(self).user_input@ == old(self).user_input@
                    &&& final(self).formatted_passage.deep_view() == spliced(
                        old(self).formatted_passage.deep_view(),
                        word_start(old(self).words.deep_view(), idx),
                        word_spans(word, old(self).user_input@),
                    )
                    &&& final(self).formatted_user_input.deep_view() == input_spans(word, old(self).user_input@)
                    &&& final(option).typed_words@ == old(option).typed_words@
                }
            }),
    {
        proof {
            lemma_split_pieces_shape(self.passage@, ' ');
        }
        let n = self.words.len();
        if self.current_word_idx == n {
            self.user_input = String::new();
            self.formatted_user_input = get_complete_string(self.wpm, option);
        } else if self.current_word_idx + 1 == n && check_word(
            self.words[self.current_word_idx],
            &self.user_input,
        ) {
            // Special case for the last word so the user doesn't need to hit space
            self.current_word_idx = self.current_word_idx + 1;
            self.wpm = get_wpm(self.current_word_idx, now, self.start_time);
            self.user_input = String::new();
            self.formatted_user_input = get_complete_string(self.wpm, option);
        } else {
            let idx = self.current_word_idx;
            let ghost dv = self.words.deep_view();
            let ghost passage = self.passage@;
            proof {
                lemma_word_start_locates_word(passage, ' ', idx as int);
                assert(dv[idx as int] == self.words[idx as int]@);
            }
            let ghost word = dv[idx as int];
            let ghost start = word_start(dv, idx as int);
            let ghost before = self.formatted_passage.deep_view();
            let mut formatted: Vec<Span> = Vec::new();
            std::mem::swap(&mut formatted, &mut self.formatted_passage);
            let (formatted_passage, formatted_user_input) = get_formatted_texts(
                &self.words,
                &self.user_input,
                &idx,
                formatted,
            );
            self.formatted_passage = formatted_passage;
            self.formatted_user_input = formatted_user_input;
            proof {
                let after = self.formatted_passage.deep_view();
                assert(after.len() == self.formatted_passage@.len());
                assert(before.len() == old(self).formatted_passage@.len());
                let piece = word_spans(word, self.user_input@);
                assert forall|i: int| 0 <= i < passage.len() implies (#[trigger] after[i]).0 == seq![
                    passage[i],
                ] by {
                    if start <= i < start + piece.len() {
                        lemma_word_start_monotone(dv, 0, idx as int);
                        assert(piece.len() == word.len());
                        assert(after[i] == piece[i - start]);
                        assert(piece[i - start].0 == seq![word[i - start]]);
                        assert(passage.subrange(start, start + word.len())[i - start] == passage[i]);
                    } else {
                        assert(before[i].0 == seq![passage[i]]);
                    }
                }
            }
        }
    }
}

/// After a round, ^C leaves the game and ^N starts another round; other
/// keys are ignored.
pub fn key_after_round(key: TermKey) -> (again: Option<bool>)
    ensures
        again == (if key == TermKey::Ctrl('c') {
            Some(false)
        } else if key == TermKey::Ctrl('n') {
            Some(true)
        } else {
            None::<bool>
        }),
{
    match key {
        TermKey::Ctrl(c) => {
            if c == 'c' {
                Some(false)
            } else if c == 'n' {
                Some(true)
            } else {
                None
            }
        },
        _ => None,
    }
}

} // verus!
