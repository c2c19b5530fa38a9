use typing_english::game::{get_complete_string, given_passage, key_after_round, Game, KeyOutcome, TermKey};
use typing_english::highlight::{check_word, get_formatted_texts, get_formatted_words, get_starting_idx, plain_spans_of, Span, SpanStyle};
use typing_english::numbers::{decimal_i64, decimal_u64, parse_i32, parse_i64};
use typing_english::option::Argument;
use typing_english::passage::{
    get_passage_from_notes, list_words, passage_from_captures, next_word_query, note_count, plan_passage_query, random_fields_query,
    record_starting_id, sequential_fields_query, PassageQuery,
};
use typing_english::scoring::get_wpm;
use typing_english::term_check::{check_key, size_warning_text, terminal_too_small, CheckAnswer};
use typing_english::text::{split_on, trim};

fn argument() -> Argument {
    Argument {
        repeat: 2,
        speed_threshold: 20,
        anki_deck: "deck.anki2".to_owned(),
        input: "".to_owned(),
        word_only: false,
        typed_words: vec![],
        current_word: "".to_owned(),
        words: "".to_owned(),
        sequential: false,
        starting_word: "a".to_owned(),
        current_id: 0,
    }
}

fn styles(spans: &[Span]) -> Vec<SpanStyle> {
    spans.iter().map(|s| s.style).collect()
}

fn texts(spans: &[Span]) -> String {
    spans.iter().map(|s| s.text.as_str()).collect()
}

#[test]
fn wpm_counts_the_word_being_typed() {
    assert_eq!(get_wpm(9, 160, 100), 10);
    assert_eq!(get_wpm(0, 30, 0), 2);
    assert_eq!(get_wpm(2, 100, 10), 2);
}

#[test]
fn wpm_without_elapsed_time_saturates() {
    assert_eq!(get_wpm(3, 50, 50), u64::MAX);
}

#[test]
fn check_word_is_equality() {
    assert!(check_word("apple", &"apple".to_owned()));
    assert!(!check_word("apple", &"appl".to_owned()));
    assert!(!check_word("apple", &"apples".to_owned()));
    assert!(check_word("", &"".to_owned()));
    assert!(check_word("苹果", &"苹果".to_owned()));
}

#[test]
fn formatted_words_for_a_correct_prefix() {
    let (word, input) = get_formatted_words("apple", "app");
    assert_eq!(texts(&word), "apple");
    assert_eq!(texts(&input), "app");
    assert_eq!(styles(&word), vec![SpanStyle::Correct, SpanStyle::Correct, SpanStyle::Correct, SpanStyle::Plain, SpanStyle::Plain]);
    assert_eq!(styles(&input), vec![SpanStyle::Correct, SpanStyle::Correct, SpanStyle::Correct]);
}

#[test]
fn formatted_words_mark_the_first_mistake() {
    let (word, input) = get_formatted_words("acd", "ab");
    assert_eq!(styles(&word), vec![SpanStyle::Correct, SpanStyle::Mistake, SpanStyle::Plain]);
    assert_eq!(styles(&input), vec![SpanStyle::Correct, SpanStyle::Mistake]);
    let (word, input) = get_formatted_words("ab", "abcd");
    assert_eq!(styles(&word), vec![SpanStyle::Correct, SpanStyle::Correct]);
    assert_eq!(styles(&input), vec![SpanStyle::Correct, SpanStyle::Correct, SpanStyle::Mistake, SpanStyle::Mistake]);
    let (word, input) = get_formatted_words("abc", "xbc");
    assert_eq!(styles(&word), vec![SpanStyle::Mistake, SpanStyle::Plain, SpanStyle::Plain]);
    assert_eq!(styles(&input), vec![SpanStyle::Mistake, SpanStyle::Mistake, SpanStyle::Mistake]);
}

#[test]
fn starting_index_of_words() {
    let words = vec!["the", "quick", "fox"];
    assert_eq!(get_starting_idx(&words, &0), 0);
    assert_eq!(get_starting_idx(&words, &1), 4);
    assert_eq!(get_starting_idx(&words, &2), 10);
    assert_eq!(get_starting_idx(&words, &3), 14);
}

#[test]
fn starting_index_locates_the_word_in_the_passage() {
    let passage = "the quick  fox";
    let words = split_on(passage, ' ');
    let chars: Vec<char> = passage.chars().collect();
    for i in 0..words.len() {
        let start = get_starting_idx(&words, &i);
        let n = words[i].chars().count();
        let found: String = chars[start..start + n].iter().collect();
        assert_eq!(found, words[i]);
    }
}

#[test]
fn formatted_texts_replace_only_the_current_word() {
    let passage = "ab cd";
    let words = split_on(passage, ' ');
    let text = plain_spans_of(passage);
    let (text, input) = get_formatted_texts(&words, &"cx".to_owned(), &1, text);
    assert_eq!(texts(&text), "ab cd");
    assert_eq!(styles(&text), vec![SpanStyle::Plain, SpanStyle::Plain, SpanStyle::Plain, SpanStyle::Correct, SpanStyle::Mistake]);
    assert_eq!(styles(&input), vec![SpanStyle::Correct, SpanStyle::Mistake]);
}

#[test]
fn split_and_trim() {
    let pieces = split_on("a, b,,c", ',');
    assert_eq!(pieces, vec!["a", " b", "", "c"]);
    assert_eq!(split_on("", ','), vec![""]);
    assert_eq!(trim("  \t hello world \n"), "hello world");
    assert_eq!(trim("\u{3000}x\u{a0}"), "x");
    assert_eq!(trim("   "), "");
    assert_eq!(list_words(" apple , banana,cherry "), vec!["apple", "banana", "cherry"]);
}

#[test]
fn decimals_and_parsing() {
    assert_eq!(decimal_u64(0), "0");
    assert_eq!(decimal_u64(1234567890), "1234567890");
    assert_eq!(decimal_u64(u64::MAX), u64::MAX.to_string());
    assert_eq!(decimal_i64(-42), "-42");
    assert_eq!(decimal_i64(i64::MIN), i64::MIN.to_string());
    assert_eq!(parse_i64("123"), Some(123));
    assert_eq!(parse_i64("+7"), Some(7));
    assert_eq!(parse_i64("-9223372036854775808"), Some(i64::MIN));
    assert_eq!(parse_i64("9223372036854775808"), None);
    assert_eq!(parse_i64(""), None);
    assert_eq!(parse_i64("-"), None);
    assert_eq!(parse_i64(" 1"), None);
    assert_eq!(parse_i64("12a"), None);
    assert_eq!(parse_i32("2147483647"), Some(i32::MAX));
    assert_eq!(parse_i32("2147483648"), None);
    for s in ["0", "-0", "+15", "99999999999999999999", "x"] {
        assert_eq!(parse_i64(s), s.parse::<i64>().ok());
    }
}

#[test]
fn word_list_is_walked_in_order_and_starts_over() {
    let mut option = argument();
    option.words = "apple, banana ,cherry".to_owned();
    let q = next_word_query(&mut option);
    assert_eq!(option.current_word, "apple");
    assert_eq!(q, "select flds from notes where sfld='apple'");
    next_word_query(&mut option);
    assert_eq!(option.current_word, "banana");
    next_word_query(&mut option);
    assert_eq!(option.current_word, "cherry");
    next_word_query(&mut option);
    assert_eq!(option.current_word, "apple");
}

#[test]
fn word_list_with_an_unknown_current_word() {
    let mut option = argument();
    option.words = "x,y".to_owned();
    option.current_word = "zzz".to_owned();
    next_word_query(&mut option);
    assert_eq!(option.current_word, "y");
    option.words = "a,b".to_owned();
    option.current_word = "b".to_owned();
    next_word_query(&mut option);
    assert_eq!(option.current_word, "a");
}

#[test]
fn plan_in_each_mode() {
    let mut option = argument();
    option.words = "cat".to_owned();
    match plan_passage_query(&mut option) {
        PassageQuery::Fields(q) => assert_eq!(q, "select flds from notes where sfld='cat'"),
        _ => panic!("expected a fields query"),
    }
    let mut option = argument();
    option.sequential = true;
    option.starting_word = "dog".to_owned();
    match plan_passage_query(&mut option) {
        PassageQuery::StartingId(q) => assert_eq!(q, "select id from notes where sfld='dog'"),
        _ => panic!("expected an id query"),
    }
    option.current_id = 41;
    match plan_passage_query(&mut option) {
        PassageQuery::Fields(q) => assert_eq!(q, "select flds from notes where id=42"),
        _ => panic!("expected a fields query"),
    }
    assert_eq!(option.current_id, 42);
    let mut option = argument();
    match plan_passage_query(&mut option) {
        PassageQuery::NoteCount(q) => assert_eq!(q, "select count(*) as cnt from notes"),
        _ => panic!("expected a count query"),
    }
}

#[test]
fn sequential_mode_moves_forward() {
    let mut option = argument();
    assert!(record_starting_id(&mut option, "17"));
    assert_eq!(option.current_id, 16);
    assert_eq!(sequential_fields_query(&mut option), "select flds from notes where id=17");
    assert_eq!(sequential_fields_query(&mut option), "select flds from notes where id=18");
    assert_eq!(option.current_id, 18);
    assert!(!record_starting_id(&mut option, "-3"));
    assert!(!record_starting_id(&mut option, "abc"));
    assert_eq!(option.current_id, 18);
}

#[test]
fn count_and_random_offset() {
    assert_eq!(note_count(Some("120")), Some(120));
    assert_eq!(note_count(None), Some(0));
    assert_eq!(note_count(Some("many")), None);
    for _ in 0..50 {
        let q = random_fields_query(15);
        let rest = q.strip_prefix("select flds from notes limit ").unwrap();
        let offset: i32 = rest.strip_suffix(",1").unwrap().parse().unwrap();
        assert!((0..4).contains(&offset));
    }
}

const NOTE: &str = "apple<div style='color:BlueViolet'>n. fruit;</div><div style='color:DeepSkyBlue'>I eat an apple.</div>";

#[test]
fn passage_from_a_note() {
    let mut option = argument();
    let notes = vec![(NOTE.to_owned(), vec!["apple".to_owned(), "n. fruit;".to_owned(), "I eat an apple.".to_owned()])];
    let (passage, title, content) = get_passage_from_notes(&mut option, &notes);
    assert_eq!(passage, "apple apple . I eat an apple.");
    assert_eq!(title, "n. fruit");
    assert_eq!(content, "apple\nn. fruit;\nI eat an apple.");
    assert_eq!(option.current_word, "apple");
}

#[test]
fn passage_of_the_word_only() {
    let mut option = argument();
    option.word_only = true;
    option.repeat = 3;
    let notes = vec![(NOTE.to_owned(), vec![])];
    let (passage, title, content) = get_passage_from_notes(&mut option, &notes);
    assert_eq!(passage, "apple apple apple ");
    assert_eq!(title, "n. fruit");
    assert_eq!(content, "");
}

#[test]
fn passage_without_a_card_keeps_the_word() {
    let mut option = argument();
    option.current_word = "pear".to_owned();
    let notes = vec![("no card here".to_owned(), vec!["no card here".to_owned()])];
    let (passage, title, content) = get_passage_from_notes(&mut option, &notes);
    assert_eq!((passage.as_str(), title.as_str(), content.as_str()), ("", "", ""));
    assert_eq!(option.current_word, "pear");
}

#[test]
fn completion_messages() {
    let mut option = argument();
    option.current_word = "apple".to_owned();
    let slow = get_complete_string(12, &mut option);
    assert_eq!(slow[0].text, "You are too slow! 12 < 20\n");
    assert_eq!(slow[0].style, SpanStyle::Banner);
    assert_eq!(slow[1].text, "^N to play again, ^C to quit");
    assert_eq!(option.typed_words, vec!["  apple\n".to_owned()]);
    option.current_word = "pear".to_owned();
    let fast = get_complete_string(20, &mut option);
    assert_eq!(fast[0].text, "COMPLETE\n");
    assert_eq!(option.typed_words, vec!["  pear\n".to_owned(), "  apple\n".to_owned()]);
}

#[test]
fn given_passage_is_used_when_present() {
    let mut option = argument();
    assert!(given_passage(&option).is_none());
    option.input = "hello there".to_owned();
    let (p, t, c) = given_passage(&option).unwrap();
    assert_eq!(p, "hello there");
    assert_eq!(t, "Terminal Typeracer");
    assert_eq!(c, "Failed to get content from Anki Deck.");
}

fn type_text(game: &mut Game, option: &mut Argument, text: &str, mut now: u64) -> u64 {
    for c in text.chars() {
        if game.finished() {
            break;
        }
        game.on_key(TermKey::Char(c), now);
        game.after_key(option, now);
        now += 1;
    }
    now
}

#[test]
fn typing_the_passage_finishes_the_round() {
    let mut option = argument();
    option.current_word = "hi".to_owned();
    let mut game = Game::new("hi you");
    assert_eq!(game.words, vec!["hi", "you"]);
    type_text(&mut game, &mut option, "hi you", 100);
    assert!(game.finished());
    assert_eq!(game.current_word_idx, 2);
    assert_eq!(texts(&game.formatted_passage), "hi you");
    assert_eq!(option.typed_words, vec!["  hi\n".to_owned()]);
    // started at 99, last word finished at 105: 2 words (+1) in 6 seconds
    assert_eq!(game.wpm, 30);
    assert_eq!(game.formatted_user_input[0].text, "COMPLETE\n");
}

#[test]
fn keys_during_a_round() {
    let mut option = argument();
    let mut game = Game::new("ab cd");
    assert_eq!(game.on_key(TermKey::Ctrl('c'), 10), KeyOutcome::Quit);
    assert_eq!(game.on_key(TermKey::Ctrl('n'), 10), KeyOutcome::PlayAgain);
    assert_eq!(game.on_key(TermKey::Char('a'), 10), KeyOutcome::CursorRight);
    assert_eq!(game.start_time, 9);
    assert_eq!(game.on_key(TermKey::Char('x'), 11), KeyOutcome::CursorRight);
    game.after_key(&mut option, 11);
    assert_eq!(styles(&game.formatted_passage)[0..2], [SpanStyle::Correct, SpanStyle::Mistake]);
    assert_eq!(game.on_key(TermKey::Backspace, 12), KeyOutcome::CursorLeft);
    assert_eq!(game.user_input, "a");
    assert_eq!(game.on_key(TermKey::Char(' '), 12), KeyOutcome::CursorRight);
    assert_eq!(game.user_input, "a ");
    assert_eq!(game.on_key(TermKey::Backspace, 13), KeyOutcome::CursorLeft);
    assert_eq!(game.on_key(TermKey::Char('b'), 13), KeyOutcome::CursorRight);
    assert_eq!(game.on_key(TermKey::Char('\n'), 14), KeyOutcome::Stay);
    assert_eq!(game.on_key(TermKey::Char(' '), 14), KeyOutcome::Stay);
    assert_eq!(game.current_word_idx, 1);
    assert_eq!(game.user_input, "");
    assert_eq!(game.on_key(TermKey::Backspace, 15), KeyOutcome::Stay);
    assert_eq!(game.on_key(TermKey::Other, 15), KeyOutcome::Stay);
    assert_eq!(key_after_round(TermKey::Ctrl('c')), Some(false));
    assert_eq!(key_after_round(TermKey::Ctrl('n')), Some(true));
    assert_eq!(key_after_round(TermKey::Char('n')), None);
}

#[test]
fn terminal_size_check() {
    assert!(terminal_too_small(79, 40));
    assert!(terminal_too_small(100, 29));
    assert!(!terminal_too_small(80, 30));
    assert_eq!(check_key(TermKey::Ctrl('c')), CheckAnswer::Exit);
    assert_eq!(check_key(TermKey::Ctrl('d')), CheckAnswer::Ignore);
    assert_eq!(check_key(TermKey::Char('\n')), CheckAnswer::CheckAgain);
    assert_eq!(check_key(TermKey::Char('x')), CheckAnswer::Wait);
    assert_eq!(
        size_warning_text(70, 20),
        "Terminal width and height too small!\nwidth: 70\nheight: 20\n\nIt is strongly recommended to play this with a height of at least: 30 and a width of at least: 80\nConsider making your terminal fullscreen!\n\nCheck again <ENTER>, Ignore check: ^D, Exit: ^C"
    );
}

#[test]
fn word_list_starts_over_even_when_it_lists_a() {
    let mut option = argument();
    option.words = "the,a".to_owned();
    option.current_word = "a".to_owned();
    let q = next_word_query(&mut option);
    assert_eq!(option.current_word, "the");
    assert_eq!(q, "select flds from notes where sfld='the'");
    next_word_query(&mut option);
    assert_eq!(option.current_word, "a");
    next_word_query(&mut option);
    assert_eq!(option.current_word, "the");
}

#[test]
fn passage_from_match_groups() {
    let mut option = argument();
    option.current_word = "old".to_owned();
    let mut passage = ("p".to_owned(), "t".to_owned(), "c".to_owned());
    let some = |s: &str| Some(s.to_owned());
    let captures = vec![
        vec![some("all"), some("cat"), some("n. a pet"), some("A cat sleeps")],
        vec![some("all"), None, some("missing word"), some("x")],
    ];
    passage_from_captures(&mut option, &captures, &"plain".to_owned(), &mut passage);
    assert_eq!(passage.0, "cat cat . A cat sleeps.");
    assert_eq!(passage.1, "n. a pet");
    assert_eq!(passage.2, "plain");
    assert_eq!(option.current_word, "cat");
    let mut passage = ("p".to_owned(), "t".to_owned(), "c".to_owned());
    passage_from_captures(&mut option, &vec![], &"plain".to_owned(), &mut passage);
    assert_eq!(passage, ("p".to_owned(), "t".to_owned(), "c".to_owned()));
}

#[test]
fn typing_speed_is_monotone() {
    assert!(get_wpm(3, 200, 100) <= get_wpm(7, 200, 100));
    assert!(get_wpm(7, 200, 100) <= get_wpm(7, 150, 100));
    assert_eq!(get_wpm(7, 150, 100), 9);
}

#[test]
fn a_space_stands_before_each_word() {
    let passage = "one two  three";
    let words = split_on(passage, ' ');
    let chars: Vec<char> = passage.chars().collect();
    assert_eq!(get_starting_idx(&words, &0), 0);
    for i in 1..words.len() {
        let start = get_starting_idx(&words, &i);
        assert_eq!(chars[start - 1], ' ');
        assert_eq!(start, get_starting_idx(&words, &(i - 1)) + words[i - 1].chars().count() + 1);
    }
}

#[test]
fn after_key_needs_no_clock_while_typing() {
    let mut option = argument();
    let mut game = Game::new("ab cd");
    game.on_key(TermKey::Char('a'), 50);
    game.after_key(&mut option, 10);
    assert_eq!(game.current_word_idx, 0);
    assert_eq!(game.on_key(TermKey::Char('\n'), 5), KeyOutcome::Stay);
}
