use text_enrich::service::tokenize;
use text_enrich::text::{chars_of, parse_u64, str_eq, str_lt};
use text_enrich::tokenizer::{classify, segment};
use text_enrich::stemming::{stem_word, MAX_WORD_BYTES};
use text_enrich::{CharClass, Language, Loc, NumberEnricher, Sentence, Service, Token, TokenBuilder};

fn spans(text: &str) -> Vec<(usize, usize)> {
    tokenize(Language::English, text)
        .iter()
        .map(|token| (token.loc.start_index, token.loc.len))
        .collect()
}

fn values(language: Language, text: &str) -> Vec<String> {
    tokenize(language, text).iter().map(|token| token.val.clone()).collect()
}

#[test]
fn empty_text_has_no_tokens() {
    assert!(tokenize(Language::Russian, "").is_empty());
}

#[test]
fn blank_text_has_no_tokens() {
    assert!(tokenize(Language::Russian, " \t\n\r\x0C ").is_empty());
}

#[test]
fn tokens_ascend_and_do_not_overlap() {
    let found = spans("ab  12cd,ef;;  9 x1y ");
    assert!(!found.is_empty());
    for pair in found.windows(2) {
        assert!(pair[0].0 <= pair[1].0);
        assert!(pair[0].0 + pair[0].1 <= pair[1].0);
    }
}

#[test]
fn digits_and_letters_are_split() {
    assert_eq!(spans("12wr"), vec![(0, 2), (2, 2)]);
    assert_eq!(values(Language::Russian, "12wr"), vec!["12".to_owned(), "wr".to_owned()]);
    assert_eq!(spans("wr12"), vec![(0, 2), (2, 2)]);
    assert_eq!(spans("a1b2"), vec![(0, 1), (1, 1), (2, 1), (3, 1)]);
}

#[test]
fn punctuation_stands_alone() {
    assert_eq!(spans("a,b;;"), vec![(0, 1), (1, 1), (2, 1), (3, 1), (4, 1)]);
    assert_eq!(
        values(Language::Russian, "!?.."),
        vec!["!".to_owned(), "?".to_owned(), ".".to_owned(), ".".to_owned()]
    );
}

#[test]
fn blanks_belong_to_no_token() {
    assert_eq!(spans("  ab   cd "), vec![(2, 2), (7, 2)]);
}

#[test]
fn places_count_characters_not_bytes() {
    assert_eq!(spans("ц ця"), vec![(0, 1), (2, 2)]);
}

#[test]
fn text_is_put_in_lower_case() {
    assert_eq!(values(Language::Russian, "W1W"), vec!["w".to_owned(), "1".to_owned(), "w".to_owned()]);
}

#[test]
fn token_text_is_the_stem() {
    let tokens = tokenize(Language::English, "fruitlessly");
    assert_eq!(tokens, vec![Token::new("fruitless".to_owned(), Loc::new(0, 11))]);
}

#[test]
fn the_algorithm_decides_the_stem() {
    assert_eq!(values(Language::English, "running"), vec!["run".to_owned()]);
    assert_eq!(values(Language::Russian, "running"), vec!["running".to_owned()]);
}

#[test]
fn characters_have_their_classes() {
    assert_eq!(classify(' '), CharClass::Space);
    assert_eq!(classify('\t'), CharClass::Space);
    assert_eq!(classify('\n'), CharClass::Space);
    assert_eq!(classify('\r'), CharClass::Space);
    assert_eq!(classify('\x0C'), CharClass::Space);
    assert_eq!(classify('!'), CharClass::Punct);
    assert_eq!(classify('/'), CharClass::Punct);
    assert_eq!(classify(':'), CharClass::Punct);
    assert_eq!(classify('@'), CharClass::Punct);
    assert_eq!(classify('['), CharClass::Punct);
    assert_eq!(classify('`'), CharClass::Punct);
    assert_eq!(classify('{'), CharClass::Punct);
    assert_eq!(classify('~'), CharClass::Punct);
    assert_eq!(classify('0'), CharClass::Digit);
    assert_eq!(classify('9'), CharClass::Digit);
    assert_eq!(classify('٣'), CharClass::Digit);
    assert_eq!(classify('a'), CharClass::Letter);
    assert_eq!(classify('Z'), CharClass::Letter);
    assert_eq!(classify('ц'), CharClass::Letter);
    assert_eq!(classify('\u{00A0}'), CharClass::Letter);
    assert_eq!(classify('\u{000B}'), CharClass::Letter);
}

#[test]
fn segment_cuts_runs() {
    let classes = vec![
        CharClass::Space,
        CharClass::Digit,
        CharClass::Digit,
        CharClass::Letter,
        CharClass::Punct,
        CharClass::Punct,
        CharClass::Space,
        CharClass::Letter,
        CharClass::Letter,
    ];
    assert_eq!(
        segment(&classes),
        vec![Loc::new(1, 2), Loc::new(3, 1), Loc::new(4, 1), Loc::new(5, 1), Loc::new(7, 2)]
    );
    assert_eq!(segment(&[]), vec![]);
}

#[test]
fn chars_of_lists_the_characters() {
    assert_eq!(chars_of("aц1"), vec!['a', 'ц', '1']);
    assert_eq!(chars_of(""), Vec::<char>::new());
}

#[test]
fn builder_collects_a_token() {
    let mut builder = TokenBuilder::new(7);
    assert_eq!(builder.token, "");
    assert_eq!(builder.start_index, 7);
    assert_eq!(builder.len, 0);
    for symbol in "fruitlessly".chars() {
        builder.add_symbol(symbol);
    }
    assert_eq!(builder.token, "fruitlessly");
    assert_eq!(builder.len, 11);
    assert_eq!(
        builder.done(Language::English),
        Token::new("fruitless".to_owned(), Loc::new(7, 11))
    );
}

#[test]
fn service_tokenizes_as_tokenize_does() {
    let service: Service<NumberEnricher> = Service::new(Language::Russian);
    let text = "У меня 120 печеник";
    assert_eq!(service.tokenize(text), tokenize(Language::Russian, text));
    let sentence = service.sentence(text.to_owned()).unwrap();
    assert_eq!(sentence.tokens(), tokenize(Language::Russian, text).as_slice());
    assert_eq!(sentence.raw(), text);
    assert_eq!(sentence.len(), 4);
}

#[test]
fn by_loc_cuts_the_raw_text() {
    let sentence = Sentence::new("У Меня 120".to_owned(), vec![]);
    assert_eq!(sentence.by_loc(&Loc::new(2, 4)), "Меня");
    assert_eq!(sentence.by_loc(&Loc::new(0, 1)), "У");
    assert_eq!(sentence.by_loc(&Loc::new(7, 3)), "120");
    assert_eq!(sentence.by_loc(&Loc::new(7, 30)), "120");
    assert_eq!(sentence.by_loc(&Loc::new(10, 1)), "");
    assert_eq!(sentence.by_loc(&Loc::new(11, 1)), "");
    assert_eq!(sentence.by_loc(&Loc::new(3, 0)), "");
    assert_eq!(sentence.by_loc(&Loc::new(usize::MAX, usize::MAX)), "");
    assert_eq!(sentence.by_loc(&Loc::new(1, usize::MAX)), " Меня 120");
}

#[test]
fn places_are_those_of_the_raw_text() {
    let service: Service<NumberEnricher> = Service::new(Language::Russian);
    let text = "\u{130}1 \u{130}\u{130}b 22";
    let sentence = service.sentence(text.to_owned()).unwrap();
    let tokens = sentence.tokens();
    assert_eq!(
        tokens,
        [
            Token::new("i\u{307}".to_owned(), Loc::new(0, 1)),
            Token::new("1".to_owned(), Loc::new(1, 1)),
            Token::new("i\u{307}i\u{307}b".to_owned(), Loc::new(3, 3)),
            Token::new("22".to_owned(), Loc::new(7, 2)),
        ]
    );
    assert_eq!(sentence.by_loc(&tokens[0].loc), "\u{130}");
    assert_eq!(sentence.by_loc(&tokens[1].loc), "1");
    assert_eq!(sentence.by_loc(&tokens[2].loc), "\u{130}\u{130}b");
    assert_eq!(sentence.by_loc(&tokens[3].loc), "22");
}

#[test]
fn every_token_lies_within_the_raw_text() {
    for text in ["\u{130}1", "ab  12cd,ef;;  9 x1y ", "У меня 120 W печеник g", "\u{130}"] {
        let count = text.chars().count();
        let sentence = Sentence::new(text.to_owned(), tokenize(Language::Russian, text));
        for token in sentence.tokens() {
            assert!(token.loc.len >= 1);
            assert!(token.loc.start_index + token.loc.len <= count);
            assert_eq!(sentence.by_loc(&token.loc).chars().count(), token.loc.len);
        }
    }
}

#[test]
fn each_token_is_lowered_as_a_text() {
    assert_eq!(values(Language::Russian, "ΟΔΟΣ ΟΔΟΣ1"), vec!["οδος".to_owned(), "οδος".to_owned(), "1".to_owned()]);
}

#[test]
fn builder_stems_what_it_has_collected() {
    let mut builder = TokenBuilder::new(2);
    for symbol in "бровями".chars() {
        builder.add_symbol(symbol);
    }
    assert_eq!(builder.token, "бровями");
    assert_eq!(builder.done(Language::Russian), Token::new("бров".to_owned(), Loc::new(2, 7)));
}

#[test]
fn a_text_is_lowered_as_a_whole_where_that_keeps_its_length() {
    assert_eq!(
        values(Language::Russian, "ΑΣ.Β"),
        vec!["ασ".to_owned(), ".".to_owned(), "β".to_owned()]
    );
    assert_eq!(values(Language::Russian, "ΑΣ"), vec!["ας".to_owned()]);
    assert_eq!(
        values(Language::Russian, "\u{130}ΑΣ.Β"),
        vec!["i\u{307}ας".to_owned(), ".".to_owned(), "β".to_owned()]
    );
}

#[test]
fn words_are_stemmed_in_their_language() {
    assert_eq!(stem_word(Language::Russian, "бровями"), "бров");
    assert_eq!(stem_word(Language::Russian, "бродивших"), "брод");
    assert_eq!(stem_word(Language::Russian, "fruitlessly"), "fruitlessly");
    assert_eq!(stem_word(Language::English, "fruitlessly"), "fruitless");
    assert_eq!(stem_word(Language::English, "бровями"), "бровями");
    assert_eq!(stem_word(Language::English, "skies"), "sky");
    assert_eq!(stem_word(Language::English, "'yay'"), "yay");
    assert_eq!(stem_word(Language::English, "hopping"), "hop");
    assert_eq!(stem_word(Language::English, "ισαισα"), "ισαισα");
    assert_eq!(stem_word(Language::Russian, "ισαισα"), "ισαισα");
    assert_eq!(stem_word(Language::English, ""), "");
    assert_eq!(stem_word(Language::Russian, ""), "");
    assert_eq!(MAX_WORD_BYTES, 1 << 30);
}

#[test]
fn stemmers_return_on_odd_words() {
    let odd = [
        "'", "''", "'s", "y", "yy", "ay", "Y", "ies", "ied", "s", "ss", "eed", "ing", "ed", "bb", "at", "e", "l",
        "\u{130}", "a\u{307}y", "ying", "\u{10FFFF}s", "ь", "нн", "ейше", "ейш", "и", "ивши", "ающий", "вшись", "ся",
        "ость", "\u{0}", "\u{7F}ing", "日本語", "généralement", "😀ly", "aing", "ational",
    ];
    for word in odd {
        for language in [Language::English, Language::Russian] {
            let stem = stem_word(language, word);
            assert!(stem.len() <= word.len() + 1);
        }
    }
}

#[test]
fn strings_compare_as_the_standard_library_has_it() {
    let words = ["", "a", "ab", "b", "Z", "z", "я", "яa", "а", "\u{10FFFF}", "\u{FFFF}", "\u{E000}", "abc", "abd", "ab\u{0}"];
    for a in words {
        for b in words {
            assert_eq!(str_lt(a, b), a < b);
            assert_eq!(str_eq(a, b), a == b);
        }
    }
}

#[test]
fn of_the_ascii_characters_the_digits_are_numeric() {
    for code in 0u8..=0x7F {
        let c = code as char;
        let expected = if c.is_ascii_whitespace() {
            CharClass::Space
        } else if c.is_ascii_punctuation() {
            CharClass::Punct
        } else if c.is_ascii_digit() {
            CharClass::Digit
        } else {
            CharClass::Letter
        };
        assert_eq!(classify(c), expected);
    }
}
