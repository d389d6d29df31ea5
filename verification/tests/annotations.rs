use text_enrich::enricher::number::{negate, NUMBER_INDEX, SIGN_INDEX, VALUE};
use text_enrich::{
    Chain, Empty, Enricher, Error, Language, Loc, LocalDictionary, Meta, MetaKind, Number, NumberEnricher, Sentence, Service,
    StopWordEnricher, StopWordError, StrMap, Token, STOP_WORD,
};

fn sentence_of(raw: &str, values: &[&str]) -> Sentence {
    let tokens = values
        .iter()
        .enumerate()
        .map(|(index, value)| Token::new(value.to_string(), Loc::new(index, 1)))
        .collect();
    Sentence::new(raw.to_owned(), tokens)
}

fn numbers_of(values: &[&str]) -> Vec<(Loc, Number)> {
    let mut sentence = sentence_of("", values);
    NumberEnricher().enrich(&mut sentence).unwrap();
    NumberEnricher::extract(&sentence).unwrap()
}

#[test]
fn accessors_read_their_own_kind() {
    assert_eq!(Meta::Usize(3).as_usize(), Ok(3));
    assert_eq!(Meta::I64(-3).as_i64(), Ok(-3));
    assert_eq!(Meta::U64(3).as_u64(), Ok(3));
}

#[test]
fn accessors_report_another_kind() {
    assert_eq!(
        Meta::Bool(true).as_usize(),
        Err(Error::MetaKind { expected: MetaKind::Usize, found: MetaKind::Bool })
    );
    assert_eq!(
        Meta::U64(1).as_i64(),
        Err(Error::MetaKind { expected: MetaKind::I64, found: MetaKind::U64 })
    );
    assert_eq!(
        Meta::Str("1".to_owned()).as_u64(),
        Err(Error::MetaKind { expected: MetaKind::U64, found: MetaKind::Str })
    );
    assert_eq!(
        Meta::Vec(vec![]).as_u64(),
        Err(Error::MetaKind { expected: MetaKind::U64, found: MetaKind::Vec })
    );
    assert_eq!(
        Meta::Dict(StrMap::new()).as_usize(),
        Err(Error::MetaKind { expected: MetaKind::Usize, found: MetaKind::Dict })
    );
}

#[test]
fn kinds_have_names() {
    assert_eq!(Meta::I128(1).kind(), MetaKind::I128);
    assert_eq!(MetaKind::Usize.name(), "usize");
    assert_eq!(MetaKind::Dict.name(), "map");
}

#[test]
fn errors_speak() {
    let stop = StopWordError { stop_word: "W".to_owned() };
    assert_eq!(stop.description(), "Stop word");
    assert_eq!(stop.message(), "stop word:[W]");
    assert_eq!(Error::StopWord(stop).message(), "stop word:[W]");
    assert_eq!(Error::ExclusiveAccess.message(), "Unexpected error.");
    assert_eq!(
        Error::MetaKind { expected: MetaKind::Usize, found: MetaKind::Bool }.message(),
        "Expected usize value. Found [bool]"
    );
    assert_eq!(Error::Backend("disk full".to_owned()).message(), "disk full");
}

#[test]
fn annotations_are_kept_by_name() {
    let mut token = Token::new("a".to_owned(), Loc::new(0, 1));
    assert_eq!(token.get_meta("x"), None);
    token.add_meta("x", Meta::Bool(true));
    token.add_meta("y", Meta::U8(7));
    assert_eq!(token.get_meta("x"), Some(&Meta::Bool(true)));
    assert_eq!(token.get_meta("y"), Some(&Meta::U8(7)));
    assert_eq!(token.get_meta("z"), None);
    token.add_meta("x", Meta::Bool(false));
    assert_eq!(token.get_meta("x"), Some(&Meta::Bool(false)));
    assert_eq!(token.value(), "a");
    assert_eq!(token.location(), Loc::new(0, 1));
}

#[test]
fn tokens_are_equal_whatever_the_order_of_annotation() {
    let mut first = Token::new("a".to_owned(), Loc::new(0, 1));
    first.add_meta("x", Meta::Bool(true));
    first.add_meta("b", Meta::U8(7));
    let mut second = Token::new("a".to_owned(), Loc::new(0, 1));
    second.add_meta("b", Meta::U8(7));
    second.add_meta("x", Meta::Bool(true));
    assert_eq!(first, second);
    second.add_meta("x", Meta::Bool(false));
    assert_ne!(first, second);
}

#[test]
fn map_keeps_keys_in_order() {
    let mut map: StrMap<u8> = StrMap::new();
    assert_eq!(map.insert("b".to_owned(), 1), None);
    assert_eq!(map.insert("a".to_owned(), 2), None);
    assert_eq!(map.insert("c".to_owned(), 3), None);
    assert_eq!(map.insert("ab".to_owned(), 4), None);
    assert_eq!(map.insert("b".to_owned(), 5), Some(1));
    assert_eq!(map.len(), 4);
    assert_eq!(map.key_at(0), "a");
    assert_eq!(map.key_at(1), "ab");
    assert_eq!(map.key_at(2), "b");
    assert_eq!(map.key_at(3), "c");
    assert_eq!(map.value_at(2), &5);
    assert_eq!(map.get("ab"), Some(&4));
    assert_eq!(map.get("abc"), None);
    assert_eq!(map.get(""), None);
    assert!(map.contains_key("c"));
    assert!(!map.contains_key("d"));
    let copy = map.clone();
    assert_eq!(copy, map);
}

#[test]
fn map_orders_by_code_point() {
    let mut map: StrMap<u8> = StrMap::new();
    map.insert("я".to_owned(), 1);
    map.insert("z".to_owned(), 2);
    map.insert("Z".to_owned(), 3);
    map.insert("".to_owned(), 4);
    assert_eq!(map.key_at(0), "");
    assert_eq!(map.key_at(1), "Z");
    assert_eq!(map.key_at(2), "z");
    assert_eq!(map.key_at(3), "я");
}

#[test]
fn values_are_cloned_in_depth() {
    let mut inner: StrMap<Meta> = StrMap::new();
    inner.insert("k".to_owned(), Meta::Vec(vec![Meta::I8(-1), Meta::Str("s".to_owned())]));
    inner.insert("a".to_owned(), Meta::U128(9));
    let value = Meta::Vec(vec![Meta::Dict(inner), Meta::Bool(false)]);
    assert_eq!(value.clone(), value);
    assert_eq!(Meta::Str("s".to_owned()).clone(), Meta::Str("s".to_owned()));
}

#[test]
fn annotate_touches_one_token() {
    let mut sentence = sentence_of("a b", &["a", "b"]);
    sentence.annotate(1, "x", Meta::Bool(true));
    assert_eq!(sentence.token(0).get_meta("x"), None);
    assert_eq!(sentence.token(1).get_meta("x"), Some(&Meta::Bool(true)));
    assert_eq!(sentence.len(), 2);
}

#[test]
fn negate_takes_the_negative() {
    assert_eq!(negate(0), Some(0));
    assert_eq!(negate(120), Some(-120));
    assert_eq!(negate(9223372036854775807), Some(-9223372036854775807));
    assert_eq!(negate(9223372036854775808), Some(i64::MIN));
    assert_eq!(negate(9223372036854775809), None);
    assert_eq!(negate(u64::MAX), None);
}

#[test]
fn number_without_sign_is_unsigned() {
    assert_eq!(numbers_of(&["a", "120", "b"]), vec![(Loc::new(1, 1), Number::Unsigned(120))]);
    assert_eq!(numbers_of(&["120"]), vec![(Loc::new(0, 1), Number::Unsigned(120))]);
    assert_eq!(numbers_of(&["007"]), vec![(Loc::new(0, 1), Number::Unsigned(7))]);
    assert_eq!(
        numbers_of(&["18446744073709551615"]),
        vec![(Loc::new(0, 1), Number::Unsigned(u64::MAX))]
    );
}

#[test]
fn number_behind_minus_is_signed() {
    assert_eq!(numbers_of(&["a", "-", "120"]), vec![(Loc::new(1, 2), Number::Signed(-120))]);
    assert_eq!(numbers_of(&["минус", "5"]), vec![(Loc::new(0, 2), Number::Signed(-5))]);
    assert_eq!(
        numbers_of(&["-", "9223372036854775808"]),
        vec![(Loc::new(0, 2), Number::Signed(i64::MIN))]
    );
}

#[test]
fn no_signed_number_is_positive() {
    assert_eq!(
        numbers_of(&["-", "9223372036854775809"]),
        vec![(Loc::new(1, 1), Number::Unsigned(9223372036854775809))]
    );
    assert_eq!(
        numbers_of(&["-", "18446744073709551615"]),
        vec![(Loc::new(1, 1), Number::Unsigned(u64::MAX))]
    );
    let mut sentence = sentence_of("", &["-", "9223372036854775809"]);
    NumberEnricher().enrich(&mut sentence).unwrap();
    assert_eq!(sentence.token(0).get_meta(NUMBER_INDEX), None);
    assert_eq!(sentence.token(1).get_meta(SIGN_INDEX), None);
    assert_eq!(sentence.token(1).get_meta(VALUE), Some(&Meta::U64(9223372036854775809)));
    assert_eq!(numbers_of(&["-", "0"]), vec![(Loc::new(0, 2), Number::Signed(0))]);
}

#[test]
fn minus_attaches_to_its_neighbour_only() {
    assert_eq!(numbers_of(&["-", "a", "5"]), vec![(Loc::new(2, 1), Number::Unsigned(5))]);
    assert_eq!(
        numbers_of(&["-", "5", "6"]),
        vec![(Loc::new(0, 2), Number::Signed(-5)), (Loc::new(2, 1), Number::Unsigned(6))]
    );
    assert_eq!(numbers_of(&["5", "-"]), vec![(Loc::new(0, 1), Number::Unsigned(5))]);
    assert_eq!(numbers_of(&["+", "5"]), vec![(Loc::new(1, 1), Number::Unsigned(5))]);
    assert_eq!(numbers_of(&["plus", "5"]), vec![(Loc::new(1, 1), Number::Unsigned(5))]);
}

#[test]
fn what_is_no_decimal_literal_is_no_number() {
    assert_eq!(numbers_of(&["", "a", "1a", "-5", "٣", "1_0", " 1", "18446744073709551616", "+"]), vec![]);
}

#[test]
fn enrich_leaves_cross_references() {
    let mut sentence = sentence_of("", &["-", "7", "8"]);
    NumberEnricher().enrich(&mut sentence).unwrap();
    assert_eq!(sentence.token(0).get_meta(NUMBER_INDEX), Some(&Meta::Usize(1)));
    assert_eq!(sentence.token(0).get_meta(VALUE), None);
    assert_eq!(sentence.token(1).get_meta(VALUE), Some(&Meta::I64(-7)));
    assert_eq!(sentence.token(1).get_meta(SIGN_INDEX), Some(&Meta::Usize(0)));
    assert_eq!(sentence.token(1).get_meta(NUMBER_INDEX), None);
    assert_eq!(sentence.token(2).get_meta(VALUE), Some(&Meta::U64(8)));
    assert_eq!(sentence.token(2).get_meta(SIGN_INDEX), None);
}

#[test]
fn extract_reports_an_annotation_of_another_kind() {
    let mut sentence = sentence_of("", &["a", "b"]);
    sentence.annotate(1, VALUE, Meta::Bool(true));
    assert_eq!(
        NumberEnricher::extract(&sentence),
        Err(Error::MetaKind { expected: MetaKind::U64, found: MetaKind::Bool })
    );
    sentence.annotate(1, SIGN_INDEX, Meta::I8(0));
    assert_eq!(
        NumberEnricher::extract(&sentence),
        Err(Error::MetaKind { expected: MetaKind::Usize, found: MetaKind::I8 })
    );
    sentence.annotate(1, SIGN_INDEX, Meta::Usize(0));
    assert_eq!(
        NumberEnricher::extract(&sentence),
        Err(Error::MetaKind { expected: MetaKind::I64, found: MetaKind::Bool })
    );
    sentence.annotate(1, VALUE, Meta::I64(-4));
    assert_eq!(NumberEnricher::extract(&sentence), Ok(vec![(Loc::new(0, 2), Number::Signed(-4))]));
}

#[test]
fn number_stage_learns_nothing() {
    let mut stage = NumberEnricher();
    assert_eq!(stage.update(&sentence_of("", &["1"])), Ok(()));
}

#[test]
fn stop_word_error_bears_the_raw_text() {
    let mut service: Service<StopWordEnricher<LocalDictionary<Empty>>> = Service::new(Language::Russian);
    service.add_enricher(StopWordEnricher::new(LocalDictionary::new(vec!["w".to_owned(), "g".to_owned()]), true));
    assert_eq!(
        service.sentence("У меня 120 W печеник g".to_owned()),
        Err(Error::StopWord(StopWordError { stop_word: "W".to_owned() }))
    );
    assert!(service.sentence("У меня 120 печеник".to_owned()).is_ok());
}

#[test]
fn aborting_stage_flags_nothing() {
    let stage = StopWordEnricher::new(LocalDictionary::<Empty>::new(vec!["b".to_owned()]), true);
    let mut sentence = sentence_of("a b", &["a", "b"]);
    let before = sentence.clone();
    assert!(stage.enrich(&mut sentence).is_err());
    assert_eq!(sentence, before);
    let mut clean = sentence_of("a c", &["a", "c"]);
    assert_eq!(stage.enrich(&mut clean), Ok(()));
    assert_eq!(clean, sentence_of("a c", &["a", "c"]));
}

#[test]
fn any_flag_counts_as_a_stop_word() {
    let mut sentence = sentence_of("a b c", &["a", "b", "c"]);
    sentence.annotate(2, STOP_WORD, Meta::Bool(false));
    sentence.annotate(0, STOP_WORD, Meta::U8(1));
    let mut tokens = sentence.tokens().to_vec();
    tokens[0].loc = Loc::new(0, 1);
    tokens[2].loc = Loc::new(4, 1);
    let mut placed = Sentence::new("a b c".to_owned(), tokens);
    assert_eq!(
        StopWordEnricher::<Empty>::extract(&placed),
        vec![(Loc::new(0, 1), "a".to_owned()), (Loc::new(2, 1), "c".to_owned())]
    );
    placed.tokens_mut()[1].add_meta(STOP_WORD, Meta::Bool(true));
    assert_eq!(StopWordEnricher::<Empty>::extract(&placed).len(), 3);
}

#[test]
fn chain_runs_both_stages() {
    let stops = StopWordEnricher::new(LocalDictionary::<Empty>::new(vec!["w".to_owned()]), false);
    let mut service: Service<Chain<NumberEnricher, StopWordEnricher<LocalDictionary<Empty>>>> =
        Service::new(Language::Russian);
    service.add_enricher(Chain::new(NumberEnricher(), stops));
    let sentence = service.sentence("- 12 w".to_owned()).unwrap();
    assert_eq!(NumberEnricher::extract(&sentence), Ok(vec![(Loc::new(0, 2), Number::Signed(-12))]));
    assert_eq!(
        StopWordEnricher::<Empty>::extract(&sentence),
        vec![(Loc::new(2, 1), "w".to_owned())]
    );
}

#[test]
fn chain_stops_at_the_first_veto() {
    let stops = StopWordEnricher::new(LocalDictionary::<Empty>::new(vec!["w".to_owned()]), true);
    let chain = Chain::new(stops, NumberEnricher());
    let mut sentence = sentence_of("w 1", &["w", "1"]);
    assert_eq!(
        chain.enrich(&mut sentence),
        Err(Error::StopWord(StopWordError { stop_word: "w".to_owned() }))
    );
    assert_eq!(NumberEnricher::extract(&sentence), Ok(vec![]));
}

#[test]
fn stages_run_in_the_order_of_registration() {
    let mut service: Service<StopWordEnricher<LocalDictionary<Empty>>> = Service::new(Language::Russian);
    service.add_enricher(StopWordEnricher::new(LocalDictionary::new(vec!["a".to_owned()]), false));
    service.add_enricher(StopWordEnricher::new(LocalDictionary::new(vec!["b".to_owned()]), true));
    service.add_enricher(StopWordEnricher::new(LocalDictionary::new(vec!["a".to_owned()]), true));
    assert_eq!(
        service.sentence("a b".to_owned()),
        Err(Error::StopWord(StopWordError { stop_word: "b".to_owned() }))
    );
    assert_eq!(
        service.sentence("a c".to_owned()),
        Err(Error::StopWord(StopWordError { stop_word: "a".to_owned() }))
    );
    let sentence = service.sentence("c d".to_owned()).unwrap();
    assert_eq!(StopWordEnricher::<Empty>::extract(&sentence), vec![]);
}

/// A stage from outside the library: it marks every token as seen, and
/// counts the sentences that it has taken in.
struct Seen {
    taken: usize,
}

impl Enricher for Seen {
    fn enrich(&self, sentence: &mut Sentence) -> Result<(), Error> {
        for index in 0..sentence.len() {
            sentence.annotate(index, "seen", Meta::Bool(true));
        }
        Ok(())
    }

    fn update(&mut self, _sentence: &Sentence) -> Result<(), Error> {
        self.taken += 1;
        Ok(())
    }
}

#[test]
fn a_stage_from_outside_joins_the_pipeline() {
    let mut service: Service<Chain<Seen, NumberEnricher>> = Service::new(Language::Russian);
    service.add_enricher(Chain::new(Seen { taken: 0 }, NumberEnricher()));
    let sentence = service.sentence("a 5".to_owned()).unwrap();
    assert_eq!(sentence.token(0).get_meta("seen"), Some(&Meta::Bool(true)));
    assert_eq!(sentence.token(1).get_meta("seen"), Some(&Meta::Bool(true)));
    assert_eq!(NumberEnricher::extract(&sentence), Ok(vec![(Loc::new(1, 1), Number::Unsigned(5))]));
    assert_eq!(service.back_propagation(sentence), Ok(()));
}
