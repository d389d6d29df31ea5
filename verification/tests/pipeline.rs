use text_enrich::dictionary::{Empty, LocalDictionary};
use text_enrich::enricher::number::{Number, NumberEnricher};
use text_enrich::{Language, Loc, Meta, Service, StopWordEnricher, Token, STOP_WORD};

fn words(list: &[&str]) -> Vec<String> {
    list.iter().map(|word| word.to_string()).collect()
}

#[test]
fn test() {
    let service: Service<NumberEnricher> = Service::new(Language::Russian);
    let sentence = service
        .sentence("Приветик, как твои дела? Я хочу купить слона. % ".to_owned())
        .unwrap();
    println!("{:?}", sentence);
}

#[test]
fn test_tokenization() {
    let service: Service<NumberEnricher> = Service::new(Language::Russian);
    assert_eq!(
        service
            .sentence("w1w-12wr$re;21-12feац-ц123".to_owned())
            .unwrap()
            .tokens(),
        [
            Token::new("w".to_owned(), Loc::new(0, 1)),
            Token::new("1".to_owned(), Loc::new(1, 1)),
            Token::new("w".to_owned(), Loc::new(2, 1)),
            Token::new("-".to_owned(), Loc::new(3, 1)),
            Token::new("12".to_owned(), Loc::new(4, 2)),
            Token::new("wr".to_owned(), Loc::new(6, 2)),
            Token::new("$".to_owned(), Loc::new(8, 1)),
            Token::new("re".to_owned(), Loc::new(9, 2)),
            Token::new(";".to_owned(), Loc::new(11, 1)),
            Token::new("21".to_owned(), Loc::new(12, 2)),
            Token::new("-".to_owned(), Loc::new(14, 1)),
            Token::new("12".to_owned(), Loc::new(15, 2)),
            Token::new("feац".to_owned(), Loc::new(17, 4)),
            Token::new("-".to_owned(), Loc::new(21, 1)),
            Token::new("ц".to_owned(), Loc::new(22, 1)),
            Token::new("123".to_owned(), Loc::new(23, 3)),
        ]
    );
}

#[test]
fn test_unsigned_number() {
    let mut service: Service<NumberEnricher> = Service::new(Language::Russian);
    service.add_enricher(NumberEnricher());
    let sentence = service.sentence("У меня 120 печеник".to_owned()).unwrap();
    let numbers = NumberEnricher::extract(&sentence).unwrap();
    assert_eq!(numbers, vec![(Loc::new(2, 1), Number::Unsigned(120))]);
}

#[test]
fn test_signed_number() {
    let mut service: Service<NumberEnricher> = Service::new(Language::Russian);
    service.add_enricher(NumberEnricher());
    let sentence = service.sentence("У меня -120 печеник".to_owned()).unwrap();
    let numbers = NumberEnricher::extract(&sentence).unwrap();
    assert_eq!(numbers, vec![(Loc::new(2, 2), Number::Signed(-120))]);
}

#[test]
fn test_number() {
    let mut service: Service<NumberEnricher> = Service::new(Language::Russian);
    service.add_enricher(NumberEnricher());
    let sentence = service
        .sentence("У меня 120 печеник и 30 котов. И - 50 и -90. 140% 40 % 70".to_owned())
        .unwrap();
    let numbers = NumberEnricher::extract(&sentence).unwrap();
    assert_eq!(
        numbers,
        vec![
            (Loc::new(2, 1), Number::Unsigned(120)),
            (Loc::new(5, 1), Number::Unsigned(30)),
            (Loc::new(9, 2), Number::Signed(-50)),
            (Loc::new(12, 2), Number::Signed(-90)),
            (Loc::new(15, 1), Number::Unsigned(140)),
            (Loc::new(17, 1), Number::Unsigned(40)),
            (Loc::new(19, 1), Number::Unsigned(70)),
        ]
    );
}

#[test]
fn test_stop_words_break_pipeline() {
    let mut service: Service<StopWordEnricher<LocalDictionary<Empty>>> = Service::new(Language::Russian);
    let dictionary: LocalDictionary<Empty> = LocalDictionary::new(words(&["w", "s", "f", "g"]));

    service.add_enricher(StopWordEnricher::new(dictionary, true));
    assert!(service.sentence("У меня 120 w печеник".to_owned()).is_err());
}

#[test]
fn test_stop_words() {
    let mut service: Service<StopWordEnricher<LocalDictionary<Empty>>> = Service::new(Language::Russian);
    let dictionary: LocalDictionary<Empty> = LocalDictionary::new(words(&["w", "s", "f", "g"]));

    service.add_enricher(StopWordEnricher::new(dictionary, false));
    let sentence = service
        .sentence("У g меня 120 w печеник s кукиу f".to_owned())
        .unwrap();
    assert_eq!(
        StopWordEnricher::<Empty>::extract(&sentence),
        vec![
            (Loc::new(1, 1), "g".to_owned()),
            (Loc::new(4, 1), "w".to_owned()),
            (Loc::new(6, 1), "s".to_owned()),
            (Loc::new(8, 1), "f".to_owned()),
        ]
    );
}

#[test]
fn test_add_stop_words() {
    let mut service: Service<StopWordEnricher<LocalDictionary<Empty>>> = Service::new(Language::Russian);
    service.add_enricher(StopWordEnricher::new(LocalDictionary::<Empty>::new(vec![]), false));
    let mut sentence = service
        .sentence("У g меня 120 w печеник s кукиу f".to_owned())
        .unwrap();
    assert_eq!(StopWordEnricher::<Empty>::extract(&sentence), vec![]);
    let tokens = sentence.tokens_mut();
    tokens[1].add_meta(STOP_WORD, Meta::Bool(true));
    tokens[4].add_meta(STOP_WORD, Meta::Bool(true));
    tokens[6].add_meta(STOP_WORD, Meta::Bool(true));
    tokens[8].add_meta(STOP_WORD, Meta::Bool(true));
    service.back_propagation(sentence).unwrap();

    let sentence = service
        .sentence("У g меня 120 w печеник s кукиу f".to_owned())
        .unwrap();
    assert_eq!(
        StopWordEnricher::<Empty>::extract(&sentence),
        vec![
            (Loc::new(1, 1), "g".to_owned()),
            (Loc::new(4, 1), "w".to_owned()),
            (Loc::new(6, 1), "s".to_owned()),
            (Loc::new(8, 1), "f".to_owned()),
        ]
    );
}
