//! The pipeline: text is cut into tokens, and the stages annotate them in
//! the order in which they were registered.

use crate::error::{outcome_view, Error, ErrorView};
use crate::sentence::{source_text, token_views, Loc, Meta, Sentence, SentenceView, Token, TokenView};
use crate::stemming::{stem_word, stemmed, Language};
use crate::text::{chars_of, lowercase_of};
use crate::tokenizer::{
    class_of, classify, is_segmentation, is_token_span, lemma_covered, lemma_punctuation_alone,
    lemma_segmentation_unique, lemma_tokens_ordered, segment, CharClass,
};
use vstd::prelude::*;

verus! {

/// Collects the characters of one token and remembers where it started.
pub struct TokenBuilder {
    pub token: String,
    pub start_index: usize,
    pub len: usize,
}

impl TokenBuilder {
    /// A builder for a token that starts at `start_index`, still empty.
    pub fn new(start_index: usize) -> (builder: TokenBuilder)
        ensures
            builder.token@ == Seq::<char>::empty(),
            builder.start_index == start_index,
            builder.len == 0,
    {
        TokenBuilder { token: String::new(), start_index, len: 0 }
    }

    /// Appends one character to the token.
    pub fn add_symbol(&mut self, symbol: char)
        requires
            old(self).len < usize::MAX,
        ensures
            final(self).token@ == old(self).token@.push(symbol),
            final(self).start_index == old(self).start_index,
            final(self).len == old(self).len + 1,
    {
        self.token.push(symbol);
        self.len += 1;
    }

    /// The token: the normal form of the collected text, at the place where
    /// the text stood.
    pub fn done(self, language: Language) -> (token: Token)
        ensures
            token@ == (TokenView {
                val: stemmed(language, self.token@),
                loc: Loc { start_index: self.start_index, len: self.len },
                meta: Map::empty(),
            }),
    {
        Token::new(stem_word(language, self.token.as_str()), Loc::new(self.start_index, self.len))
    }
}

/// The classes of the characters of a text.
pub open spec fn classes_of(chars: Seq<char>) -> Seq<CharClass> {
    chars.map_values(|c: char| class_of(c))
}

/// The places of a sequence of tokens.
pub open spec fn spans_of(tokens: Seq<TokenView>) -> Seq<Loc> {
    tokens.map_values(|token: TokenView| token.loc)
}

/// Whether `raw` in lower case has as many characters as `raw` itself. It
/// has, but for the few characters whose lower case is more than one.
pub open spec fn keeps_length(raw: Seq<char>) -> bool {
    lowercase_of(raw).len() == raw.len()
}

/// The characters that segmentation reads: those of the text put in lower
/// case as a whole, where that keeps their number, so that a place in one is
/// the same place in the other; else those of the text itself.
pub open spec fn scanned(raw: Seq<char>) -> Seq<char> {
    if keeps_length(raw) {
        lowercase_of(raw)
    } else {
        raw
    }
}

/// What stands at `loc` in lower case: cut from the text put in lower case
/// as a whole, where that keeps the number of characters; else the lower
/// case of what stands there in the text itself.
pub open spec fn lowered_at(raw: Seq<char>, loc: Loc) -> Seq<char> {
    if keeps_length(raw) {
        source_text(lowercase_of(raw), loc)
    } else {
        lowercase_of(source_text(raw, loc))
    }
}

/// `tokens` are the tokens of `raw`: their places are those of the
/// segmentation of the characters that are read, and are places in the raw
/// text; each token's text is the normal form of what stands at its place in
/// lower case; and nothing is attached yet.
pub open spec fn is_tokenization(language: Language, raw: Seq<char>, tokens: Seq<TokenView>) -> bool {
    &&& is_segmentation(classes_of(scanned(raw)), spans_of(tokens))
    &&& forall|i: int|
        0 <= i < tokens.len() ==> (#[trigger] tokens[i]).val == stemmed(language, lowered_at(raw, tokens[i].loc))
            && tokens[i].meta == Map::<Seq<char>, Meta>::empty()
}

/// Every token covers at least one character and lies within the text.
pub open spec fn spans_within(raw: Seq<char>, tokens: Seq<TokenView>) -> bool {
    forall|i: int| 0 <= i < tokens.len() ==> (#[trigger] tokens[i]).loc.len >= 1 && tokens[i].loc.end() <= raw.len()
}

/// The tokens of `raw`.
pub open spec fn tokenized(language: Language, raw: Seq<char>) -> Seq<TokenView> {
    choose|tokens: Seq<TokenView>| is_tokenization(language, raw, tokens)
}

/// A text has one tokenization only.
pub proof fn lemma_tokenization_unique(
    language: Language,
    raw: Seq<char>,
    a: Seq<TokenView>,
    b: Seq<TokenView>,
)
    requires
        is_tokenization(language, raw, a),
        is_tokenization(language, raw, b),
    ensures
        a == b,
{
    lemma_segmentation_unique(classes_of(scanned(raw)), spans_of(a), spans_of(b));
    assert(a.len() == spans_of(a).len());
    assert(b.len() == spans_of(b).len());
    assert forall|i: int| 0 <= i < a.len() implies a[i] == b[i] by {
        assert(a[i].loc == spans_of(a)[i]);
        assert(b[i].loc == spans_of(b)[i]);
    }
    assert(a =~= b);
}

/// The tokens of a text stand in the order of the text, by ascending start,
/// and no two of them overlap.
pub proof fn lemma_tokenization_ordered(language: Language, raw: Seq<char>, tokens: Seq<TokenView>)
    requires
        is_tokenization(language, raw, tokens),
    ensures
        spans_ordered(tokens),
{
    lemma_tokens_ordered(classes_of(scanned(raw)), spans_of(tokens));
    assert forall|i: int, j: int| 0 <= i < j < tokens.len() implies (#[trigger] tokens[i]).loc.start_index <= (
    #[trigger] tokens[j]).loc.start_index && tokens[i].loc.end() <= tokens[j].loc.start_index by {
        assert(tokens[i].loc == spans_of(tokens)[i]);
        assert(tokens[j].loc == spans_of(tokens)[j]);
    }
}

/// A token lies within the raw text; the part of the raw text that it covers
/// is as long as the token's place says; and its text is the normal form of
/// that part in lower case.
pub proof fn lemma_token_in_text(language: Language, raw: Seq<char>, tokens: Seq<TokenView>, index: int)
    requires
        is_tokenization(language, raw, tokens),
        0 <= index < tokens.len(),
    ensures
        tokens[index].loc.len >= 1,
        tokens[index].loc.end() <= raw.len(),
        source_text(raw, tokens[index].loc) == raw.subrange(
            tokens[index].loc.start_index as int,
            tokens[index].loc.end(),
        ),
        source_text(raw, tokens[index].loc).len() == tokens[index].loc.len,
        tokens[index].val == stemmed(language, lowered_at(raw, tokens[index].loc)),
        spans_within(raw, tokens),
{
    assert forall|i: int| 0 <= i < tokens.len() implies (#[trigger] tokens[i]).loc.len >= 1 && tokens[i].loc.end()
        <= raw.len() by {
        assert(tokens[i].loc == spans_of(tokens)[i]);
        assert(is_token_span(classes_of(scanned(raw)), spans_of(tokens)[i]));
    }
}

/// What a token of a text covers, among the characters that are read: at
/// least one character, none of them blank, all of one class, so that digits
/// and other characters never share a token; punctuation stands alone; and a
/// run of digits or of other characters is taken whole, up to a character of
/// another class or an end of the text.
pub proof fn lemma_token_is_run(language: Language, raw: Seq<char>, tokens: Seq<TokenView>, index: int)
    requires
        is_tokenization(language, raw, tokens),
        0 <= index < tokens.len(),
    ensures
        ({
            let chars = scanned(raw);
            let start = tokens[index].loc.start_index as int;
            let end = tokens[index].loc.end();
            &&& 0 <= start < end <= chars.len() == raw.len()
            &&& forall|p: int|
                start <= p < end ==> class_of(#[trigger] chars[p]) == class_of(chars[start]) && class_of(chars[p])
                    != CharClass::Space
            &&& class_of(chars[start]) == CharClass::Punct ==> end == start + 1
            &&& class_of(chars[start]) != CharClass::Punct ==> {
                &&& start == 0 || class_of(chars[start - 1]) != class_of(chars[start])
                &&& end == chars.len() || class_of(chars[end]) != class_of(chars[start])
            }
        }),
{
    let chars = scanned(raw);
    let classes = classes_of(chars);
    let span = spans_of(tokens)[index];
    assert(span == tokens[index].loc);
    assert(is_token_span(classes, span));
    assert forall|p: int| span.start_index <= p < span.end() implies class_of(#[trigger] chars[p]) == class_of(
        chars[span.start_index as int],
    ) && class_of(chars[p]) != CharClass::Space by {
        assert(classes[p] == classes[span.start_index as int]);
    }
}

/// Every punctuation character of a text is a token of its own, and every
/// other character that is not blank lies in a token.
pub proof fn lemma_characters_are_covered(language: Language, raw: Seq<char>, tokens: Seq<TokenView>, at: usize)
    requires
        is_tokenization(language, raw, tokens),
        at < raw.len() <= usize::MAX,
        class_of(scanned(raw)[at as int]) != CharClass::Space,
    ensures
        exists|i: int| 0 <= i < tokens.len() && (#[trigger] tokens[i]).loc.start_index <= at < tokens[i].loc.end(),
        class_of(scanned(raw)[at as int]) == CharClass::Punct ==> exists|i: int|
            0 <= i < tokens.len() && (#[trigger] tokens[i]).loc == (Loc { start_index: at, len: 1 }),
{
    let classes = classes_of(scanned(raw));
    let spans = spans_of(tokens);
    lemma_covered(classes, spans, at);
    let i = choose|i: int| 0 <= i < spans.len() && (#[trigger] spans[i]).start_index <= at < spans[i].end();
    assert(tokens[i].loc == spans[i]);
    if classes[at as int] == CharClass::Punct {
        lemma_punctuation_alone(classes, spans, at);
        let j = choose|j: int| 0 <= j < spans.len() && spans[j] == (Loc { start_index: at, len: 1 });
        assert(tokens[j].loc == spans[j]);
    }
}

/// The tokens stand by ascending start and none reaches into the next.
pub open spec fn spans_ordered(tokens: Seq<TokenView>) -> bool {
    forall|i: int, j: int|
        0 <= i < j < tokens.len() ==> (#[trigger] tokens[i]).loc.start_index <= (#[trigger] tokens[j]).loc.start_index
            && tokens[i].loc.end() <= tokens[j].loc.start_index
}

/// Cuts `msg` into tokens. The text is put in lower case and segmented, and
/// each stretch is brought to its normal form in `language`. Where the lower
/// case has another number of characters than `msg`, `msg` itself is
/// segmented and each stretch is put in lower case by itself, so that the
/// places are always places in `msg`.
pub fn tokenize(language: Language, msg: &str) -> (tokens: Vec<Token>)
    ensures
        is_tokenization(language, msg@, token_views(tokens@)),
        token_views(tokens@) == tokenized(language, msg@),
        spans_ordered(token_views(tokens@)),
        spans_within(msg@, token_views(tokens@)),
{
    let raw = chars_of(msg);
    let lowered_text = msg.to_lowercase();
    let lowered = chars_of(lowered_text.as_str());
    let whole = lowered.len() == raw.len();
    let chars = if whole {
        lowered
    } else {
        raw
    };
    assert(chars@ == scanned(msg@));
    let mut classes: Vec<CharClass> = Vec::new();
    let mut at: usize = 0;
    while at < chars.len()
        invariant
            at <= chars@.len(),
            classes@ == classes_of(chars@.take(at as int)),
        decreases chars@.len() - at,
    {
        classes.push(classify(chars[at]));
        at += 1;
        assert(classes@ =~= classes_of(chars@.take(at as int)));
    }
    assert(chars@.take(at as int) =~= chars@);
    let spans = segment(classes.as_slice());
    let mut tokens: Vec<Token> = Vec::new();
    let mut done: usize = 0;
    while done < spans.len()
        invariant
            done <= spans@.len(),
            whole == keeps_length(msg@),
            chars@ == scanned(msg@),
            classes@ == classes_of(chars@),
            classes@.len() == chars@.len() == chars.len(),
            is_segmentation(classes@, spans@),
            tokens@.len() == done,
            forall|i: int|
                0 <= i < done ==> (#[trigger] tokens@[i])@ == (TokenView {
                    val: stemmed(language, lowered_at(msg@, spans@[i])),
                    loc: spans@[i],
                    meta: Map::empty(),
                }),
        decreases spans@.len() - done,
    {
        let span = spans[done];
        assert(is_token_span(classes@, span));
        let mut builder = TokenBuilder::new(span.start_index);
        let mut taken: usize = 0;
        while taken < span.len
            invariant
                taken <= span.len,
                span.end() <= chars@.len() <= usize::MAX,
                builder.start_index == span.start_index,
                builder.len == taken,
                builder.token@ == chars@.subrange(span.start_index as int, span.start_index + taken),
            decreases span.len - taken,
        {
            builder.add_symbol(chars[span.start_index + taken]);
            taken += 1;
            assert(builder.token@ =~= chars@.subrange(span.start_index as int, span.start_index + taken));
        }
        assert(builder.token@ == source_text(chars@, span));
        let token = if whole {
            builder.done(language)
        } else {
            let stretch = builder.token.as_str().to_lowercase();
            Token::new(stem_word(language, stretch.as_str()), Loc::new(builder.start_index, builder.len))
        };
        tokens.push(token);
        done += 1;
    }
    proof {
        let views = token_views(tokens@);
        assert(spans_of(views) =~= spans@);
        assert(is_tokenization(language, msg@, views));
        lemma_tokenization_unique(language, msg@, views, tokenized(language, msg@));
        lemma_tokenization_ordered(language, msg@, views);
        if views.len() > 0 {
            lemma_token_in_text(language, msg@, views, 0);
        }
    }
    tokens
}

/// Two sentences have the same raw text and the same tokens at the same
/// places; they differ at most in what is attached to the tokens.
pub open spec fn same_text(a: SentenceView, b: SentenceView) -> bool {
    &&& a.raw == b.raw
    &&& a.tokens.len() == b.tokens.len()
    &&& forall|i: int|
        0 <= i < a.tokens.len() ==> (#[trigger] a.tokens[i]).val == b.tokens[i].val && a.tokens[i].loc
            == b.tokens[i].loc
}

/// Tokens that keep their places keep their order, and stay within the
/// text.
pub proof fn lemma_same_text_ordered(a: SentenceView, b: SentenceView)
    requires
        same_text(a, b),
    ensures
        spans_ordered(a.tokens) ==> spans_ordered(b.tokens),
        spans_within(a.raw, a.tokens) ==> spans_within(b.raw, b.tokens),
{
    if spans_ordered(a.tokens) {
        assert forall|i: int, j: int| 0 <= i < j < b.tokens.len() implies (
        #[trigger] b.tokens[i]).loc.start_index <= (#[trigger] b.tokens[j]).loc.start_index
            && b.tokens[i].loc.end() <= b.tokens[j].loc.start_index by {
            assert(a.tokens[i].loc == b.tokens[i].loc);
            assert(a.tokens[j].loc == b.tokens[j].loc);
        }
    }
    if spans_within(a.raw, a.tokens) {
        assert forall|i: int| 0 <= i < b.tokens.len() implies (#[trigger] b.tokens[i]).loc.len >= 1
            && b.tokens[i].loc.end() <= b.raw.len() by {
            assert(a.tokens[i].loc == b.tokens[i].loc);
        }
    }
}

/// A stage of the pipeline. It annotates the tokens of a sentence, or vetoes
/// the run; it may learn from a sentence that was accepted.
pub trait Enricher: Sized {
    /// What the stage makes of a sentence: the annotated sentence, or the
    /// error with which it gives up. A stage that is not proved need not say
    /// what it is.
    open spec fn enriched(&self, sentence: SentenceView) -> Result<SentenceView, ErrorView> {
        arbitrary()
    }

    /// Whether a stage that has taken `sentence` in, with the outcome
    /// `outcome`, may have become `after`. A stage that is not proved need
    /// not say so.
    open spec fn learned(&self, sentence: SentenceView, after: &Self, outcome: Result<(), ErrorView>) -> bool {
        true
    }

    /// Annotates the tokens of `sentence`. Text and places stay as they are.
    fn enrich(&self, sentence: &mut Sentence) -> (outcome: Result<(), Error>)
        ensures
            same_text(old(sentence)@, final(sentence)@),
            match self.enriched(old(sentence)@) {
                Ok(after) => outcome is Ok && final(sentence)@ == after,
                Err(error) => outcome_view(outcome) == Err::<(), ErrorView>(error),
            },
    ;

    /// Takes in a sentence whose annotations were accepted.
    fn update(&mut self, sentence: &Sentence) -> (outcome: Result<(), Error>)
        ensures
            old(self).learned(sentence@, final(self), outcome_view(outcome)),
    ;
}

/// What the stages make of a sentence, one after the other: the first that
/// gives up ends the run with its error.
pub open spec fn run_stages<E: Enricher>(stages: Seq<E>, sentence: SentenceView) -> Result<
    SentenceView,
    ErrorView,
>
    decreases stages.len(),
{
    if stages.len() == 0 {
        Ok(sentence)
    } else {
        match stages[0].enriched(sentence) {
            Ok(next) => run_stages(stages.drop_first(), next),
            Err(error) => Err(error),
        }
    }
}

/// `after` is what the stages `before` may have become by taking `sentence`
/// in, one after the other: with `Ok` each has learned; with an error the
/// stages before the one that failed have learned, and those behind it are
/// as they were.
pub open spec fn stages_learned<E: Enricher>(
    before: Seq<E>,
    sentence: SentenceView,
    after: Seq<E>,
    outcome: Result<(), ErrorView>,
) -> bool {
    &&& after.len() == before.len()
    &&& match outcome {
        Ok(()) => forall|i: int|
            0 <= i < before.len() ==> (#[trigger] before[i]).learned(sentence, &after[i], Ok(())),
        Err(error) => exists|failed: int|
            {
                &&& 0 <= failed < before.len()
                &&& forall|i: int|
                    0 <= i < failed ==> (#[trigger] before[i]).learned(sentence, &after[i], Ok(()))
                &&& (#[trigger] before[failed]).learned(sentence, &after[failed], Err(error))
                &&& forall|i: int| failed < i < before.len() ==> #[trigger] after[i] == before[i]
            },
    }
}

/// Two stages run as one: the first, and on what it hands on the second.
/// With it stages of different kinds stand in one pipeline.
pub struct Chain<A: Enricher, B: Enricher> {
    pub first: A,
    pub second: B,
}

impl<A: Enricher, B: Enricher> Chain<A, B> {
    /// `first`, then `second`.
    pub fn new(first: A, second: B) -> (chain: Chain<A, B>)
        ensures
            chain == (Chain { first, second }),
    {
        Chain { first, second }
    }
}

impl<A: Enricher, B: Enricher> Enricher for Chain<A, B> {
    /// What the second stage makes of what the first has made; the error of
    /// the first to give up.
    open spec fn enriched(&self, sentence: SentenceView) -> Result<SentenceView, ErrorView> {
        match self.first.enriched(sentence) {
            Ok(next) => self.second.enriched(next),
            Err(error) => Err(error),
        }
    }

    /// Both have learned; or the first has failed and the second is as it
    /// was; or the first has learned and the second has failed.
    open spec fn learned(&self, sentence: SentenceView, after: &Self, outcome: Result<(), ErrorView>) -> bool {
        match outcome {
            Ok(()) => self.first.learned(sentence, &after.first, Ok(())) && self.second.learned(
                sentence,
                &after.second,
                Ok(()),
            ),
            Err(error) => {
                ||| self.first.learned(sentence, &after.first, Err(error)) && after.second == self.second
                ||| self.first.learned(sentence, &after.first, Ok(())) && self.second.learned(
                    sentence,
                    &after.second,
                    Err(error),
                )
            },
        }
    }

    fn enrich(&self, sentence: &mut Sentence) -> (outcome: Result<(), Error>) {
        match self.first.enrich(sentence) {
            Ok(()) => self.second.enrich(sentence),
            Err(error) => Err(error),
        }
    }

    fn update(&mut self, sentence: &Sentence) -> (outcome: Result<(), Error>) {
        match self.first.update(sentence) {
            Ok(()) => self.second.update(sentence),
            Err(error) => Err(error),
        }
    }
}

/// A chain in a pipeline does what its two stages do one after the other.
pub proof fn lemma_chain_runs_both<A: Enricher, B: Enricher>(chain: Chain<A, B>, sentence: SentenceView)
    ensures
        run_stages(seq![chain], sentence) == match chain.first.enriched(sentence) {
            Ok(next) => chain.second.enriched(next),
            Err(error) => Err(error),
        },
{
    let stages = seq![chain];
    assert(stages[0] == chain);
    assert(stages.drop_first().len() == 0);
    match chain.enriched(sentence) {
        Ok(next) => {
            assert(run_stages(stages.drop_first(), next) == Ok::<SentenceView, ErrorView>(next));
        },
        Err(_) => {},
    }
}

/// A tokenizer with its stages.
pub struct Service<E: Enricher> {
    language: Language,
    pipeline: Vec<E>,
}

impl<E: Enricher> Service<E> {
    /// The language in which the tokenizer stems.
    pub closed spec fn language(&self) -> Language {
        self.language
    }

    /// The stages, in the order in which they run.
    pub closed spec fn stages(&self) -> Seq<E> {
        self.pipeline@
    }

    /// A service that stems with `language` and has no stages yet.
    pub fn new(language: Language) -> (service: Self)
        ensures
            service.language() == language,
            service.stages() == Seq::<E>::empty(),
    {
        Service { language, pipeline: Vec::new() }
    }

    /// Registers `enricher` as the last stage.
    pub fn add_enricher(&mut self, enricher: E)
        ensures
            final(self).language() == old(self).language(),
            final(self).stages() == old(self).stages().push(enricher),
    {
        self.pipeline.push(enricher);
    }

    /// The number of stages.
    pub fn len(&self) -> (n: usize)
        ensures
            n == self.stages().len(),
    {
        self.pipeline.len()
    }

    /// The stage at `index`, counted in the order of registration.
    pub fn stage(&self, index: usize) -> (stage: &E)
        requires
            index < self.stages().len(),
        ensures
            *stage == self.stages()[index as int],
    {
        &self.pipeline[index]
    }

    /// The stage at `index`, open to change; the other stages stay as they
    /// are.
    pub fn stage_mut(&mut self, index: usize) -> (stage: &mut E)
        requires
            index < old(self).stages().len(),
        ensures
            *stage == old(self).stages()[index as int],
            final(self).language() == old(self).language(),
            final(self).stages() == old(self).stages().update(index as int, *final(stage)),
    {
        &mut self.pipeline[index]
    }

    /// The tokens of `msg`.
    pub fn tokenize(&self, msg: &str) -> (tokens: Vec<Token>)
        ensures
            is_tokenization(self.language(), msg@, token_views(tokens@)),
            token_views(tokens@) == tokenized(self.language(), msg@),
            spans_ordered(token_views(tokens@)),
            spans_within(msg@, token_views(tokens@)),
    {
        tokenize(self.language, msg)
    }

    /// Cuts `msg` into tokens and lets every stage annotate them, in the
    /// order of registration. The first stage that gives up ends the run,
    /// and nothing of the sentence is handed out.
    pub fn sentence(&self, msg: String) -> (outcome: Result<Sentence, Error>)
        ensures
            is_tokenization(self.language(), msg@, tokenized(self.language(), msg@)),
            match run_stages(
                self.stages(),
                SentenceView { raw: msg@, tokens: tokenized(self.language(), msg@) },
            ) {
                Ok(annotated) => outcome matches Ok(sentence) && sentence@ == annotated,
                Err(error) => outcome matches Err(e) && e@ == error,
            },
            outcome matches Ok(sentence) ==> same_text(
                SentenceView { raw: msg@, tokens: tokenized(self.language(), msg@) },
                sentence@,
            ) && spans_ordered(sentence@.tokens) && spans_within(msg@, sentence@.tokens),
    {
        let tokens = self.tokenize(msg.as_str());
        let mut sentence = Sentence::new(msg, tokens);
        let ghost start = sentence@;
        assert(self.pipeline@.skip(0) =~= self.pipeline@);
        let mut at: usize = 0;
        while at < self.pipeline.len()
            invariant
                at <= self.pipeline@.len(),
                start == (SentenceView { raw: msg@, tokens: tokenized(self.language(), msg@) }),
                is_tokenization(self.language(), msg@, start.tokens),
                spans_ordered(start.tokens),
                spans_within(start.raw, start.tokens),
                same_text(start, sentence@),
                run_stages(self.pipeline@.skip(at as int), sentence@) == run_stages(self.stages(), start),
            decreases self.pipeline@.len() - at,
        {
            let ghost rest = self.pipeline@.skip(at as int);
            let ghost current = sentence@;
            assert(rest[0] == self.pipeline@[at as int]);
            assert(rest.drop_first() =~= self.pipeline@.skip(at + 1));
            match self.pipeline[at].enrich(&mut sentence) {
                Ok(()) => {
                    assert(run_stages(rest, current) == run_stages(rest.drop_first(), sentence@));
                },
                Err(error) => {
                    assert(run_stages(rest, current) == Err::<SentenceView, ErrorView>(error@));
                    return Err(error);
                },
            }
            at += 1;
        }
        proof {
            assert(self.pipeline@.skip(at as int).len() == 0);
            lemma_same_text_ordered(start, sentence@);
        }
        Ok(sentence)
    }

    /// Lets every stage take in a sentence whose annotations were accepted,
    /// in the order of registration. The first stage that fails ends the
    /// round; what earlier stages have learned stays.
    pub fn back_propagation(&mut self, sentence: Sentence) -> (outcome: Result<(), Error>)
        ensures
            final(self).language() == old(self).language(),
            stages_learned(old(self).stages(), sentence@, final(self).stages(), outcome_view(outcome)),
    {
        let ghost before = self.pipeline@;
        let mut at: usize = 0;
        while at < self.pipeline.len()
            invariant
                at <= self.pipeline@.len(),
                self.pipeline@.len() == before.len(),
                before == old(self).stages(),
                self.language == old(self).language,
                forall|i: int| 0 <= i < at ==> (#[trigger] before[i]).learned(sentence@, &self.pipeline@[i], Ok(())),
                forall|i: int| at <= i < before.len() ==> #[trigger] self.pipeline@[i] == before[i],
            decreases self.pipeline@.len() - at,
        {
            let ghost prior = self.pipeline@;
            let stage = &mut self.pipeline[at];
            let outcome = stage.update(&sentence);
            proof {
                assert(self.pipeline@ =~= prior.update(at as int, self.pipeline@[at as int]));
                assert(before[at as int].learned(sentence@, &self.pipeline@[at as int], outcome_view(outcome)));
                assert forall|i: int| 0 <= i < at implies (#[trigger] before[i]).learned(
                    sentence@,
                    &self.pipeline@[i],
                    Ok(()),
                ) by {
                    assert(self.pipeline@[i] == prior[i]);
                }
                assert forall|i: int| at < i < before.len() implies #[trigger] self.pipeline@[i] == before[i] by {
                    assert(self.pipeline@[i] == prior[i]);
                }
            }
            match outcome {
                Ok(()) => {},
                Err(error) => {
                    return Err(error);
                },
            }
            at += 1;
        }
        Ok(())
    }
}

} // verus!
