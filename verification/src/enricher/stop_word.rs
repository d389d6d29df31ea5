//! Stop words: a token whose text is in the dictionary is flagged, or ends
//! the run; flags that were accepted teach the dictionary.

use crate::dictionary::Dictionary;
use crate::error::{outcome_view, Error, ErrorView, StopWordError};
use crate::sentence::{source_text, Loc, Meta, Sentence, SentenceView, TokenView};
use crate::service::{run_stages, same_text, Enricher};
use vstd::prelude::*;

verus! {

/// Under this name a token is flagged as a stop word.
pub const STOP_WORD: &'static str = "stop_word";

/// Whether some token's text is among `words`.
pub open spec fn has_stop(words: Set<Seq<char>>, tokens: Seq<TokenView>) -> bool {
    exists|i: int| 0 <= i < tokens.len() && words.contains(#[trigger] tokens[i].val)
}

/// Whether the token at `index` is the first whose text is among `words`.
pub open spec fn is_first_stop(words: Set<Seq<char>>, tokens: Seq<TokenView>, index: int) -> bool {
    &&& 0 <= index < tokens.len()
    &&& words.contains(tokens[index].val)
    &&& forall|i: int| 0 <= i < index ==> !words.contains(#[trigger] tokens[i].val)
}

/// The place of the first token whose text is among `words`.
pub open spec fn first_stop(words: Set<Seq<char>>, tokens: Seq<TokenView>) -> int {
    choose|index: int| is_first_stop(words, tokens, index)
}

/// The sentence with a flag on each of the first `done` tokens whose text is
/// among `words`.
pub open spec fn stops_marked(words: Set<Seq<char>>, sentence: SentenceView, done: int) -> SentenceView {
    SentenceView {
        raw: sentence.raw,
        tokens: Seq::new(
            sentence.tokens.len(),
            |index: int|
                if index < done && words.contains(sentence.tokens[index].val) {
                    TokenView {
                        meta: sentence.tokens[index].meta.insert(STOP_WORD@, Meta::Bool(true)),
                        ..sentence.tokens[index]
                    }
                } else {
                    sentence.tokens[index]
                },
        ),
    }
}

/// The sentence with a flag on each token whose text is among `words`.
pub open spec fn stop_flagged(words: Set<Seq<char>>, sentence: SentenceView) -> SentenceView {
    stops_marked(words, sentence, sentence.tokens.len() as int)
}

/// What the stage makes of a sentence. Where it is to give up on a stop word
/// and there is one, the error bears the first one as it stands in the raw
/// text; else every stop word is flagged.
pub open spec fn stop_enriched(words: Set<Seq<char>>, abort: bool, sentence: SentenceView) -> Result<
    SentenceView,
    ErrorView,
> {
    if abort && has_stop(words, sentence.tokens) {
        Err(
            ErrorView::StopWord(
                source_text(sentence.raw, sentence.tokens[first_stop(words, sentence.tokens)].loc),
            ),
        )
    } else {
        Ok(stop_flagged(words, sentence))
    }
}

/// The flagged tokens among the first `upto`, in their order: each with its
/// place among the tokens and its text as it stands in the raw sentence.
pub open spec fn stops_upto(sentence: SentenceView, upto: int) -> Seq<(Loc, Seq<char>)>
    decreases upto,
{
    if upto <= 0 {
        Seq::empty()
    } else if sentence.tokens[upto - 1].meta.contains_key(STOP_WORD@) {
        stops_upto(sentence, upto - 1).push(
            (
                Loc { start_index: (upto - 1) as usize, len: 1 },
                source_text(sentence.raw, sentence.tokens[upto - 1].loc),
            ),
        )
    } else {
        stops_upto(sentence, upto - 1)
    }
}

/// The flagged tokens of a sentence.
pub open spec fn stops_of(sentence: SentenceView) -> Seq<(Loc, Seq<char>)> {
    stops_upto(sentence, sentence.tokens.len() as int)
}

/// What `extract` hands out, with the texts as character sequences.
pub open spec fn stops_view(stops: Seq<(Loc, String)>) -> Seq<(Loc, Seq<char>)> {
    stops.map_values(|stop: (Loc, String)| (stop.0, stop.1@))
}

/// The texts of the flagged tokens among the first `upto`.
pub open spec fn flagged_words(sentence: SentenceView, upto: int) -> Set<Seq<char>> {
    Set::new(
        |word: Seq<char>|
            exists|i: int|
                0 <= i < upto && i < sentence.tokens.len() && sentence.tokens[i].meta.contains_key(STOP_WORD@)
                    && #[trigger] sentence.tokens[i].val == word,
    )
}

/// The texts of the flagged tokens of a sentence.
pub open spec fn accepted_words(sentence: SentenceView) -> Set<Seq<char>> {
    flagged_words(sentence, sentence.tokens.len() as int)
}

/// The stage that knows stop words.
#[derive(Clone)]
pub struct StopWordEnricher<D: Dictionary> {
    dictionary: D,
    brake_on_stop_word: bool,
}

impl<D: Dictionary> StopWordEnricher<D> {
    /// The dictionary of the stage.
    pub closed spec fn dictionary(&self) -> D {
        self.dictionary
    }

    /// Whether the stage gives up on a stop word.
    pub closed spec fn aborts(&self) -> bool {
        self.brake_on_stop_word
    }

    /// A stage with the stop words of `dictionary`, which gives up on the
    /// first one where `brake_on_stop_word` is set, and flags them all where
    /// it is not.
    pub fn new(dictionary: D, brake_on_stop_word: bool) -> (stage: StopWordEnricher<D>)
        ensures
            stage.dictionary() == dictionary,
            stage.aborts() == brake_on_stop_word,
    {
        StopWordEnricher { dictionary, brake_on_stop_word }
    }

    /// The flagged tokens of `sentence`, in their order: each with its place
    /// among the tokens and its text as it stands in the raw sentence.
    pub fn extract(sentence: &Sentence) -> (stops: Vec<(Loc, String)>)
        ensures
            stops_view(stops@) == stops_of(sentence@),
    {
        let mut stops: Vec<(Loc, String)> = Vec::new();
        let n = sentence.len();
        let mut index: usize = 0;
        while index < n
            invariant
                index <= n,
                n == sentence@.tokens.len(),
                stops_view(stops@) == stops_upto(sentence@, index as int),
            decreases n - index,
        {
            let token = sentence.token(index);
            if token.get_meta(STOP_WORD).is_some() {
                let ghost before = stops@;
                let loc = token.location();
                stops.push((Loc::new(index, 1), sentence.by_loc(&loc)));
                assert(stops_view(stops@) =~= stops_view(before).push(
                    (stops@[before.len() as int].0, stops@[before.len() as int].1@),
                ));
            }
            index += 1;
        }
        stops
    }

    /// Lets the dictionary read its store anew.
    pub fn sync(&mut self) -> (outcome: Result<(), Error>)
        ensures
            final(self).aborts() == old(self).aborts(),
            final(self).dictionary().retains() == old(self).dictionary().retains(),
            old(self).dictionary().synced(&final(self).dictionary(), outcome_view(outcome)),
    {
        self.dictionary.sync()
    }
}

impl<D: Dictionary> Enricher for StopWordEnricher<D> {
    open spec fn enriched(&self, sentence: SentenceView) -> Result<SentenceView, ErrorView> {
        stop_enriched(self.dictionary().words(), self.aborts(), sentence)
    }

    /// The flagged tokens' texts were offered to the dictionary in the order
    /// of the tokens, up to the first failure. The dictionary loses no word
    /// and gains none but those texts. Where nothing failed and the
    /// dictionary retains what it accepts, it holds them all; and nothing
    /// fails where the dictionary accepts. An error is the answer that the
    /// dictionary, as it was when the earlier flagged texts had been
    /// offered, gave for the text of a flagged token; no text of a later
    /// token has come in.
    open spec fn learned(&self, sentence: SentenceView, after: &Self, outcome: Result<(), ErrorView>) -> bool {
        let before = self.dictionary().words();
        let now = after.dictionary().words();
        &&& after.aborts() == self.aborts()
        &&& after.dictionary().retains() == self.dictionary().retains()
        &&& before.subset_of(now)
        &&& now.subset_of(before.union(accepted_words(sentence)))
        &&& outcome is Ok && self.dictionary().retains() ==> now == before.union(accepted_words(sentence))
        &&& self.dictionary().accepts() ==> outcome is Ok && after.dictionary().accepts()
        &&& outcome matches Err(error) ==> exists|failed: int, asked: D|
            {
                &&& 0 <= failed < sentence.tokens.len()
                &&& sentence.tokens[failed].meta.contains_key(STOP_WORD@)
                &&& #[trigger] asked.add_answer(sentence.tokens[failed].val) == Err::<bool, ErrorView>(error)
                &&& before.subset_of(asked.words())
                &&& asked.words().subset_of(before.union(flagged_words(sentence, failed)))
                &&& self.dictionary().retains() ==> asked.words() == before.union(
                    flagged_words(sentence, failed),
                )
                &&& asked.words().subset_of(now)
                &&& now.subset_of(asked.words().insert(sentence.tokens[failed].val))
            }
    }

    /// Looks every token's text up in the dictionary, in the order of the
    /// tokens.
    fn enrich(&self, sentence: &mut Sentence) -> (outcome: Result<(), Error>)
        ensures
            outcome is Err ==> final(sentence)@ == old(sentence)@,
    {
        let ghost before = sentence@;
        let ghost words = self.dictionary.words();
        let n = sentence.len();
        let mut index: usize = 0;
        assert(sentence@.tokens =~= stops_marked(words, before, 0).tokens);
        while index < n
            invariant
                index <= n,
                n == before.tokens.len(),
                words == self.dictionary.words(),
                before == old(sentence)@,
                sentence@ == stops_marked(words, before, index as int),
                self.brake_on_stop_word ==> sentence@ == before && forall|i: int|
                    0 <= i < index ==> !words.contains(#[trigger] before.tokens[i].val),
            decreases n - index,
        {
            if self.dictionary.contains(sentence.token(index).value()) {
                if self.brake_on_stop_word {
                    let loc = sentence.token(index).location();
                    let stop_word = sentence.by_loc(&loc);
                    proof {
                        assert(is_first_stop(words, before.tokens, index as int));
                        let first = first_stop(words, before.tokens);
                        assert(is_first_stop(words, before.tokens, first));
                        assert(first == index);
                    }
                    return Err(Error::StopWord(StopWordError { stop_word }));
                }
                sentence.annotate(index, STOP_WORD, Meta::Bool(true));
            }
            index += 1;
            assert(sentence@.tokens =~= stops_marked(words, before, index as int).tokens);
        }
        proof {
            assert(same_text(before, sentence@));
            if self.brake_on_stop_word {
                assert(!has_stop(words, before.tokens));
            }
        }
        Ok(())
    }

    /// Adds the text of every flagged token to the dictionary, in the order
    /// of the tokens, up to the first failure.
    fn update(&mut self, sentence: &Sentence) -> (outcome: Result<(), Error>) {
        let ghost before = self.dictionary.words();
        let n = sentence.len();
        let mut index: usize = 0;
        assert(before.union(flagged_words(sentence@, 0)) =~= before);
        while index < n
            invariant
                index <= n,
                n == sentence@.tokens.len(),
                before == old(self).dictionary.words(),
                self.brake_on_stop_word == old(self).brake_on_stop_word,
                self.dictionary.retains() == old(self).dictionary.retains(),
                old(self).dictionary.accepts() ==> self.dictionary.accepts(),
                before.subset_of(self.dictionary.words()),
                self.dictionary.words().subset_of(before.union(flagged_words(sentence@, index as int))),
                self.dictionary.retains() ==> self.dictionary.words() == before.union(
                    flagged_words(sentence@, index as int),
                ),
            decreases n - index,
        {
            let token = sentence.token(index);
            let ghost asked = self.dictionary;
            let ghost had = self.dictionary.words();
            let ghost text = token@.val;
            proof {
                lemma_flagged_words_step(sentence@, index as int);
            }
            if token.get_meta(STOP_WORD).is_some() {
                match self.dictionary.add(token.value().to_owned()) {
                    Ok(_) => {
                        assert(self.dictionary.retains() ==> self.dictionary.words() =~= had.insert(text));
                    },
                    Err(error) => {
                        proof {
                            lemma_flagged_words_grow(sentence@, index + 1, n as int);
                            assert(sentence@.tokens[index as int].meta.contains_key(STOP_WORD@));
                            assert(asked.add_answer(sentence@.tokens[index as int].val) == Err::<bool, ErrorView>(
                                error@,
                            ));
                        }
                        return Err(error);
                    },
                }
            }
            index += 1;
            assert(self.dictionary.retains() ==> self.dictionary.words() =~= before.union(
                flagged_words(sentence@, index as int),
            ));
        }
        Ok(())
    }
}

/// One token more adds its text to the flagged words where it is flagged,
/// and nothing where it is not.
proof fn lemma_flagged_words_step(sentence: SentenceView, index: int)
    requires
        0 <= index < sentence.tokens.len(),
    ensures
        flagged_words(sentence, index + 1) == if sentence.tokens[index].meta.contains_key(STOP_WORD@) {
            flagged_words(sentence, index).insert(sentence.tokens[index].val)
        } else {
            flagged_words(sentence, index)
        },
{
    let more = flagged_words(sentence, index + 1);
    let less = flagged_words(sentence, index);
    let text = sentence.tokens[index].val;
    let flagged = sentence.tokens[index].meta.contains_key(STOP_WORD@);
    assert forall|word: Seq<char>| more.contains(word) <==> (less.contains(word) || (flagged && word == text)) by {
        if less.contains(word) {
            let i = choose|i: int|
                0 <= i < index && i < sentence.tokens.len() && sentence.tokens[i].meta.contains_key(STOP_WORD@)
                    && #[trigger] sentence.tokens[i].val == word;
            assert(0 <= i < index + 1 && sentence.tokens[i].val == word);
        }
        if flagged && word == text {
            assert(sentence.tokens[index].val == word);
        }
    }
    if flagged {
        assert(more =~= less.insert(text));
    } else {
        assert(more =~= less);
    }
}

/// The flagged words of more tokens include those of fewer.
proof fn lemma_flagged_words_grow(sentence: SentenceView, fewer: int, more: int)
    requires
        fewer <= more,
    ensures
        flagged_words(sentence, fewer).subset_of(flagged_words(sentence, more)),
{
    assert forall|word: Seq<char>| flagged_words(sentence, fewer).contains(word) implies flagged_words(
        sentence,
        more,
    ).contains(word) by {
        let i = choose|i: int|
            0 <= i < fewer && i < sentence.tokens.len() && sentence.tokens[i].meta.contains_key(STOP_WORD@)
                && #[trigger] sentence.tokens[i].val == word;
        assert(0 <= i < more && sentence.tokens[i].val == word);
    }
}

/// A stage that gives up on stop words ends the run on every sentence that
/// holds a token whose text is in its dictionary: alone in a pipeline, it
/// makes the pipeline fail.
pub proof fn lemma_stop_word_vetoes<D: Dictionary>(stage: StopWordEnricher<D>, sentence: SentenceView, index: int)
    requires
        stage.aborts(),
        0 <= index < sentence.tokens.len(),
        stage.dictionary().words().contains(sentence.tokens[index].val),
    ensures
        stage.enriched(sentence) is Err,
        run_stages(seq![stage], sentence) is Err,
{
    assert(has_stop(stage.dictionary().words(), sentence.tokens));
    assert(seq![stage][0] == stage);
}

/// A token bears a flag after the stage has run exactly where it bore one
/// before or its text is among the words.
pub proof fn lemma_flags_after_enrich(words: Set<Seq<char>>, sentence: SentenceView, index: int)
    requires
        0 <= index < sentence.tokens.len(),
    ensures
        stop_flagged(words, sentence).tokens[index].meta.contains_key(STOP_WORD@) <==> sentence.tokens[index].meta.contains_key(
            STOP_WORD@,
        ) || words.contains(sentence.tokens[index].val),
        same_text(sentence, stop_flagged(words, sentence)),
{
}

/// The tokens among the first `upto` whose text is among `words`, in their
/// order: each with its place among the tokens and its text as it stands in
/// the raw sentence.
pub open spec fn stops_found(words: Set<Seq<char>>, sentence: SentenceView, upto: int) -> Seq<(Loc, Seq<char>)>
    decreases upto,
{
    if upto <= 0 {
        Seq::empty()
    } else if words.contains(sentence.tokens[upto - 1].val) {
        stops_found(words, sentence, upto - 1).push(
            (
                Loc { start_index: (upto - 1) as usize, len: 1 },
                source_text(sentence.raw, sentence.tokens[upto - 1].loc),
            ),
        )
    } else {
        stops_found(words, sentence, upto - 1)
    }
}

proof fn lemma_stops_upto_after_enrich(words: Set<Seq<char>>, sentence: SentenceView, upto: int)
    requires
        0 <= upto <= sentence.tokens.len(),
        forall|i: int|
            0 <= i < sentence.tokens.len() ==> !(#[trigger] sentence.tokens[i]).meta.contains_key(STOP_WORD@),
    ensures
        stops_upto(stop_flagged(words, sentence), upto) == stops_found(words, sentence, upto),
    decreases upto,
{
    if upto > 0 {
        lemma_stops_upto_after_enrich(words, sentence, upto - 1);
        lemma_flags_after_enrich(words, sentence, upto - 1);
        assert(!sentence.tokens[upto - 1].meta.contains_key(STOP_WORD@));
    }
}

/// What is read back after the stage has flagged a sentence that bore no
/// flag: the tokens whose text is in the dictionary, and no others, in the
/// order of the tokens, each over its own place.
pub proof fn lemma_stops_after_enrich(words: Set<Seq<char>>, sentence: SentenceView)
    requires
        forall|i: int|
            0 <= i < sentence.tokens.len() ==> !(#[trigger] sentence.tokens[i]).meta.contains_key(STOP_WORD@),
    ensures
        stops_of(stop_flagged(words, sentence)) == stops_found(words, sentence, sentence.tokens.len() as int),
{
    lemma_stops_upto_after_enrich(words, sentence, sentence.tokens.len() as int);
}

/// What a stage has learned it flags. After the stage `before` has taken in
/// the sentence `accepted` without failure and has become `after`, with a
/// dictionary that retains what it accepts, `after` flags in any sentence
/// the tokens whose text was in the dictionary before or is the text of a
/// flagged token of `accepted`, and no others.
pub proof fn lemma_learned_words_are_flagged<D: Dictionary>(
    before: StopWordEnricher<D>,
    accepted: SentenceView,
    after: StopWordEnricher<D>,
    fresh: SentenceView,
)
    requires
        before.learned(accepted, &after, Ok(())),
        before.dictionary().retains(),
        !after.aborts(),
    ensures
        after.enriched(fresh) == Ok::<SentenceView, ErrorView>(
            stop_flagged(before.dictionary().words().union(accepted_words(accepted)), fresh),
        ),
{
}

proof fn lemma_same_stops(a: SentenceView, b: SentenceView, upto: int)
    requires
        same_text(a, b),
        0 <= upto <= a.tokens.len(),
        forall|i: int|
            0 <= i < a.tokens.len() ==> ((#[trigger] a.tokens[i]).meta.contains_key(STOP_WORD@)
                <==> b.tokens[i].meta.contains_key(STOP_WORD@)),
    ensures
        stops_upto(a, upto) == stops_upto(b, upto),
    decreases upto,
{
    if upto > 0 {
        lemma_same_stops(a, b, upto - 1);
        assert(a.tokens[upto - 1].loc == b.tokens[upto - 1].loc);
    }
}

/// Learning is owed. A stage whose dictionary accepts every word and
/// retains what it accepts takes a sentence in without failure, and holds
/// afterwards the words that it held and the text of every flagged token,
/// and no others; and it is again such a stage.
pub proof fn lemma_learning_is_owed<D: Dictionary>(
    before: StopWordEnricher<D>,
    accepted: SentenceView,
    after: StopWordEnricher<D>,
    outcome: Result<(), ErrorView>,
)
    requires
        before.learned(accepted, &after, outcome),
        before.dictionary().retains(),
        before.dictionary().accepts(),
    ensures
        outcome is Ok,
        after.dictionary().words() == before.dictionary().words().union(accepted_words(accepted)),
        after.dictionary().retains(),
        after.dictionary().accepts(),
        after.aborts() == before.aborts(),
{
}

/// The round trip of learning. A stage starts with an empty dictionary that
/// accepts every word and retains what it accepts; it takes in `accepted`,
/// in which tokens are flagged, and every token with the text of a flagged
/// one is flagged too. That does not fail; and run on `fresh`, a sentence of
/// the same text and tokens that bears no flag yet, the stage flags the same
/// tokens: what is read back from the result is what is read back from
/// `accepted`.
pub proof fn lemma_learning_round_trip<D: Dictionary>(
    before: StopWordEnricher<D>,
    accepted: SentenceView,
    after: StopWordEnricher<D>,
    outcome: Result<(), ErrorView>,
    fresh: SentenceView,
)
    requires
        before.learned(accepted, &after, outcome),
        before.dictionary().retains(),
        before.dictionary().accepts(),
        before.dictionary().words() == Set::<Seq<char>>::empty(),
        !before.aborts(),
        same_text(accepted, fresh),
        forall|i: int| 0 <= i < fresh.tokens.len() ==> !(#[trigger] fresh.tokens[i]).meta.contains_key(STOP_WORD@),
        forall|i: int, j: int|
            0 <= i < accepted.tokens.len() && 0 <= j < accepted.tokens.len() && (
            #[trigger] accepted.tokens[i]).meta.contains_key(STOP_WORD@) && accepted.tokens[i].val == (
            #[trigger] accepted.tokens[j]).val ==> accepted.tokens[j].meta.contains_key(STOP_WORD@),
    ensures
        outcome is Ok,
        after.enriched(fresh) is Ok,
        stops_of(after.enriched(fresh)->Ok_0) == stops_of(accepted),
{
    let words = before.dictionary().words().union(accepted_words(accepted));
    let flagged = stop_flagged(words, fresh);
    assert forall|i: int| 0 <= i < accepted.tokens.len() implies ((#[trigger] accepted.tokens[i]).meta.contains_key(
        STOP_WORD@,
    ) <==> flagged.tokens[i].meta.contains_key(STOP_WORD@)) by {
        lemma_flags_after_enrich(words, fresh, i);
        assert(accepted.tokens[i].val == fresh.tokens[i].val);
        if accepted.tokens[i].meta.contains_key(STOP_WORD@) {
            assert(accepted_words(accepted).contains(accepted.tokens[i].val));
        }
        if words.contains(fresh.tokens[i].val) {
            let j = choose|j: int|
                0 <= j < accepted.tokens.len() && j < accepted.tokens.len() && accepted.tokens[j].meta.contains_key(
                    STOP_WORD@,
                ) && #[trigger] accepted.tokens[j].val == fresh.tokens[i].val;
            assert(accepted.tokens[j].val == accepted.tokens[i].val);
        }
    }
    assert(same_text(accepted, flagged));
    lemma_same_stops(accepted, flagged, accepted.tokens.len() as int);
}

} // verus!
