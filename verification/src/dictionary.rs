//! Dictionaries: sets of words that can be asked, added to, and refreshed
//! from a store behind them.

use crate::error::{outcome_view, Error, ErrorView};
use crate::strmap::{has_key, place_of, StrMap};
use crate::text::lex_lt;
use vstd::prelude::*;

verus! {

/// The texts of a sequence of strings, as a set.
pub open spec fn strings_set(data: Seq<String>) -> Set<Seq<char>> {
    Set::new(|word: Seq<char>| exists|i: int| 0 <= i < data.len() && #[trigger] data[i]@ == word)
}

/// A set of words.
#[derive(PartialEq, Eq, Debug)]
pub struct WordSet {
    words: StrMap<()>,
}

impl View for WordSet {
    type V = Set<Seq<char>>;

    closed spec fn view(&self) -> Set<Seq<char>> {
        self.words@.dom()
    }
}

impl WordSet {
    /// The empty set.
    pub fn new() -> (set: WordSet)
        ensures
            set@ == Set::<Seq<char>>::empty(),
    {
        let set = WordSet { words: StrMap::new() };
        assert(set@ =~= Set::<Seq<char>>::empty());
        set
    }

    /// The set of the words of `data`.
    pub fn from_vec(data: Vec<String>) -> (set: WordSet)
        ensures
            set@ == strings_set(data@),
    {
        let mut data = data;
        let ghost all = data@;
        let mut set = WordSet::new();
        while data.len() > 0
            invariant
                data@.len() <= all.len(),
                data@ == all.take(data@.len() as int),
                forall|word: Seq<char>|
                    set@.contains(word) <==> exists|i: int|
                        data@.len() <= i < all.len() && #[trigger] all[i]@ == word,
            decreases data@.len(),
        {
            let ghost had = set@;
            let ghost rest = data@.len() - 1;
            let word = data.pop().unwrap();
            assert(word == all[rest]);
            set.insert(word);
            assert(data@ =~= all.take(rest));
            assert forall|other: Seq<char>| set@.contains(other) <==> exists|i: int|
                rest <= i < all.len() && #[trigger] all[i]@ == other by {
                if had.contains(other) {
                    let i = choose|i: int| rest + 1 <= i < all.len() && #[trigger] all[i]@ == other;
                    assert(rest <= i < all.len() && all[i]@ == other);
                }
            }
        }
        assert(set@ =~= strings_set(all));
        set
    }

    /// Whether `word` is in the set.
    pub fn contains(&self, word: &str) -> (found: bool)
        ensures
            found == self@.contains(word@),
    {
        self.words.contains_key(word)
    }

    /// Puts `word` into the set. The answer is `true` where the word is new
    /// to the set.
    pub fn insert(&mut self, word: String) -> (added: bool)
        ensures
            final(self)@ == old(self)@.insert(word@),
            added == !old(self)@.contains(word@),
    {
        let before = self.words.insert(word, ());
        assert(self@ =~= old(self)@.insert(word@));
        before.is_none()
    }

    /// The words in ascending order, each once.
    pub closed spec fn ascending(&self) -> Seq<Seq<char>> {
        self.words.entries().map_values(|entry: (String, ())| entry.0@)
    }

    /// The number of words. The words in ascending order are as many, they
    /// are the words of the set, and each precedes the next.
    pub fn len(&self) -> (n: usize)
        ensures
            self@.finite(),
            n == self@.len(),
            n == self.ascending().len(),
            forall|word: Seq<char>| self@.contains(word) <==> self.ascending().contains(word),
            forall|i: int, j: int|
                0 <= i < j < n ==> lex_lt(#[trigger] self.ascending()[i], #[trigger] self.ascending()[j]),
    {
        let n = self.words.len();
        proof {
            self.words.lemma_view();
            let entries = self.words.entries();
            let ascending = self.ascending();
            assert forall|word: Seq<char>| self@.contains(word) <==> ascending.contains(word) by {
                if has_key(entries, word) {
                    let at = place_of(entries, word);
                    assert(ascending[at] == word);
                }
                if ascending.contains(word) {
                    let at = choose|at: int| 0 <= at < ascending.len() && ascending[at] == word;
                    assert(entries[at].0@ == word);
                }
            }
            assert forall|i: int, j: int| 0 <= i < j < n implies lex_lt(
                #[trigger] ascending[i],
                #[trigger] ascending[j],
            ) by {
                assert(lex_lt(entries[i].0@, entries[j].0@));
            }
        }
        n
    }

    /// The word at `index`, counted in ascending order.
    pub fn word_at(&self, index: usize) -> (word: &str)
        requires
            index < self.ascending().len(),
        ensures
            word@ == self.ascending()[index as int],
    {
        self.words.key_at(index)
    }
}

impl Clone for WordSet {
    /// A set of the same words.
    fn clone(&self) -> (copy: WordSet)
        ensures
            copy@ == self@,
    {
        let copy = WordSet { words: self.words.clone() };
        proof {
            self.words.lemma_view();
            copy.words.lemma_view();
            let mine = self.words.entries();
            let theirs = copy.words.entries();
            assert forall|word: Seq<char>| copy@.contains(word) == self@.contains(word) by {
                if has_key(mine, word) {
                    let at = place_of(mine, word);
                    assert(theirs[at].0@ == word);
                }
                if has_key(theirs, word) {
                    let at = place_of(theirs, word);
                    assert(mine[at].0@ == word);
                }
            }
            assert(copy@ =~= self@);
        }
        copy
    }
}

/// What `add` answers on a dictionary that holds `words`: whether the word is
/// new to it.
pub open spec fn is_new_word(words: Set<Seq<char>>, word: Seq<char>) -> bool {
    !words.contains(word)
}

/// How the answer of `add` looks in contracts.
pub open spec fn answer_view(answer: Result<bool, Error>) -> Result<bool, ErrorView> {
    match answer {
        Ok(added) => Ok(added),
        Err(error) => Err(error@),
    }
}

/// A dictionary: a set of words held in memory, which answers for what the
/// dictionary contains, with or without a store behind it.
pub trait Dictionary: Sized + Clone + core::fmt::Debug {
    /// The words held in memory. A dictionary that is not proved need not
    /// say what they are.
    open spec fn words(&self) -> Set<Seq<char>> {
        arbitrary()
    }

    /// Whether a word that `add` has accepted is held from then on. A
    /// dictionary that is not proved promises nothing of the kind.
    open spec fn retains(&self) -> bool {
        false
    }

    /// Whether `add` takes every word without failure, now and after every
    /// word that it has taken. A dictionary that is not proved promises
    /// nothing of the kind.
    open spec fn accepts(&self) -> bool {
        false
    }

    /// What `add` answers for `word`, as the dictionary is now. A dictionary
    /// that is not proved need not say what it is.
    open spec fn add_answer(&self, word: Seq<char>) -> Result<bool, ErrorView> {
        arbitrary()
    }

    /// What `get_all` answers, as the dictionary is now: the words, or the
    /// error of the store. A dictionary that is not proved need not say what
    /// it is.
    open spec fn snapshot(&self) -> Result<Set<Seq<char>>, ErrorView> {
        arbitrary()
    }

    /// Whether a dictionary that was told to read its store anew, with the
    /// outcome `outcome`, may have become `after`. A dictionary that is not
    /// proved need not say so.
    open spec fn synced(&self, after: &Self, outcome: Result<(), ErrorView>) -> bool {
        true
    }

    /// Whether `word` is in the dictionary.
    fn contains(&self, word: &str) -> (found: bool)
        ensures
            found == self.words().contains(word@),
    ;

    /// Offers `word` to the dictionary. The answer is the one that
    /// `add_answer` names. No word is lost and none but `word` comes in; the
    /// answer `true` says that the word was not held and now is. A
    /// dictionary that accepts does not fail.
    fn add(&mut self, word: String) -> (outcome: Result<bool, Error>)
        ensures
            answer_view(outcome) == old(self).add_answer(word@),
            final(self).retains() == old(self).retains(),
            old(self).words().subset_of(final(self).words()),
            final(self).words().subset_of(old(self).words().insert(word@)),
            outcome matches Ok(added) ==> added == (is_new_word(old(self).words(), word@) && final(self).words().contains(word@)),
            outcome is Ok && old(self).retains() ==> final(self).words().contains(word@),
            old(self).accepts() ==> outcome is Ok && final(self).accepts(),
    ;

    /// Replaces the words in memory by those of the store, where there is
    /// one.
    fn sync(&mut self) -> (outcome: Result<(), Error>)
        ensures
            final(self).retains() == old(self).retains(),
            old(self).synced(final(self), outcome_view(outcome)),
    ;

    /// The words held in memory, as they are now, or the error that
    /// `snapshot` names.
    fn get_all(&self) -> (outcome: Result<WordSet, Error>)
        ensures
            match self.snapshot() {
                Ok(words) => outcome matches Ok(all) && all@ == words && words == self.words(),
                Err(error) => outcome matches Err(e) && e@ == error,
            },
    ;
}

/// What `add` makes of the dictionary `before`, with the answer `outcome`:
/// what every dictionary promises of it.
pub open spec fn was_added<D: Dictionary>(
    before: D,
    word: Seq<char>,
    after: D,
    outcome: Result<bool, Error>,
) -> bool {
    &&& answer_view(outcome) == before.add_answer(word)
    &&& after.retains() == before.retains()
    &&& before.words().subset_of(after.words())
    &&& after.words().subset_of(before.words().insert(word))
    &&& outcome matches Ok(added) ==> added == (is_new_word(before.words(), word) && after.words().contains(
        word,
    ))
    &&& outcome is Ok && before.retains() ==> after.words().contains(word)
    &&& before.accepts() ==> outcome is Ok && after.accepts()
}

/// What a dictionary answers for a new word that it has handed on to its
/// store: that the word is new, or the store's error.
pub open spec fn spec_write_through(store: Result<bool, Error>) -> Result<bool, Error> {
    match store {
        Ok(_) => Ok(true),
        Err(error) => Err(error),
    }
}

/// What a dictionary answers for a new word that it has handed on to its
/// store.
#[verifier::when_used_as_spec(spec_write_through)]
pub fn write_through(store: Result<bool, Error>) -> (outcome: Result<bool, Error>)
    ensures
        outcome == spec_write_through(store),
{
    match store {
        Ok(_) => Ok(true),
        Err(error) => Err(error),
    }
}

/// A dictionary has handed a new word on to its store `before`, which has
/// become `after`, and answers `outcome`. The store was offered the word:
/// it has become what its `add` makes of it, with the answer that its
/// `add_answer` names. Where that answer is an error, it is the outcome;
/// else the outcome is that the word is new.
pub open spec fn written_through<D: Dictionary>(
    before: D,
    word: Seq<char>,
    after: D,
    outcome: Result<bool, Error>,
) -> bool {
    match before.add_answer(word) {
        Ok(added) => outcome == Ok::<bool, Error>(true) && was_added(before, word, after, Ok(added)),
        Err(error) => outcome is Err && was_added(before, word, after, outcome),
    }
}

/// What `sync` holds and returns once the store has answered: the store's
/// words in place of those held, or the words held and the store's error.
pub fn refreshed(current: WordSet, snapshot: Result<WordSet, Error>) -> (out: (WordSet, Result<(), Error>))
    ensures
        match snapshot {
            Ok(all) => out.0@ == all@ && out.1 == Ok::<(), Error>(()),
            Err(error) => out.0@ == current@ && out.1 == Err::<(), Error>(error),
        },
{
    match snapshot {
        Ok(all) => (all, Ok(())),
        Err(error) => (current, Err(error)),
    }
}

/// A set of words in memory, with or without a dictionary behind it as its
/// store. The set in memory answers for what the dictionary contains; a new
/// word is written through to the store, and `sync` reads the store anew.
#[derive(Debug, Clone)]
pub struct LocalDictionary<D: Dictionary> {
    dictionary: WordSet,
    inner: Option<D>,
}

impl<D: Dictionary> LocalDictionary<D> {
    /// The store behind the dictionary, if it has one.
    pub closed spec fn inner(&self) -> Option<D> {
        self.inner
    }

    /// A dictionary of the words of `data`, without a store.
    pub fn new(data: Vec<String>) -> (dictionary: LocalDictionary<D>)
        ensures
            dictionary.words() == strings_set(data@),
            dictionary.inner() is None,
    {
        LocalDictionary { dictionary: WordSet::from_vec(data), inner: None }
    }

    /// An empty dictionary before the store `inner`.
    pub fn with_inner(inner: D) -> (dictionary: LocalDictionary<D>)
        ensures
            dictionary.words() == Set::<Seq<char>>::empty(),
            dictionary.inner() == Some(inner),
    {
        LocalDictionary { dictionary: WordSet::new(), inner: Some(inner) }
    }
}

impl<D: Dictionary> Dictionary for LocalDictionary<D> {
    closed spec fn words(&self) -> Set<Seq<char>> {
        self.dictionary@
    }

    open spec fn retains(&self) -> bool {
        true
    }

    /// The dictionary itself never fails; it accepts where its store does.
    open spec fn accepts(&self) -> bool {
        match self.inner() {
            None => true,
            Some(store) => store.accepts(),
        }
    }

    /// A word that is held is not new. A new word is new, unless there is a
    /// store and it fails: then the answer is the store's error.
    open spec fn add_answer(&self, word: Seq<char>) -> Result<bool, ErrorView> {
        if !is_new_word(self.words(), word) {
            Ok(false)
        } else {
            match self.inner() {
                None => Ok(true),
                Some(store) => match store.add_answer(word) {
                    Ok(_) => Ok(true),
                    Err(error) => Err(error),
                },
            }
        }
    }

    /// The words held, always.
    open spec fn snapshot(&self) -> Result<Set<Seq<char>>, ErrorView> {
        Ok(self.words())
    }

    /// Without a store nothing changes and nothing fails. With one, the
    /// outcome is decided by what the store's `get_all` answers: its words
    /// replace those held, or its error is returned and the words held stay.
    /// The store itself stays as it is.
    open spec fn synced(&self, after: &Self, outcome: Result<(), ErrorView>) -> bool {
        &&& after.inner() == self.inner()
        &&& match self.inner() {
            None => outcome is Ok && after.words() == self.words(),
            Some(store) => match store.snapshot() {
                Ok(words) => outcome is Ok && after.words() == words,
                Err(error) => outcome == Err::<(), ErrorView>(error) && after.words() == self.words(),
            },
        }
    }

    fn contains(&self, word: &str) -> (found: bool) {
        self.dictionary.contains(word)
    }

    /// A word that is held already changes nothing, and the store is not
    /// touched. A new word is held from now on, whatever the store answers;
    /// it is handed on to the store, where there is one, and the store's
    /// error is the answer.
    fn add(&mut self, word: String) -> (outcome: Result<bool, Error>)
        ensures
            !is_new_word(old(self).words(), word@) ==> outcome == Ok::<bool, Error>(false) && final(self).words()
                == old(self).words() && final(self).inner() == old(self).inner(),
            is_new_word(old(self).words(), word@) ==> final(self).words() == old(self).words().insert(word@),
            is_new_word(old(self).words(), word@) ==> match old(self).inner() {
                None => final(self).inner() is None && outcome == Ok::<bool, Error>(true),
                Some(store) => final(self).inner() is Some && written_through(
                    store,
                    word@,
                    final(self).inner()->0,
                    outcome,
                ),
            },
    {
        if self.dictionary.insert(word.clone()) {
            match &mut self.inner {
                Some(store) => {
                    let answer = store.add(word);
                    write_through(answer)
                },
                None => Ok(true),
            }
        } else {
            Ok(false)
        }
    }

    fn sync(&mut self) -> (outcome: Result<(), Error>) {
        match &self.inner {
            Some(store) => {
                let snapshot = store.get_all();
                let mut current = WordSet::new();
                core::mem::swap(&mut self.dictionary, &mut current);
                let (words, outcome) = refreshed(current, snapshot);
                self.dictionary = words;
                outcome
            },
            None => Ok(()),
        }
    }

    fn get_all(&self) -> (outcome: Result<WordSet, Error>)
        ensures
            outcome is Ok,
    {
        Ok(self.dictionary.clone())
    }
}

/// The dictionary that holds nothing and takes nothing in: the store of a
/// dictionary that has none.
#[derive(Clone, Debug)]
pub struct Empty();

impl Dictionary for Empty {
    open spec fn words(&self) -> Set<Seq<char>> {
        Set::empty()
    }

    open spec fn retains(&self) -> bool {
        false
    }

    /// It never fails.
    open spec fn accepts(&self) -> bool {
        true
    }

    /// No word is new to it: it takes none in.
    open spec fn add_answer(&self, word: Seq<char>) -> Result<bool, ErrorView> {
        Ok(false)
    }

    /// No words, always.
    open spec fn snapshot(&self) -> Result<Set<Seq<char>>, ErrorView> {
        Ok(Set::empty())
    }

    /// Nothing changes, and nothing fails.
    open spec fn synced(&self, after: &Self, outcome: Result<(), ErrorView>) -> bool {
        outcome is Ok && *after == *self
    }

    fn contains(&self, _word: &str) -> (found: bool) {
        false
    }

    fn add(&mut self, _word: String) -> (outcome: Result<bool, Error>)
        ensures
            outcome == Ok::<bool, Error>(false),
    {
        Ok(false)
    }

    fn sync(&mut self) -> (outcome: Result<(), Error>) {
        Ok(())
    }

    fn get_all(&self) -> (outcome: Result<WordSet, Error>)
        ensures
            outcome is Ok,
    {
        Ok(WordSet::new())
    }
}

/// To add a word twice is to add it once: the first time the answer is that
/// it is new, the second time that it was there, and the words are the same
/// after the second time as after the first.
pub proof fn lemma_add_twice(words: Set<Seq<char>>, word: Seq<char>)
    ensures
        !words.contains(word) ==> is_new_word(words, word),
        !is_new_word(words.insert(word), word),
        words.insert(word).insert(word) == words.insert(word),
{
    assert(words.insert(word).insert(word) =~= words.insert(word));
}

} // verus!
