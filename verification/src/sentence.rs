//! The annotated sentence: raw text, tokens with their place in it, and the
//! values that stages attach to tokens.

use crate::error::Error;
use crate::strmap::StrMap;
use vstd::prelude::*;
use vstd::string::*;

verus! {

/// A stretch of a sequence: where it starts and how many items it covers.
#[derive(Clone, Copy, PartialEq, Eq, PartialOrd, Ord, Debug)]
pub struct Loc {
    pub start_index: usize,
    pub len: usize,
}

impl Loc {
    /// The position just behind the stretch.
    pub open spec fn end(self) -> int {
        self.start_index + self.len
    }

    pub fn new(start_index: usize, len: usize) -> (loc: Loc)
        ensures
            loc == (Loc { start_index, len }),
    {
        Loc { start_index, len }
    }
}

/// The kinds of value that an annotation can hold.
#[derive(Clone, Copy, PartialEq, Eq, Debug)]
pub enum MetaKind {
    Bool,
    Str,
    I8,
    U8,
    I16,
    U16,
    I32,
    U32,
    I64,
    U64,
    Usize,
    I128,
    U128,
    Vec,
    Dict,
}

impl MetaKind {
    /// The name of the kind, as it is written in reports.
    pub open spec fn spec_name(self) -> Seq<char> {
        match self {
            MetaKind::Bool => "bool"@,
            MetaKind::Str => "str"@,
            MetaKind::I8 => "i8"@,
            MetaKind::U8 => "u8"@,
            MetaKind::I16 => "i16"@,
            MetaKind::U16 => "u16"@,
            MetaKind::I32 => "i32"@,
            MetaKind::U32 => "u32"@,
            MetaKind::I64 => "i64"@,
            MetaKind::U64 => "u64"@,
            MetaKind::Usize => "usize"@,
            MetaKind::I128 => "i128"@,
            MetaKind::U128 => "u128"@,
            MetaKind::Vec => "vec"@,
            MetaKind::Dict => "map"@,
        }
    }

    pub fn name(self) -> (text: &'static str)
        ensures
            text@ == self.spec_name(),
    {
        match self {
            MetaKind::Bool => "bool",
            MetaKind::Str => "str",
            MetaKind::I8 => "i8",
            MetaKind::U8 => "u8",
            MetaKind::I16 => "i16",
            MetaKind::U16 => "u16",
            MetaKind::I32 => "i32",
            MetaKind::U32 => "u32",
            MetaKind::I64 => "i64",
            MetaKind::U64 => "u64",
            MetaKind::Usize => "usize",
            MetaKind::I128 => "i128",
            MetaKind::U128 => "u128",
            MetaKind::Vec => "vec",
            MetaKind::Dict => "map",
        }
    }
}

/// A value attached to a token under a name: a scalar, a string, or a
/// sequence or a map of such values.
#[derive(PartialEq, Eq, PartialOrd, Ord, Debug)]
pub enum Meta {
    Bool(bool),
    Str(String),
    I8(i8),
    U8(u8),
    I16(i16),
    U16(u16),
    I32(i32),
    U32(u32),
    I64(i64),
    U64(u64),
    Usize(usize),
    I128(i128),
    U128(u128),
    Vec(Vec<Meta>),
    Dict(StrMap<Meta>),
}

impl Meta {
    /// The kind of the value.
    pub open spec fn spec_kind(&self) -> MetaKind {
        match *self {
            Meta::Bool(_) => MetaKind::Bool,
            Meta::Str(_) => MetaKind::Str,
            Meta::I8(_) => MetaKind::I8,
            Meta::U8(_) => MetaKind::U8,
            Meta::I16(_) => MetaKind::I16,
            Meta::U16(_) => MetaKind::U16,
            Meta::I32(_) => MetaKind::I32,
            Meta::U32(_) => MetaKind::U32,
            Meta::I64(_) => MetaKind::I64,
            Meta::U64(_) => MetaKind::U64,
            Meta::Usize(_) => MetaKind::Usize,
            Meta::I128(_) => MetaKind::I128,
            Meta::U128(_) => MetaKind::U128,
            Meta::Vec(_) => MetaKind::Vec,
            Meta::Dict(_) => MetaKind::Dict,
        }
    }

    #[verifier::when_used_as_spec(spec_kind)]
    pub fn kind(&self) -> (kind: MetaKind)
        ensures
            kind == self.spec_kind(),
    {
        match self {
            Meta::Bool(_) => MetaKind::Bool,
            Meta::Str(_) => MetaKind::Str,
            Meta::I8(_) => MetaKind::I8,
            Meta::U8(_) => MetaKind::U8,
            Meta::I16(_) => MetaKind::I16,
            Meta::U16(_) => MetaKind::U16,
            Meta::I32(_) => MetaKind::I32,
            Meta::U32(_) => MetaKind::U32,
            Meta::I64(_) => MetaKind::I64,
            Meta::U64(_) => MetaKind::U64,
            Meta::Usize(_) => MetaKind::Usize,
            Meta::I128(_) => MetaKind::I128,
            Meta::U128(_) => MetaKind::U128,
            Meta::Vec(_) => MetaKind::Vec,
            Meta::Dict(_) => MetaKind::Dict,
        }
    }

    /// What reading the value as a `usize` gives.
    pub open spec fn spec_as_usize(&self) -> Result<usize, Error> {
        match *self {
            Meta::Usize(val) => Ok(val),
            _ => Err(Error::MetaKind { expected: MetaKind::Usize, found: self.spec_kind() }),
        }
    }

    /// What reading the value as an `i64` gives.
    pub open spec fn spec_as_i64(&self) -> Result<i64, Error> {
        match *self {
            Meta::I64(val) => Ok(val),
            _ => Err(Error::MetaKind { expected: MetaKind::I64, found: self.spec_kind() }),
        }
    }

    /// What reading the value as a `u64` gives.
    pub open spec fn spec_as_u64(&self) -> Result<u64, Error> {
        match *self {
            Meta::U64(val) => Ok(val),
            _ => Err(Error::MetaKind { expected: MetaKind::U64, found: self.spec_kind() }),
        }
    }

    /// The `usize` that the value holds; any other kind is reported.
    #[verifier::when_used_as_spec(spec_as_usize)]
    pub fn as_usize(&self) -> (read: Result<usize, Error>)
        ensures
            read == self.spec_as_usize(),
    {
        match self {
            Meta::Usize(val) => Ok(*val),
            _ => Err(Error::MetaKind { expected: MetaKind::Usize, found: self.kind() }),
        }
    }

    /// The `i64` that the value holds; any other kind is reported.
    #[verifier::when_used_as_spec(spec_as_i64)]
    pub fn as_i64(&self) -> (read: Result<i64, Error>)
        ensures
            read == self.spec_as_i64(),
    {
        match self {
            Meta::I64(val) => Ok(*val),
            _ => Err(Error::MetaKind { expected: MetaKind::I64, found: self.kind() }),
        }
    }

    /// The `u64` that the value holds; any other kind is reported.
    #[verifier::when_used_as_spec(spec_as_u64)]
    pub fn as_u64(&self) -> (read: Result<u64, Error>)
        ensures
            read == self.spec_as_u64(),
    {
        match self {
            Meta::U64(val) => Ok(*val),
            _ => Err(Error::MetaKind { expected: MetaKind::U64, found: self.kind() }),
        }
    }
}

impl Meta {
    /// Two values are alike: the same scalar, strings of the same text,
    /// sequences of values that are alike one by one, or maps with the same
    /// keys and values that are alike key by key.
    pub open spec fn alike(&self, other: &Meta) -> bool
        decreases self,
    {
        match (*self, *other) {
            (Meta::Str(a), Meta::Str(b)) => a@ == b@,
            (Meta::Vec(a), Meta::Vec(b)) => a@.len() == b@.len() && forall|i: int|
                0 <= i < a@.len() ==> {
                    proof {
                        broadcast use vstd::std_specs::vec::axiom_vec_decreases_to_view;

                        assert(decreases_to!(*self => self->Vec_0));
                        assert(decreases_to!(self->Vec_0 => self->Vec_0@));
                        assert(decreases_to!(self->Vec_0@ => self->Vec_0@[i]));
                    }
                    (#[trigger] a@[i]).alike(&b@[i])
                },
            (Meta::Dict(a), Meta::Dict(b)) => a.entries().len() == b.entries().len() && forall|i: int|
                0 <= i < a.entries().len() ==> {
                    proof {
                        assert(decreases_to!(*self => self->Dict_0));
                        a.lemma_value_decreases(i);
                    }
                    (#[trigger] a.entries()[i]).0@ == b.entries()[i].0@ && a.entries()[i].1.alike(
                        &b.entries()[i].1,
                    )
                },
            _ => *self == *other,
        }
    }
}

impl Clone for Meta {
    /// A value that is like this one.
    fn clone(&self) -> (copy: Meta)
        ensures
            self.alike(&copy),
        decreases self,
    {
        match self {
            Meta::Bool(val) => Meta::Bool(*val),
            Meta::Str(val) => Meta::Str(val.clone()),
            Meta::I8(val) => Meta::I8(*val),
            Meta::U8(val) => Meta::U8(*val),
            Meta::I16(val) => Meta::I16(*val),
            Meta::U16(val) => Meta::U16(*val),
            Meta::I32(val) => Meta::I32(*val),
            Meta::U32(val) => Meta::U32(*val),
            Meta::I64(val) => Meta::I64(*val),
            Meta::U64(val) => Meta::U64(*val),
            Meta::Usize(val) => Meta::Usize(*val),
            Meta::I128(val) => Meta::I128(*val),
            Meta::U128(val) => Meta::U128(*val),
            Meta::Vec(items) => {
                let mut copies: Vec<Meta> = Vec::new();
                let mut i: usize = 0;
                while i < items.len()
                    invariant
                        i <= items.len(),
                        *self == Meta::Vec(*items),
                        copies@.len() == i,
                        forall|k: int| 0 <= k < i ==> (#[trigger] items@[k]).alike(&copies@[k]),
                    decreases items.len() - i,
                {
                    proof {
                        broadcast use vstd::std_specs::vec::axiom_vec_index_decreases;

                        assert(decreases_to!(*self => self->Vec_0));
                        assert(decreases_to!(*items => items[i as int]));
                    }
                    copies.push(items[i].clone());
                    i += 1;
                }
                Meta::Vec(copies)
            },
            Meta::Dict(map) => {
                let mut entries: Vec<(String, Meta)> = Vec::new();
                let n = map.len();
                let mut i: usize = 0;
                while i < n
                    invariant
                        i <= n,
                        n == map.entries().len(),
                        *self == Meta::Dict(*map),
                        entries@.len() == i,
                        forall|k: int|
                            0 <= k < i ==> (#[trigger] entries@[k]).0@ == map.entries()[k].0@
                                && map.entries()[k].1.alike(&entries@[k].1),
                    decreases n - i,
                {
                    proof {
                        map.lemma_value_decreases(i as int);
                        assert(decreases_to!(*self => self->Dict_0));
                    }
                    let value = map.value_at(i).clone();
                    entries.push((map.key_at(i).to_owned(), value));
                    i += 1;
                }
                Meta::Dict(StrMap::from_ascending(entries))
            },
        }
    }
}

/// A token as contracts see it: its text, its place, and its annotations as a
/// map from names to values.
pub struct TokenView {
    pub val: Seq<char>,
    pub loc: Loc,
    pub meta: Map<Seq<char>, Meta>,
}

/// A piece of a sentence: its normalized text, where it stands in the raw
/// text, and what stages have attached to it.
#[derive(Clone, PartialEq, Eq, PartialOrd, Ord, Debug)]
pub struct Token {
    pub val: String,
    pub loc: Loc,
    meta: StrMap<Meta>,
}

impl View for Token {
    type V = TokenView;

    closed spec fn view(&self) -> TokenView {
        TokenView { val: self.val@, loc: self.loc, meta: self.meta@ }
    }
}

impl Token {
    /// A token without annotations.
    pub fn new(val: String, loc: Loc) -> (token: Token)
        ensures
            token@ == (TokenView { val: val@, loc, meta: Map::empty() }),
    {
        Token { val, loc, meta: StrMap::new() }
    }

    /// The token's text.
    pub fn value(&self) -> (val: &str)
        ensures
            val@ == self@.val,
    {
        self.val.as_str()
    }

    /// The token's place in the raw text.
    pub fn location(&self) -> (loc: Loc)
        ensures
            loc == self@.loc,
    {
        self.loc
    }

    /// Attaches `meta` under `key`, in place of what stood there.
    pub fn add_meta(&mut self, key: &str, meta: Meta)
        ensures
            final(self)@ == (TokenView { meta: old(self)@.meta.insert(key@, meta), ..old(self)@ }),
    {
        self.meta.insert(key.to_owned(), meta);
    }

    /// The annotation under `key`, if there is one.
    pub fn get_meta(&self, key: &str) -> (found: Option<&Meta>)
        ensures
            self@.meta.contains_key(key@) ==> found == Some(&self@.meta[key@]),
            !self@.meta.contains_key(key@) ==> found is None,
    {
        self.meta.get(key)
    }
}

/// The views of a sequence of tokens.
pub open spec fn token_views(tokens: Seq<Token>) -> Seq<TokenView> {
    tokens.map_values(|token: Token| token@)
}

/// A sentence as contracts see it: the raw text and the views of its tokens.
pub struct SentenceView {
    pub raw: Seq<char>,
    pub tokens: Seq<TokenView>,
}

impl SentenceView {
    /// The sentence with `meta` attached under `key` to the token at `index`.
    pub open spec fn annotated(self, index: int, key: Seq<char>, meta: Meta) -> SentenceView {
        SentenceView {
            raw: self.raw,
            tokens: self.tokens.update(
                index,
                TokenView { meta: self.tokens[index].meta.insert(key, meta), ..self.tokens[index] },
            ),
        }
    }
}

/// The part of `raw` that `loc` covers, cut off at the end of the text.
pub open spec fn source_text(raw: Seq<char>, loc: Loc) -> Seq<char> {
    let from = if loc.start_index <= raw.len() {
        loc.start_index as int
    } else {
        raw.len() as int
    };
    let to = if loc.end() <= raw.len() {
        loc.end()
    } else {
        raw.len() as int
    };
    raw.subrange(from, to)
}

/// Raw text with the tokens that were cut from it.
#[derive(Clone, PartialEq, Eq, PartialOrd, Ord, Debug)]
pub struct Sentence {
    raw: String,
    tokens: Vec<Token>,
}

impl View for Sentence {
    type V = SentenceView;

    closed spec fn view(&self) -> SentenceView {
        SentenceView { raw: self.raw@, tokens: token_views(self.tokens@) }
    }
}

impl Sentence {
    pub fn new(raw: String, tokens: Vec<Token>) -> (sentence: Sentence)
        ensures
            sentence@ == (SentenceView { raw: raw@, tokens: token_views(tokens@) }),
    {
        Sentence { raw, tokens }
    }

    /// The raw text.
    pub fn raw(&self) -> (raw: &str)
        ensures
            raw@ == self@.raw,
    {
        self.raw.as_str()
    }

    /// The tokens, in the order of the text.
    pub fn tokens(&self) -> (tokens: &[Token])
        ensures
            token_views(tokens@) == self@.tokens,
    {
        self.tokens.as_slice()
    }

    /// The tokens, open to change; the raw text stays as it is.
    pub fn tokens_mut(&mut self) -> (tokens: &mut [Token])
        ensures
            token_views(tokens@) == old(self)@.tokens,
            final(self)@ == (SentenceView { raw: old(self)@.raw, tokens: token_views(final(tokens)@) }),
    {
        self.tokens.as_mut_slice()
    }

    /// The number of tokens.
    pub fn len(&self) -> (n: usize)
        ensures
            n == self@.tokens.len(),
    {
        self.tokens.len()
    }

    /// The token at `index`.
    pub fn token(&self, index: usize) -> (token: &Token)
        requires
            index < self@.tokens.len(),
        ensures
            token@ == self@.tokens[index as int],
    {
        &self.tokens[index]
    }

    /// Attaches `meta` under `key` to the token at `index`; nothing else
    /// changes.
    pub fn annotate(&mut self, index: usize, key: &str, meta: Meta)
        requires
            index < old(self)@.tokens.len(),
        ensures
            final(self)@ == old(self)@.annotated(index as int, key@, meta),
    {
        let ghost before = self.tokens@;
        let token = &mut self.tokens[index];
        token.add_meta(key, meta);
        assert(token_views(self.tokens@) =~= token_views(before).update(index as int, self.tokens@[index as int]@));
    }

    /// The part of the raw text that `loc` covers, counted in characters.
    pub fn by_loc(&self, loc: &Loc) -> (text: String)
        ensures
            text@ == source_text(self@.raw, *loc),
    {
        let raw = self.raw.as_str();
        let n = raw.unicode_len();
        let from = if loc.start_index <= n {
            loc.start_index
        } else {
            n
        };
        let to = if loc.len <= n - from {
            from + loc.len
        } else {
            n
        };
        raw.substring_char(from, to).to_owned()
    }
}

} // verus!
