//! The lazy token cache: tokens addressed by their index in the token stream, pulled from
//! the tokenizer only when an index beyond the cached window is asked for, and released
//! from the front when the parser will not come back to them.
use crate::decoder::{decode, DecodeEnd, Utf8Iter};
use crate::lookahead::{LookAheadIterator, Pending};
use crate::source::Source;
use std::collections::VecDeque;
use vstd::prelude::*;

verus! {

/// A position in the source text.
#[derive(Clone, Copy, Debug, PartialEq, Eq)]
pub struct Location {
    pub line: u64,
    pub column: u64,
}

impl Location {
    /// `self` is at `other` or after it: on a later line, or on the same line and in no
    /// earlier column.
    pub open spec fn not_before(self, other: Location) -> bool {
        self.line > other.line || (self.line == other.line && self.column >= other.column)
    }
}

/// A token together with the position the tokenizer stood at when it had produced it.
#[derive(Debug, PartialEq, Eq)]
pub struct TokenWithLocation<T> {
    pub token: T,
    pub location: Location,
}

impl<T: Clone> Clone for TokenWithLocation<T> {
    fn clone(&self) -> (copy: Self)
        ensures
            is_copy(*self, copy),
    {
        TokenWithLocation { token: self.token.clone(), location: self.location }
    }
}

/// `copy` is what cloning `entry` may give: a clone of its token, at the same location.
pub open spec fn is_copy<T: Clone>(entry: TokenWithLocation<T>, copy: TokenWithLocation<T>) -> bool {
    cloned(entry.token, copy.token) && copy.location == entry.location
}

/// What a tokenizer works on: the characters ahead, and the line and column it has come to.
pub struct State<S: Source<Item = char>> {
    pub peekable: LookAheadIterator<S>,
    pub line: u64,
    pub col: u64,
}

impl<S: Source<Item = char>> State<S> {
    /// The line and column the state stands at.
    pub open spec fn position(&self) -> Location {
        Location { line: self.line, column: self.col }
    }

    /// The line and column the state stands at.
    pub fn location(&self) -> (location: Location)
        ensures
            location == self.position(),
    {
        Location { line: self.line, column: self.col }
    }
}

/// The rules that turn characters into tokens. The cache asks a tokenizer for one token at
/// a time and makes nothing of how it finds them.
pub trait Tokenizer {
    type Token;

    type Error;

    /// Whether this tokenizer promises never to leave a state at an earlier position than
    /// it found it at. A tokenizer that says so has to prove it of `next_token`; by default
    /// nothing is promised.
    open spec fn obeys_location_order(&self) -> bool {
        false
    }

    /// Reads the next token from `state`: `Ok(None)` where the input has ended, `Err` where
    /// the characters ahead form no token.
    fn next_token<S: Source<Item = char>>(&self, state: &mut State<S>) -> (answer: Result<
        Option<Self::Token>,
        Self::Error,
    >)
        ensures
            self.obeys_location_order() ==> final(state).position().not_before(
                old(state).position(),
            ),
    ;
}

/// Why the cache could not answer.
#[derive(Debug, PartialEq, Eq)]
pub enum CacheError<E> {
    /// The index lies before the window, or, for `clear`, beyond what has been produced.
    IndexOutOfWindow,
    /// The tokenizer failed.
    Tokenize(E),
}

/// A window onto the token stream of a byte source. The window starts at the base index and
/// holds, without gaps, every token produced from there on.
pub struct LazyTokens<K: Tokenizer, B: Source<Item = u8>> {
    tokenizer: K,
    buf: VecDeque<TokenWithLocation<K::Token>>,
    buf_index: usize,
    exhausted: bool,
    state: State<Utf8Iter<B>>,
}

impl<K: Tokenizer, B: Source<Item = u8>> LazyTokens<K, B> {
    /// The index in the token stream of the first token in the window.
    pub closed spec fn base_index(&self) -> nat {
        self.buf_index as nat
    }

    /// The cached tokens: the token with index `base_index() + k` stands at place `k`.
    pub closed spec fn window(&self) -> Seq<TokenWithLocation<K::Token>> {
        self.buf@
    }

    /// Whether the tokenizer has reported the end of the input.
    pub closed spec fn exhausted(&self) -> bool {
        self.exhausted
    }

    /// The state the tokenizer works on.
    pub closed spec fn state(&self) -> State<Utf8Iter<B>> {
        self.state
    }

    /// The tokenizer.
    pub closed spec fn tokenizer(&self) -> K {
        self.tokenizer
    }

    /// Whether the window holds the token with this index.
    pub open spec fn covers(&self, index: usize) -> bool {
        self.base_index() <= index < self.base_index() + self.window().len()
    }

    /// Where the tokenizer obeys the order of locations: every cached token stands at or
    /// after the tokens cached before it, and the state at or after the last of them.
    pub closed spec fn in_order(&self) -> bool {
        self.tokenizer.obeys_location_order() ==> {
            &&& forall|i: int, j: int|
                0 <= i <= j < self.buf@.len() ==> self.buf@[j].location.not_before(
                    self.buf@[i].location,
                )
            &&& self.buf@.len() > 0 ==> self.state.position().not_before(
                self.buf@.last().location,
            )
        }
    }

    /// What `get(index)` may return, and leave behind as `after`, when it finds the cache
    /// as `self`.
    ///
    /// The base index stays and the window only grows at its end. An index before the
    /// window is refused. An index in the window is answered with a copy of the cached
    /// token, and an index beyond an exhausted stream with `None`; neither touches the
    /// cache. For any other index the tokenizer is asked until the window reaches the
    /// index, the input ends, or the tokenizer fails. A token that the window is grown by
    /// is cached with the position the state stood at when the tokenizer had produced it.
    pub open spec fn gets(
        self,
        index: usize,
        answer: Result<Option<TokenWithLocation<K::Token>>, CacheError<K::Error>>,
        after: Self,
    ) -> bool where K::Token: Clone {
        &&& after.base_index() == self.base_index()
        &&& after.tokenizer() == self.tokenizer()
        &&& self.window().is_prefix_of(after.window())
        &&& self.in_order() ==> after.in_order()
        &&& if index < self.base_index() {
            answer matches Err(CacheError::IndexOutOfWindow) && after == self
        } else if self.covers(index) {
            &&& after == self
            &&& answer matches Ok(Some(token))
            &&& is_copy(self.window()[index - self.base_index()], token)
        } else if self.exhausted() {
            answer matches Ok(None) && after == self
        } else {
            match answer {
                Ok(Some(token)) => {
                    &&& after.window().len() == index - self.base_index() + 1
                    &&& !after.exhausted()
                    &&& is_copy(after.window().last(), token)
                    &&& token.location == after.state().position()
                },
                Ok(None) => after.exhausted() && !after.covers(index),
                Err(CacheError::Tokenize(_)) => !after.exhausted() && !after.covers(index),
                Err(CacheError::IndexOutOfWindow) => false,
            }
        }
    }

    /// What `clear(index)` returns, and leaves behind as `after`, when it finds the cache
    /// as `self`: an index from the base index up to the end of the window becomes the
    /// new base index and the tokens before it are dropped; any other index is refused.
    pub open spec fn clears(
        self,
        index: usize,
        answer: Result<(), CacheError<K::Error>>,
        after: Self,
    ) -> bool {
        if self.base_index() <= index <= self.base_index() + self.window().len() {
            &&& answer is Ok
            &&& after.base_index() == index
            &&& after.window() == self.window().skip(index - self.base_index())
            &&& after.exhausted() == self.exhausted()
            &&& after.state() == self.state()
            &&& after.tokenizer() == self.tokenizer()
            &&& self.in_order() ==> after.in_order()
        } else {
            answer matches Err(CacheError::IndexOutOfWindow) && after == self
        }
    }

    /// A cache over the tokens that `tokenizer` finds in `source`: nothing cached, nothing
    /// read, the window at index 0 and the state at line 1, column 1.
    pub fn new(tokenizer: K, source: B) -> (cache: Self)
        ensures
            cache.base_index() == 0,
            cache.window() == Seq::<TokenWithLocation<K::Token>>::empty(),
            !cache.exhausted(),
            cache.in_order(),
            cache.tokenizer() == tokenizer,
            cache.state().position() == (Location { line: 1, column: 1 }),
            cache.state().peekable@ == (Pending {
                buffered: Seq::empty(),
                unread: decode(source.remaining()),
            }),
            cache.state().peekable.inner().unread() == source.remaining(),
    {
        LazyTokens {
            tokenizer,
            buf: VecDeque::new(),
            buf_index: 0,
            exhausted: false,
            state: State {
                peekable: LookAheadIterator::new(Utf8Iter::new(source)),
                line: 1,
                col: 1,
            },
        }
    }

    /// The token with the given index in the token stream, or `None` where the stream ends
    /// before that index. See [`Self::gets`].
    pub fn get(&mut self, index: usize) -> (answer: Result<
        Option<TokenWithLocation<K::Token>>,
        CacheError<K::Error>,
    >) where K::Token: Clone
        ensures
            old(self).gets(index, answer, *final(self)),
    {
        if index < self.buf_index {
            return Err(CacheError::IndexOutOfWindow);
        }
        let true_index: usize = index - self.buf_index;
        while self.buf.len() <= true_index
            invariant
                self.buf_index == old(self).buf_index,
                self.tokenizer == old(self).tokenizer,
                true_index == index - self.buf_index,
                old(self).buf@.is_prefix_of(self.buf@),
                old(self).in_order() ==> self.in_order(),
                self.exhausted == old(self).exhausted,
                old(self).covers(index) || self.exhausted ==> *self == *old(self),
                self.buf@.len() > old(self).buf@.len() ==> self.buf@.len() <= true_index + 1
                    && !self.exhausted && self.buf@.last().location == self.state.position(),
            decreases true_index + 1 - self.buf.len(),
        {
            if self.exhausted {
                return Ok(None);
            }
            let ghost asked = *self;
            let answer = self.tokenizer.next_token(&mut self.state);
            assert(asked.in_order() ==> self.in_order());
            match self.record(answer) {
                Ok(true) => {},
                Ok(false) => {
                    return Ok(None);
                },
                Err(error) => {
                    return Err(error);
                },
            }
        }
        Ok(Some(self.buf[true_index].clone()))
    }

    /// Why the characters have ended, once they have: whether the bytes ran out between two
    /// characters or the decoder gave up on them. `None` while characters are still decoded.
    pub fn decode_end(&self) -> (end: Option<DecodeEnd>)
        ensures
            end == self.state().peekable.inner().stopped(),
    {
        self.state.peekable.source().end()
    }

    /// Takes in one answer of the tokenizer and tells whether it brought a token: a token is
    /// cached at the end of the window with the position the state stands at; the end of
    /// the input is noted; a failure is handed on and leaves the cache as it is.
    fn record(&mut self, answer: Result<Option<K::Token>, K::Error>) -> (outcome: Result<
        bool,
        CacheError<K::Error>,
    >)
        ensures
            final(self).buf_index == old(self).buf_index,
            final(self).tokenizer == old(self).tokenizer,
            final(self).state == old(self).state,
            old(self).in_order() ==> final(self).in_order(),
            match answer {
                Ok(Some(token)) => {
                    &&& outcome matches Ok(true)
                    &&& final(self).exhausted == old(self).exhausted
                    &&& final(self).buf@ == old(self).buf@.push(
                        TokenWithLocation { token, location: old(self).state.position() },
                    )
                },
                Ok(None) => {
                    &&& outcome matches Ok(false)
                    &&& final(self).exhausted
                    &&& final(self).buf@ == old(self).buf@
                },
                Err(error) => {
                    &&& outcome matches Err(CacheError::Tokenize(handed_on))
                    &&& handed_on == error
                    &&& *final(self) == *old(self)
                },
            },
    {
        match answer {
            Ok(Some(token)) => {
                let location = self.state.location();
                self.buf.push_back(TokenWithLocation { token, location });
                proof {
                    let before = old(self).buf@;
                    if old(self).in_order() && self.tokenizer.obeys_location_order() {
                        assert forall|i: int, j: int| 0 <= i <= j < self.buf@.len() implies self.buf@[j].location.not_before(
                            self.buf@[i].location,
                        ) by {
                            if j < before.len() {
                                assert(self.buf@[i] == before[i] && self.buf@[j] == before[j]);
                            } else if i < before.len() {
                                assert(self.buf@[i] == before[i]);
                                assert(before.last().location.not_before(before[i].location));
                            }
                        }
                    }
                }
                Ok(true)
            },
            Ok(None) => {
                self.exhausted = true;
                Ok(false)
            },
            Err(error) => Err(CacheError::Tokenize(error)),
        }
    }

    /// Drops the cached tokens before `index`, which becomes the base index. See
    /// [`Self::clears`].
    pub fn clear(&mut self, index: usize) -> (answer: Result<(), CacheError<K::Error>>)
        ensures
            old(self).clears(index, answer, *final(self)),
    {
        if index < self.buf_index || index - self.buf_index > self.buf.len() {
            return Err(CacheError::IndexOutOfWindow);
        }
        let difference: usize = index - self.buf_index;
        self.buf_index = index;
        for dropped in 0..difference
            invariant
                difference <= old(self).buf@.len(),
                self.buf@ == old(self).buf@.skip(dropped as int),
                self.buf_index == index,
                self.exhausted == old(self).exhausted,
                self.state == old(self).state,
                self.tokenizer == old(self).tokenizer,
        {
            self.buf.pop_front();
            assert(old(self).buf@.skip(dropped as int).drop_first() =~= old(self).buf@.skip(
                dropped + 1,
            ));
        }
        Ok(())
    }
}

impl<K: Tokenizer, B: Source<Item = u8>> LazyTokens<K, B> where K::Token: Clone {
    /// Asking twice gives the same: a second `get` of an index, with no `clear` in between,
    /// leaves the cache as the first left it, and answers as the first did, with a copy of
    /// the same cached token or with the same absence or refusal. The first call is taken
    /// not to have met a failing tokenizer, which may well succeed when asked again.
    pub proof fn lemma_get_is_repeatable(
        before: Self,
        index: usize,
        first: Result<Option<TokenWithLocation<K::Token>>, CacheError<K::Error>>,
        between: Self,
        second: Result<Option<TokenWithLocation<K::Token>>, CacheError<K::Error>>,
        after: Self,
    )
        requires
            before.gets(index, first, between),
            between.gets(index, second, after),
            !(first matches Err(CacheError::Tokenize(_))),
        ensures
            after == between,
            match first {
                Ok(Some(token)) => {
                    &&& between.covers(index)
                    &&& is_copy(between.window()[index - between.base_index()], token)
                    &&& second matches Ok(Some(again))
                    &&& is_copy(between.window()[index - between.base_index()], again)
                },
                Ok(None) => second matches Ok(None),
                Err(_) => second matches Err(CacheError::IndexOutOfWindow),
            },
            (forall|a: K::Token, b: K::Token| cloned(a, b) ==> a == b) ==> second == first,
    {
    }

    /// What has been released stays out of reach: after `clear(index)` has moved the
    /// window, `get` refuses every earlier index and touches nothing.
    pub proof fn lemma_cleared_index_is_refused(
        before: Self,
        index: usize,
        cleared: Self,
        earlier: usize,
        answer: Result<Option<TokenWithLocation<K::Token>>, CacheError<K::Error>>,
        after: Self,
    )
        requires
            before.clears(index, Ok(()), cleared),
            cleared.gets(earlier, answer, after),
            earlier < index,
        ensures
            answer matches Err(CacheError::IndexOutOfWindow),
            after == cleared,
    {
    }

    /// Releasing tokens does not renumber the ones that stay: a token cached at an index
    /// that is not released is, after `clear`, still the token at that index.
    pub proof fn lemma_clear_keeps_later_tokens(
        before: Self,
        index: usize,
        cleared: Self,
        later: usize,
    )
        requires
            before.clears(index, Ok(()), cleared),
            before.covers(later),
            index <= later,
        ensures
            cleared.covers(later),
            cleared.window()[later - cleared.base_index()] == before.window()[later
                - before.base_index()],
    {
    }

    /// Where the tokenizer obeys the order of locations and the cache is in order, the
    /// cached tokens stand in the order of their indices: no token at an earlier location
    /// than a token before it.
    pub proof fn lemma_window_in_order(cache: Self, i: int, j: int)
        requires
            cache.in_order(),
            cache.tokenizer().obeys_location_order(),
            0 <= i <= j < cache.window().len(),
        ensures
            cache.window()[j].location.not_before(cache.window()[i].location),
    {
    }

    /// Tokens come back in the order of their locations: with a tokenizer that obeys that
    /// order, and no `clear` in between, the token that `get` returns for an index stands at
    /// or after the token it returned before for an index no greater.
    pub proof fn lemma_locations_follow_indices(
        before: Self,
        low: usize,
        low_token: TokenWithLocation<K::Token>,
        between: Self,
        high: usize,
        high_token: TokenWithLocation<K::Token>,
        after: Self,
    )
        requires
            before.in_order(),
            before.tokenizer().obeys_location_order(),
            before.gets(low, Ok(Some(low_token)), between),
            between.gets(high, Ok(Some(high_token)), after),
            low <= high,
        ensures
            high_token.location.not_before(low_token.location),
    {
        let base = before.base_index();
        assert(between.covers(low));
        assert(after.covers(high));
        assert(after.window()[low - base] == between.window()[low - base]);
        Self::lemma_window_in_order(after, low - base, high - base);
    }
}

} // verus!
