//! Looking ahead in a sequential source without consuming from it.
//!
//! A [`LookAheadIterator`] wraps a source and keeps the items it has pulled but not yet
//! handed out in a buffer. Peeking and cursors fill that buffer; only the wrapper's own
//! `next` takes from it.
use crate::source::{head, tail, Source};
use std::collections::VecDeque;
use vstd::prelude::*;

verus! {

/// What a look-ahead wrapper still has to hand out: the items it holds in its buffer, then
/// the items its source has yet to yield.
#[verifier::ext_equal]
pub struct Pending<T> {
    pub buffered: Seq<T>,
    pub unread: Seq<T>,
}

impl<T> Pending<T> {
    /// All the items still to be handed out, in order.
    pub open spec fn all(self) -> Seq<T> {
        self.buffered + self.unread
    }

    /// The item `p` places ahead of the front, if there are that many.
    pub open spec fn item_at(self, p: nat) -> Option<T> {
        if p < self.all().len() {
            Some(self.all()[p as int])
        } else {
            None
        }
    }

    /// The state after pulling items from the source, one by one, for as long as fewer than
    /// `n` are buffered and the source has any.
    pub open spec fn filled(self, n: nat) -> Pending<T> {
        if n <= self.buffered.len() {
            self
        } else {
            let k = if n <= self.all().len() {
                n as int
            } else {
                self.all().len() as int
            };
            Pending { buffered: self.all().take(k), unread: self.all().skip(k) }
        }
    }

    /// The state after handing out the front item: from the buffer where it holds one, else
    /// straight from the source.
    pub open spec fn advanced(self) -> Pending<T> {
        if self.buffered.len() > 0 {
            Pending { buffered: self.buffered.drop_first(), unread: self.unread }
        } else {
            Pending { buffered: self.buffered, unread: tail(self.unread) }
        }
    }

    /// What `m` reads of a cursor that stands at position `p` come to: the items read, the
    /// state they leave, and the cursor's position after them. A read beyond the last item
    /// yields nothing and leaves the cursor where it stands.
    pub open spec fn read_ahead(self, p: nat, m: nat) -> (Seq<T>, Pending<T>, nat)
        decreases m,
    {
        if m == 0 {
            (Seq::empty(), self, p)
        } else {
            match self.item_at(p) {
                Some(x) => {
                    let (items, state, position) = self.filled(p + 1).read_ahead(
                        p + 1,
                        (m - 1) as nat,
                    );
                    (seq![x] + items, state, position)
                },
                None => self.filled(p + 1).read_ahead(p, (m - 1) as nat),
            }
        }
    }
}

/// A source with a buffer in front of it, so that upcoming items can be looked at before
/// they are consumed.
pub struct LookAheadIterator<S: Source> {
    iter: S,
    buf: VecDeque<S::Item>,
}

impl<S: Source> View for LookAheadIterator<S> {
    type V = Pending<S::Item>;

    closed spec fn view(&self) -> Pending<S::Item> {
        Pending { buffered: self.buf@, unread: self.iter.remaining() }
    }
}

impl<S: Source> LookAheadIterator<S> {
    /// The wrapped source, as it stands.
    pub closed spec fn inner(&self) -> S {
        self.iter
    }

    /// A wrapper around `iter` with nothing buffered.
    pub fn new(iter: S) -> (wrapper: Self)
        ensures
            wrapper@ == (Pending { buffered: Seq::empty(), unread: iter.remaining() }),
            wrapper.inner() == iter,
    {
        LookAheadIterator { iter, buf: VecDeque::new() }
    }

    /// The next item, without consuming it. One item is pulled into the buffer where the
    /// buffer is empty; a wrapper that holds an item already is left as it is.
    pub fn peek(&mut self) -> (item: Option<&S::Item>)
        ensures
            final(self)@ == old(self)@.filled(1),
            old(self)@.buffered.len() > 0 ==> *final(self) == *old(self),
            match item {
                Some(x) => head(old(self)@.all()) == Some(*x),
                None => old(self)@.all().len() == 0,
            },
    {
        if self.buf.len() == 0 {
            self.fill_buf();
        }
        if self.buf.len() > 0 {
            Some(&self.buf[0])
        } else {
            None
        }
    }

    /// Pulls one more item from the source into the buffer. Returns `None`, and changes
    /// nothing that is pending, where the source has no item left.
    pub fn fill_buf(&mut self) -> (filled: Option<()>)
        ensures
            final(self)@ == old(self)@.filled(old(self)@.buffered.len() + 1),
            filled is Some <==> old(self)@.unread.len() > 0,
    {
        let ghost before = self@;
        match self.iter.next() {
            Some(item) => {
                self.buf.push_back(item);
                assert(self@.buffered =~= before.all().take(before.buffered.len() as int + 1));
                assert(self@.unread =~= before.all().skip(before.buffered.len() as int + 1));
                Some(())
            },
            None => {
                assert(self@.buffered =~= before.all().take(before.all().len() as int));
                assert(self@.unread =~= before.all().skip(before.all().len() as int));
                None
            },
        }
    }

    /// A cursor at position 0 of what is pending. While the cursor lives the wrapper is
    /// reached through it alone; whatever the cursor leaves is what the wrapper then holds.
    pub fn lookahead(&mut self) -> (cursor: LookAheadHandle<'_, S>)
        ensures
            cursor.index == 0,
            *cursor.inner == *old(self),
            *final(cursor.inner) == *final(self),
    {
        LookAheadHandle { inner: self, index: 0 }
    }

    /// The wrapped source.
    pub fn source(&self) -> (source: &S)
        ensures
            *source == self.inner(),
    {
        &self.iter
    }
}

impl<S: Source> Source for LookAheadIterator<S> {
    type Item = S::Item;

    open spec fn remaining(&self) -> Seq<S::Item> {
        self@.all()
    }

    /// Hands out the front of the buffer where the buffer holds an item, and pulls from the
    /// source, past the empty buffer, where it holds none.
    fn next(&mut self) -> (item: Option<S::Item>)
        ensures
            final(self)@ == old(self)@.advanced(),
            old(self)@.buffered.len() > 0 ==> final(self).inner() == old(self).inner(),
    {
        if self.buf.len() > 0 {
            let item = self.buf.pop_front();
            assert(self@.all() =~= old(self)@.all().drop_first());
            item
        } else {
            assert(self@.all() =~= self@.unread);
            let item = self.iter.next();
            assert(self@.all() =~= self@.unread);
            item
        }
    }
}

/// A cursor into what a [`LookAheadIterator`] has pending: the wrapper it reads from and
/// the position of the item it reads next.
pub struct LookAheadHandle<'a, S: Source> {
    pub inner: &'a mut LookAheadIterator<S>,
    pub index: usize,
}

impl<'a, S: Source> LookAheadHandle<'a, S> {
    /// Reads the item at the cursor's position and moves the cursor one further. The
    /// wrapper's buffer is filled far enough to hold that item; nothing is taken from it.
    /// Where fewer items are pending the read yields `None` and the cursor stays.
    pub fn next(&mut self) -> (item: Option<S::Item>) where S::Item: Clone
        ensures
            *final(final(self).inner) == *final(old(self).inner),
            (*final(self).inner)@ == (*old(self).inner)@.filled(old(self).index as nat + 1),
            match item {
                Some(x) => {
                    &&& (*old(self).inner)@.item_at(old(self).index as nat) matches Some(y)
                    &&& cloned(y, x)
                    &&& final(self).index == old(self).index + 1
                },
                None => {
                    &&& (*old(self).inner)@.item_at(old(self).index as nat) is None
                    &&& final(self).index == old(self).index
                },
            },
    {
        let ghost before = (*self.inner)@;
        while self.inner.buf.len() <= self.index
            invariant
                self.index == old(self).index,
                *final(self.inner) == *final(old(self).inner),
                (*self.inner)@.all() == before.all(),
                (*self.inner)@.buffered.len() >= before.buffered.len(),
                (*self.inner)@.buffered.len() > before.buffered.len() ==> (*self.inner)@.buffered.len()
                    <= self.index + 1,
                before == (*old(self).inner)@,
            decreases (*self.inner)@.unread.len(),
        {
            let ghost entering = (*self.inner)@;
            let filled = self.inner.fill_buf();
            proof {
                lemma_filled_keeps_all(entering, entering.buffered.len() + 1);
            }
            if filled.is_none() {
                proof {
                    lemma_same_items_same_state(
                        (*self.inner)@,
                        before.filled(self.index as nat + 1),
                    );
                }
                return None;
            }
        }
        proof {
            lemma_filled_keeps_all(before, self.index as nat + 1);
            lemma_same_items_same_state((*self.inner)@, before.filled(self.index as nat + 1));
        }
        self.index += 1;
        Some(self.inner.buf[self.index - 1].clone())
    }
}

/// Filling the buffer moves items from the source into it and changes nothing about which
/// items are pending, nor their order.
pub proof fn lemma_filled_keeps_all<T>(w: Pending<T>, n: nat)
    ensures
        w.filled(n).all() == w.all(),
        w.filled(n).buffered.len() >= w.buffered.len(),
        w.filled(n).buffered.len() >= n || w.filled(n).unread.len() == 0,
{
    assert(w.filled(n).all() =~= w.all());
}

/// Peeking is stable: a second peek shows the item the first one showed and changes
/// nothing, and the `next` that follows hands out that very item and skips none.
pub proof fn lemma_peek_is_stable<T>(w: Pending<T>)
    ensures
        head(w.filled(1).all()) == head(w.all()),
        w.filled(1).filled(1) == w.filled(1),
        w.filled(1).advanced().all() == tail(w.all()),
{
    lemma_filled_keeps_all(w, 1);
    lemma_filled_keeps_all(w.filled(1), 1);
    lemma_same_items_same_state(w.filled(1).filled(1), w.filled(1));
    lemma_advanced_drops_front(w.filled(1));
}

/// Handing out the front item removes it from what is pending and nothing else.
pub proof fn lemma_advanced_drops_front<T>(w: Pending<T>)
    ensures
        w.advanced().all() == tail(w.all()),
{
    assert(w.advanced().all() =~= tail(w.all()));
}

/// What a run of cursor reads comes to: the pending items from the cursor's position on, as
/// many as were asked for or as there are. The reads leave every pending item in place.
pub proof fn lemma_read_ahead<T>(w: Pending<T>, p: nat, m: nat)
    ensures
        w.read_ahead(p, m).1.all() == w.all(),
        p >= w.all().len() ==> w.read_ahead(p, m).0 == Seq::<T>::empty() && w.read_ahead(p, m).2
            == p,
        p + m <= w.all().len() ==> w.read_ahead(p, m).0 == w.all().subrange(p as int, (p + m) as int)
            && w.read_ahead(p, m).2 == p + m,
        p <= w.all().len() <= p + m ==> w.read_ahead(p, m).0 == w.all().skip(p as int)
            && w.read_ahead(p, m).2 == w.all().len(),
    decreases m,
{
    let all = w.all();
    if m == 0 {
        assert(p <= all.len() ==> all.subrange(p as int, p as int) =~= Seq::<T>::empty());
        assert(p == all.len() ==> all.skip(p as int) =~= Seq::<T>::empty());
    } else {
        let next = w.filled(p + 1);
        lemma_filled_keeps_all(w, p + 1);
        if p < all.len() {
            lemma_read_ahead(next, p + 1, (m - 1) as nat);
            let rest = next.read_ahead(p + 1, (m - 1) as nat).0;
            if p + m <= all.len() {
                assert(seq![all[p as int]] + rest =~= all.subrange(p as int, (p + m) as int));
            } else {
                assert(seq![all[p as int]] + rest =~= all.skip(p as int));
            }
        } else {
            lemma_read_ahead(next, p, (m - 1) as nat);
            assert(p == all.len() ==> all.skip(p as int) =~= Seq::<T>::empty());
        }
    }
}

/// Cursors do not interfere: a second cursor, made after a first one has read `m` items from
/// the front, reads the same `m` items, and the wrapper then still has every item to hand
/// out, the first one first.
pub proof fn lemma_cursors_agree<T>(w: Pending<T>, m: nat)
    ensures
        ({
            let (first, between, _) = w.read_ahead(0, m);
            let (second, after, _) = between.read_ahead(0, m);
            &&& second == first
            &&& after.all() == w.all()
            &&& head(after.all()) == head(w.all())
            &&& w.buffered.len() > 0 ==> head(after.all()) == Some(w.buffered[0])
        }),
{
    lemma_read_ahead(w, 0, m);
    let between = w.read_ahead(0, m).1;
    lemma_read_ahead(between, 0, m);
}

/// Two states with the same pending items and equally many of them buffered are the same.
proof fn lemma_same_items_same_state<T>(a: Pending<T>, b: Pending<T>)
    requires
        a.all() == b.all(),
        a.buffered.len() == b.buffered.len(),
    ensures
        a == b,
{
    assert(a.buffered =~= a.all().take(a.buffered.len() as int));
    assert(b.buffered =~= b.all().take(b.buffered.len() as int));
    assert(a.unread =~= a.all().skip(a.buffered.len() as int));
    assert(b.unread =~= b.all().skip(b.buffered.len() as int));
    assert(a =~= b);
}

} // verus!
