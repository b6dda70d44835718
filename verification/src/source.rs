//! Forward-only sequential sources of items.
use vstd::prelude::*;

verus! {

/// The first item of a sequence, if it has one.
pub open spec fn head<T>(s: Seq<T>) -> Option<T> {
    if s.len() > 0 {
        Some(s[0])
    } else {
        None
    }
}

/// A sequence without its first item; the empty sequence stays empty.
pub open spec fn tail<T>(s: Seq<T>) -> Seq<T> {
    if s.len() > 0 {
        s.drop_first()
    } else {
        s
    }
}

/// A finite source that hands out its items one by one, front to back, and never goes back.
///
/// Once `next` has returned `None` it returns `None` on every later call.
pub trait Source {
    type Item;

    /// The items that `next` has yet to hand out, in order.
    ///
    /// The default leaves the sequence unspecified; every verified source defines it.
    open spec fn remaining(&self) -> Seq<Self::Item> {
        arbitrary()
    }

    /// Hands out the first remaining item, or `None` when there is none left.
    fn next(&mut self) -> (item: Option<Self::Item>)
        ensures
            item == head(old(self).remaining()),
            final(self).remaining() == tail(old(self).remaining()),
    ;
}

/// A source over items held in memory.
pub struct VecSource<T: Copy> {
    items: Vec<T>,
    pos: usize,
}

impl<T: Copy> VecSource<T> {
    #[verifier::type_invariant]
    spec fn well_formed(self) -> bool {
        self.pos <= self.items@.len()
    }

    /// A source that hands out `items` from the first to the last.
    pub fn new(items: Vec<T>) -> (source: Self)
        ensures
            source.remaining() == items@,
    {
        let source = VecSource { items, pos: 0 };
        assert(source.items@.subrange(0, source.items@.len() as int) =~= source.items@);
        source
    }
}

impl<T: Copy> Source for VecSource<T> {
    type Item = T;

    closed spec fn remaining(&self) -> Seq<T> {
        self.items@.subrange(self.pos as int, self.items@.len() as int)
    }

    fn next(&mut self) -> (item: Option<T>) {
        proof {
            use_type_invariant(&*self);
        }
        if self.pos < self.items.len() {
            let item = self.items[self.pos];
            assert(self.remaining().drop_first() =~= self.items@.subrange(
                self.pos + 1,
                self.items@.len() as int,
            ));
            self.pos = self.pos + 1;
            Some(item)
        } else {
            None
        }
    }
}

} // verus!
