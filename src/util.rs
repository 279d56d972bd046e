use vstd::prelude::*;
use vstd::std_specs::iter::IteratorSpec;

verus! {

/// The `k`-th item that a buffer would hand out, counting from the next pull:
/// first the buffered lookups (`None` when the sequence had already ended),
/// then the items still in the underlying sequence, then `None` for ever.
pub open spec fn ahead<T>(buf: Seq<Option<T>>, rest: Seq<T>, k: int) -> Option<T> {
    if 0 <= k < buf.len() {
        buf[k]
    } else if 0 <= k - buf.len() < rest.len() {
        Some(rest[k - buf.len()])
    } else {
        None
    }
}

/// Two-item lookahead over a pull-style sequence: every item of the underlying
/// iterator is handed out exactly once, however often it was peeked first.
pub struct DoublePeeker<I: Iterator> {
    first_peeked: Option<Option<I::Item>>,
    second_peeked: Option<Option<I::Item>>,
    iter: I,
}

impl<I: Iterator> DoublePeeker<I> where I::Item: Copy {
    /// The underlying iterator.
    pub closed spec fn inner(&self) -> I {
        self.iter
    }

    /// What has been pulled from the underlying iterator but not yet handed out.
    pub closed spec fn buffered(&self) -> Seq<Option<I::Item>> {
        match (self.first_peeked, self.second_peeked) {
            (Some(a), Some(b)) => seq![a, b],
            (Some(a), None) => seq![a],
            _ => Seq::empty(),
        }
    }

    /// The underlying iterator keeps its laws, and a second lookup is only
    /// ever buffered behind a first.
    pub closed spec fn wf(&self) -> bool {
        &&& self.iter.obeys_prophetic_iter_laws()
        &&& (self.first_peeked is None ==> self.second_peeked is None)
    }

    /// A buffer over `iter` with nothing looked up yet.
    pub fn new(iter: I) -> (r: Self)
        requires
            iter.obeys_prophetic_iter_laws(),
        ensures
            r.wf(),
            r.inner() == iter,
            r.buffered() == Seq::<Option<I::Item>>::empty(),
    {
        DoublePeeker { iter, first_peeked: None, second_peeked: None }
    }

    fn fill_first(&mut self)
        requires
            old(self).wf(),
        ensures
            final(self).wf(),
            final(self).first_peeked is Some,
            final(self).second_peeked == old(self).second_peeked,
            forall|k: int|
                ahead(final(self).buffered(), final(self).inner().remaining(), k) == ahead(
                    old(self).buffered(),
                    old(self).inner().remaining(),
                    k,
                ),
    {
        if self.first_peeked.is_none() {
            let v = self.iter.next();
            self.first_peeked = Some(v);
        }
    }

    /// The item that the next pull returns, without consuming it.
    pub fn peek(&mut self) -> (r: Option<I::Item>)
        requires
            old(self).wf(),
        ensures
            final(self).wf(),
            r == ahead(old(self).buffered(), old(self).inner().remaining(), 0),
            forall|k: int|
                ahead(final(self).buffered(), final(self).inner().remaining(), k) == ahead(
                    old(self).buffered(),
                    old(self).inner().remaining(),
                    k,
                ),
    {
        self.fill_first();
        match self.first_peeked {
            Some(v) => v,
            None => None,
        }
    }

    /// The item after the one that `peek` reports, without consuming either.
    pub fn peek_next(&mut self) -> (r: Option<I::Item>)
        requires
            old(self).wf(),
        ensures
            final(self).wf(),
            r == ahead(old(self).buffered(), old(self).inner().remaining(), 1),
            forall|k: int|
                ahead(final(self).buffered(), final(self).inner().remaining(), k) == ahead(
                    old(self).buffered(),
                    old(self).inner().remaining(),
                    k,
                ),
    {
        self.fill_first();
        if self.second_peeked.is_none() {
            let v = self.iter.next();
            self.second_peeked = Some(v);
        }
        match self.second_peeked {
            Some(v) => v,
            None => None,
        }
    }

    /// Hands out the next item, as the underlying iterator would have without
    /// any peek.
    pub fn next(&mut self) -> (r: Option<I::Item>)
        requires
            old(self).wf(),
        ensures
            final(self).wf(),
            r == ahead(old(self).buffered(), old(self).inner().remaining(), 0),
            forall|k: int|
                k >= 0 ==> ahead(final(self).buffered(), final(self).inner().remaining(), k)
                    == ahead(old(self).buffered(), old(self).inner().remaining(), k + 1),
    {
        let next_value = match self.first_peeked {
            Some(v) => v,
            None => self.iter.next(),
        };
        self.first_peeked = self.second_peeked;
        self.second_peeked = None;
        next_value
    }
}

} // verus!
