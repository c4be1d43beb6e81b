use vstd::prelude::*;

verus! {

/// A cursor over a copied sequence of elements, read one at a time, with a
/// one-step rewind.
pub struct Buffer<T: Clone> {
    vec: Vec<T>,
    cur: usize,
}

impl<T: Clone> Buffer<T> {
    /// The elements the buffer was built over.
    pub closed spec fn items(&self) -> Seq<T> {
        self.vec@
    }

    /// The position of the next element to be read.
    pub closed spec fn pos(&self) -> int {
        self.cur as int
    }

    /// The position never runs past the end.
    pub closed spec fn wf(&self) -> bool {
        self.cur <= self.vec.len()
    }

    pub proof fn lemma_wf(&self)
        requires
            self.wf(),
        ensures
            0 <= self.pos() <= self.items().len() <= usize::MAX,
    {
    }

    pub fn new(vec: Vec<T>) -> (r: Self)
        ensures
            r.wf(),
            r.items() == vec@,
            r.pos() == 0,
    {
        Buffer { vec, cur: 0 }
    }

    pub fn default() -> (r: Self)
        ensures
            r.wf(),
            r.items() == Seq::<T>::empty(),
            r.pos() == 0,
    {
        Buffer { vec: Vec::new(), cur: 0 }
    }

    /// The position of the next element to be read.
    pub fn position(&self) -> (r: usize)
        ensures
            r == self.pos(),
    {
        self.cur
    }

    /// Whether an element is left to read.
    pub fn has_next(&self) -> (r: bool)
        requires
            self.wf(),
        ensures
            r == (self.pos() < self.items().len()),
    {
        self.cur < self.vec.len()
    }

    /// Reads the next element and moves past it; `None` once the elements
    /// are exhausted, in which case the position stays where it is.
    pub fn next(&mut self) -> (r: Option<T>)
        requires
            old(self).wf(),
        ensures
            final(self).wf(),
            final(self).items() == old(self).items(),
            old(self).pos() < old(self).items().len() ==> {
                &&& final(self).pos() == old(self).pos() + 1
                &&& r is Some
                &&& cloned(old(self).items()[old(self).pos()], r->0)
            },
            old(self).pos() >= old(self).items().len() ==> {
                &&& final(self).pos() == old(self).pos()
                &&& r is None
            },
    {
        if self.cur < self.vec.len() {
            let item = self.vec[self.cur].clone();
            self.cur = self.cur + 1;
            Some(item)
        } else {
            None
        }
    }

    /// Steps back one element and returns the element now under the cursor,
    /// which is the one the last `next` returned.
    pub fn prev(&mut self) -> (r: Option<T>)
        requires
            old(self).wf(),
            old(self).pos() > 0,
        ensures
            final(self).wf(),
            final(self).items() == old(self).items(),
            final(self).pos() == old(self).pos() - 1,
            r is Some,
            cloned(old(self).items()[final(self).pos()], r->0),
    {
        self.cur = self.cur - 1;
        Some(self.vec[self.cur].clone())
    }
}

} // verus!
