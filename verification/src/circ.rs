use vstd::prelude::*;

verus! {

/// The history `s` after pushing `e` with room for `cap` values: `e` is appended
/// and, when the history was full, its oldest value dropped.
pub open spec fn history_push<T>(s: Seq<T>, e: T, cap: nat) -> Seq<T> {
    if s.len() < cap {
        s.push(e)
    } else {
        s.drop_first().push(e)
    }
}

/// The history after pushing every value of `xs`, in order, into an empty buffer.
pub open spec fn history_of<T>(xs: Seq<T>, cap: nat) -> Seq<T>
    decreases xs.len(),
{
    if xs.len() == 0 {
        Seq::empty()
    } else {
        history_push(history_of(xs.drop_last(), cap), xs.last(), cap)
    }
}

/// Law: a buffer of capacity `cap > 0` that was given the values `xs` holds the
/// last `cap` of them (all of them when there are fewer), oldest first.
pub proof fn lemma_history_is_suffix<T>(xs: Seq<T>, cap: nat)
    requires
        cap > 0,
    ensures
        history_of(xs, cap) == xs.subrange(
            if xs.len() > cap { xs.len() - cap } else { 0 },
            xs.len() as int,
        ),
    decreases xs.len(),
{
    if xs.len() == 0 {
        assert(xs.subrange(0, 0) =~= Seq::<T>::empty());
    } else {
        let ys = xs.drop_last();
        lemma_history_is_suffix(ys, cap);
        let h = history_of(ys, cap);
        let lo = if ys.len() > cap { ys.len() - cap } else { 0 };
        if h.len() < cap {
            assert(h.push(xs.last()) =~= xs.subrange(lo, xs.len() as int));
        } else {
            assert(h.drop_first().push(xs.last()) =~= xs.subrange(lo + 1, xs.len() as int));
        }
    }
}

/// `Vec::into_boxed_slice`: the same elements, in the same order, as a boxed slice.
#[verifier::external_body]
fn into_boxed_slice<T>(v: Vec<T>) -> (r: Box<[T]>)
    ensures
        r@ == v@,
{
    v.into_boxed_slice()
}

/// A bounded history: keeps the most recent `size` pushed values, oldest first.
pub struct CircularBuffer<T> {
    buffer: Vec<T>,
    head: usize,
    size: usize,
}

impl<T> CircularBuffer<T> {
    /// The values currently held, oldest first.
    pub closed spec fn view(&self) -> Seq<T> {
        self.buffer@
    }

    /// The number of values the buffer can hold.
    pub closed spec fn capacity(&self) -> nat {
        self.size as nat
    }

    /// The buffer holds exactly `head` values, never more than its capacity.
    pub closed spec fn wf(&self) -> bool {
        &&& self.buffer@.len() == self.head as nat
        &&& self.head <= self.size
    }

    /// Creates an empty buffer that holds at most `size` values.
    pub fn new(size: usize) -> (r: CircularBuffer<T>)
        ensures
            r.wf(),
            r.view() == Seq::<T>::empty(),
            r.capacity() == size,
    {
        let v: Vec<T> = Vec::with_capacity(size);
        CircularBuffer { buffer: v, head: 0, size }
    }

    /// Pushes a new element to the end of the buffer. When the buffer is full the
    /// oldest element is dropped and the others shift left.
    pub fn push(&mut self, e: T)
        requires
            old(self).wf(),
            old(self).capacity() > 0,
        ensures
            final(self).wf(),
            final(self).capacity() == old(self).capacity(),
            final(self).view() == history_push(old(self).view(), e, old(self).capacity()),
    {
        if self.head >= self.size {
            let _dropped = self.buffer.remove(0);
            self.buffer.push(e);
        } else {
            self.buffer.push(e);
            self.head = self.head + 1;
        }
    }

    /// References to the values currently held, oldest first.
    pub fn values(&mut self) -> (r: Box<[&T]>)
        requires
            old(self).wf(),
        ensures
            final(self).wf(),
            final(self).view() == old(self).view(),
            final(self).capacity() == old(self).capacity(),
            r@.len() == old(self).view().len(),
            forall|i: int| 0 <= i < r@.len() ==> *r@[i] == old(self).view()[i],
    {
        let mut refs: Vec<&T> = Vec::new();
        let mut idx: usize = 0;
        while idx < self.head
            invariant
                self.buffer@.len() == self.head as nat,
                idx <= self.head,
                refs@.len() == idx as nat,
                forall|i: int| 0 <= i < idx ==> *refs@[i] == self.buffer@[i],
            decreases self.head - idx,
        {
            refs.push(&self.buffer[idx]);
            idx = idx + 1;
        }
        into_boxed_slice(refs)
    }

    /// The number of values currently held.
    pub fn len(&self) -> (r: usize)
        requires
            self.wf(),
        ensures
            r == self.view().len(),
    {
        self.head
    }
}

} // verus!
