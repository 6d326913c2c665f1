//! A bounded first-in-first-out window of the most recent samples.
use std::collections::VecDeque;
use vstd::prelude::*;

verus! {

/// The last `cap` elements of `s`, or all of them if there are fewer.
pub open spec fn keep_last<T>(s: Seq<T>, cap: nat) -> Seq<T> {
    if s.len() <= cap {
        s
    } else {
        s.skip(s.len() - cap)
    }
}

/// Keeping the last `cap` elements before appending more loses nothing that
/// keeping the last `cap` elements afterwards would keep.
pub proof fn lemma_keep_last_append<T>(a: Seq<T>, b: Seq<T>, cap: nat)
    ensures
        keep_last(keep_last(a, cap) + b, cap) == keep_last(a + b, cap),
{
    assert(keep_last(keep_last(a, cap) + b, cap) =~= keep_last(a + b, cap));
}

/// Concatenation of a sequence of chunks, in order.
pub open spec fn concat<T>(chunks: Seq<Seq<T>>) -> Seq<T>
    decreases chunks.len(),
{
    if chunks.len() == 0 {
        Seq::empty()
    } else {
        concat(chunks.drop_last()) + chunks.last()
    }
}

/// Contents of a window of capacity `cap` that started as `start` after each
/// of `chunks` was pushed in turn.
pub open spec fn after_pushes<T>(start: Seq<T>, chunks: Seq<Seq<T>>, cap: nat) -> Seq<T>
    decreases chunks.len(),
{
    if chunks.len() == 0 {
        start
    } else {
        keep_last(after_pushes(start, chunks.drop_last(), cap) + chunks.last(), cap)
    }
}

/// Pushing chunks one by one into an empty window leaves exactly the most
/// recent `cap` samples of all that was pushed, in the order they came; once
/// more than `cap` samples have been pushed the window holds `cap` of them.
pub proof fn lemma_pushes_keep_most_recent<T>(chunks: Seq<Seq<T>>, cap: nat)
    ensures
        after_pushes(Seq::<T>::empty(), chunks, cap) == keep_last(concat(chunks), cap),
        concat(chunks).len() >= cap ==> after_pushes(Seq::<T>::empty(), chunks, cap).len()
            == cap,
    decreases chunks.len(),
{
    if chunks.len() == 0 {
        assert(keep_last(Seq::<T>::empty(), cap) =~= Seq::<T>::empty());
    } else {
        lemma_pushes_keep_most_recent(chunks.drop_last(), cap);
        lemma_keep_last_append(concat(chunks.drop_last()), chunks.last(), cap);
    }
}

/// A FIFO of at most `capacity` samples: pushing appends at the tail and
/// drops the oldest samples from the head once the capacity is exceeded.
pub struct SlidingWindow<T> {
    samples: VecDeque<T>,
    capacity: usize,
}

impl<T> View for SlidingWindow<T> {
    type V = Seq<T>;

    closed spec fn view(&self) -> Seq<T> {
        self.samples@
    }
}

impl<T: Copy> SlidingWindow<T> {
    /// The window holds no more than its capacity.
    pub closed spec fn wf(&self) -> bool {
        self.samples@.len() <= self.capacity
    }

    /// The most samples the window holds.
    pub closed spec fn cap(&self) -> nat {
        self.capacity as nat
    }

    /// An empty window that holds at most `capacity` samples.
    pub fn new(capacity: usize) -> (w: Self)
        ensures
            w.wf(),
            w@ == Seq::<T>::empty(),
            w.cap() == capacity,
    {
        SlidingWindow { samples: VecDeque::new(), capacity }
    }

    /// Appends `samples` and keeps the most recent `capacity` of all samples.
    pub fn push(&mut self, samples: &[T])
        requires
            old(self).wf(),
        ensures
            final(self).wf(),
            final(self)@ == keep_last(old(self)@ + samples@, old(self).cap()),
            final(self).cap() == old(self).cap(),
    {
        let ghost start = self@;
        let ghost cap = self.cap();
        let mut k: usize = 0;
        assert(start + samples@.take(0) =~= start);
        while k < samples.len()
            invariant
                k <= samples@.len(),
                self.wf(),
                cap == self.cap(),
                self@ == keep_last(start + samples@.take(k as int), cap),
            decreases samples@.len() - k,
        {
            let ghost before = self@;
            if self.capacity > 0 {
                if self.samples.len() == self.capacity {
                    self.samples.pop_front();
                }
                self.samples.push_back(samples[k]);
            }
            proof {
                let x = samples@[k as int];
                assert(self@ =~= keep_last(before + seq![x], cap));
                lemma_keep_last_append(start + samples@.take(k as int), seq![x], cap);
                assert(start + samples@.take(k + 1) =~= start + samples@.take(k as int) + seq![
                    x,
                ]);
            }
            k = k + 1;
        }
        assert(samples@.take(k as int) =~= samples@);
    }

    /// Whether the window holds `capacity` samples.
    pub fn is_full(&self) -> (full: bool)
        ensures
            full == (self@.len() == self.cap()),
    {
        self.samples.len() == self.capacity
    }

    /// Number of samples held.
    pub fn len(&self) -> (n: usize)
        ensures
            n == self@.len(),
    {
        self.samples.len()
    }

    /// The most samples the window holds.
    pub fn capacity(&self) -> (c: usize)
        ensures
            c == self.cap(),
    {
        self.capacity
    }

    /// The samples held, oldest first.
    pub fn snapshot(&self) -> (out: Vec<T>)
        ensures
            out@ == self@,
    {
        let mut out: Vec<T> = Vec::new();
        let mut i: usize = 0;
        while i < self.samples.len()
            invariant
                i <= self@.len(),
                out@ == self@.take(i as int),
            decreases self@.len() - i,
        {
            out.push(self.samples[i]);
            i = i + 1;
            assert(out@ =~= self@.take(i as int));
        }
        assert(self@.take(i as int) =~= self@);
        out
    }
}

} // verus!
