use vstd::prelude::*;

verus! {

/// Per-channel sample storage for the (at most two) channels of a preset:
/// one line of equal length per channel.
pub struct ChannelBuffers<T> {
    first: Vec<T>,
    second: Vec<T>,
}

impl<T> View for ChannelBuffers<T> {
    type V = Seq<Seq<T>>;

    /// The lines, indexed by channel.
    closed spec fn view(&self) -> Seq<Seq<T>> {
        seq![self.first@, self.second@]
    }
}

impl<T: Copy> ChannelBuffers<T> {
    /// Well-formed: both lines have the same length.
    pub closed spec fn wf(&self) -> bool {
        self.first@.len() == self.second@.len()
    }

    /// Length of each line.
    pub closed spec fn spec_len(&self) -> nat {
        self.first@.len()
    }

    /// The view has one line per channel, each of the common length.
    pub proof fn lemma_shape(&self)
        requires
            self.wf(),
        ensures
            self@.len() == 2,
            self@[0].len() == self.spec_len(),
            self@[1].len() == self.spec_len(),
    {
    }

    /// Two lines of `len` samples, every sample equal to `fill`.
    pub fn new(len: usize, fill: T) -> (r: Self)
        ensures
            r.wf(),
            r.spec_len() == len,
            r@.len() == 2,
            forall|c: int, k: int| 0 <= c < 2 && 0 <= k < len ==> #[trigger] r@[c][k] == fill,
    {
        let mut first: Vec<T> = Vec::new();
        let mut second: Vec<T> = Vec::new();
        let mut n: usize = 0;
        while n < len
            invariant
                n <= len,
                first@.len() == n,
                second@.len() == n,
                forall|k: int| 0 <= k < n ==> #[trigger] first@[k] == fill,
                forall|k: int| 0 <= k < n ==> #[trigger] second@[k] == fill,
            decreases len - n,
        {
            first.push(fill);
            second.push(fill);
            n = n + 1;
        }
        ChannelBuffers { first, second }
    }

    /// Length of each line.
    pub fn len(&self) -> (r: usize)
        requires
            self.wf(),
        ensures
            r == self.spec_len(),
            r == self@[0].len(),
            r == self@[1].len(),
    {
        self.first.len()
    }

    /// The sample at position `k` of channel `c`.
    pub fn get(&self, c: usize, k: usize) -> (r: T)
        requires
            self.wf(),
            c < 2,
            k < self.spec_len(),
        ensures
            r == self@[c as int][k as int],
    {
        if c == 0 {
            self.first[k]
        } else {
            self.second[k]
        }
    }

    /// Replaces the sample at position `k` of channel `c`.
    pub fn set(&mut self, c: usize, k: usize, v: T)
        requires
            old(self).wf(),
            c < 2,
            k < old(self).spec_len(),
        ensures
            final(self).wf(),
            final(self).spec_len() == old(self).spec_len(),
            final(self)@ == old(self)@.update(c as int, old(self)@[c as int].update(k as int, v)),
    {
        if c == 0 {
            self.first.set(k, v);
        } else {
            self.second.set(k, v);
        }
        assert(self@ =~= old(self)@.update(c as int, old(self)@[c as int].update(k as int, v)));
    }
}

} // verus!
