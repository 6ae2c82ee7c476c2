use vstd::prelude::*;
use crate::channels::ChannelBuffers;
use crate::layout::{frame_at, frames_of, lemma_planar, planar};

verus! {

/// Longest chunk, in frames, that the reversing slicer records.
pub const MAX_CHUNK: usize = 19200;

/// Abstract state of the reversing slicer: two buffers of one line per
/// channel; one records the current chunk while the other plays the previous
/// chunk backwards.
pub struct SlicerState<T> {
    pub a: Seq<Seq<T>>,
    pub b: Seq<Seq<T>>,
    pub recording_a: bool,
    pub pos: int,
}

/// Chunk length used for a wanted chunk length: at least one frame and at
/// most `MAX_CHUNK`.
pub open spec fn spec_chunk_len(wanted: int) -> int {
    if wanted > MAX_CHUNK {
        MAX_CHUNK as int
    } else if wanted < 1 {
        1
    } else {
        wanted
    }
}

/// `lines` with frame `x` stored at position `pos`, channel by channel;
/// channels beyond the frame's width keep their samples.
pub open spec fn record_frame<T>(lines: Seq<Seq<T>>, pos: int, x: Seq<T>) -> Seq<Seq<T>> {
    Seq::new(2, |c: int| if c < x.len() { lines[c].update(pos, x[c]) } else { lines[c] })
}

impl<T> SlicerState<T> {
    /// Four lines of `MAX_CHUNK` samples; write position inside them.
    pub open spec fn wf(self) -> bool {
        &&& self.a.len() == 2
        &&& self.b.len() == 2
        &&& forall|c: int| 0 <= c < 2 ==> #[trigger] self.a[c].len() == MAX_CHUNK
        &&& forall|c: int| 0 <= c < 2 ==> #[trigger] self.b[c].len() == MAX_CHUNK
        &&& 0 <= self.pos < MAX_CHUNK
    }

    /// The buffer that records the current chunk.
    pub open spec fn recording(self) -> Seq<Seq<T>> {
        if self.recording_a { self.a } else { self.b }
    }

    /// The buffer that plays the previous chunk.
    pub open spec fn playing(self) -> Seq<Seq<T>> {
        if self.recording_a { self.b } else { self.a }
    }

    /// The state a frame starts from with chunks of `n` frames: when the
    /// chunk length has dropped to or below the position reached, the current
    /// chunk is closed there, the buffers swap roles and recording restarts at
    /// position 0.
    pub open spec fn start(self, n: int) -> SlicerState<T> {
        if self.pos >= n {
            SlicerState { a: self.a, b: self.b, recording_a: !self.recording_a, pos: 0 }
        } else {
            self
        }
    }

    /// The sample channel `c` plays now, for chunks of `n` frames: the
    /// previous chunk read from its end towards its start.
    pub open spec fn play(self, n: int, c: int) -> T {
        let s = self.start(n);
        s.playing()[c][n - 1 - s.pos]
    }

    /// One frame `x` with chunks of `n` frames: record it, move forward, and
    /// swap the buffers' roles when the chunk is full.
    pub open spec fn step(self, n: int, x: Seq<T>) -> SlicerState<T> {
        let s = self.start(n);
        let recorded = record_frame(s.recording(), s.pos, x);
        let a = if s.recording_a { recorded } else { s.a };
        let b = if s.recording_a { s.b } else { recorded };
        if s.pos + 1 >= n {
            SlicerState { a, b, recording_a: !s.recording_a, pos: 0 }
        } else {
            SlicerState { a, b, recording_a: s.recording_a, pos: s.pos + 1 }
        }
    }

    /// Frames `xs` processed one after the other with chunks of `n` frames.
    pub open spec fn run(self, n: int, xs: Seq<Seq<T>>) -> SlicerState<T>
        decreases xs.len(),
    {
        if xs.len() == 0 {
            self
        } else {
            self.run(n, xs.drop_last()).step(n, xs.last())
        }
    }

    /// When the chunk length drops to or below the position reached, the
    /// chunk being recorded is closed at once: its buffer starts playing from
    /// position `n - 1` backwards, and the next chunk records from position 0.
    pub proof fn lemma_shorter_chunk_closes(self, n: int, x: Seq<T>, c: int)
        requires
            self.wf(),
            1 <= n <= MAX_CHUNK,
            n <= self.pos,
            x.len() <= 2,
        ensures
            self.play(n, c) == self.recording()[c][n - 1],
            self.step(n, x).recording_a == (if n == 1 { self.recording_a } else { !self.recording_a }),
            self.step(n, x).pos == (if n == 1 { 0int } else { 1int }),
            self.step(n, x).wf(),
    {
    }

    /// Running two stretches of frames one after the other is running them
    /// joined.
    pub proof fn lemma_run_concat(self, n: int, xs: Seq<Seq<T>>, ys: Seq<Seq<T>>)
        ensures
            self.run(n, xs + ys) == self.run(n, xs).run(n, ys),
        decreases ys.len(),
    {
        if ys.len() == 0 {
            assert(xs + ys =~= xs);
        } else {
            self.lemma_run_concat(n, xs, ys.drop_last());
            assert((xs + ys).drop_last() =~= xs + ys.drop_last());
            assert((xs + ys).last() == ys.last());
        }
    }

    /// Within one chunk started at position 0, fewer than `n` frames fill
    /// the first positions of the recording buffer, one frame per position,
    /// and leave the playing buffer alone.
    proof fn lemma_fill(self, n: int, xs: Seq<Seq<T>>)
        requires
            self.wf(),
            self.pos == 0,
            1 <= n <= MAX_CHUNK,
            xs.len() < n,
            forall|j: int| 0 <= j < xs.len() ==> (#[trigger] xs[j]).len() <= 2,
        ensures
            self.run(n, xs).wf(),
            self.run(n, xs).pos == xs.len(),
            self.run(n, xs).recording_a == self.recording_a,
            self.run(n, xs).playing() == self.playing(),
            forall|c: int, j: int|
                0 <= j < xs.len() && 0 <= c < xs[j].len() ==> #[trigger] self.run(
                    n,
                    xs,
                ).recording()[c][j] == xs[j][c],
        decreases xs.len(),
    {
        if xs.len() > 0 {
            let prev = self.run(n, xs.drop_last());
            self.lemma_fill(n, xs.drop_last());
            let now = self.run(n, xs);
            assert(now == prev.step(n, xs.last()));
            let m = xs.len() - 1;
            assert forall|c: int, j: int| 0 <= j < xs.len() && 0 <= c < xs[j].len() implies #[trigger] now.recording()[c][j]
                == xs[j][c] by {
                if j < m {
                    assert(xs.drop_last()[j] == xs[j]);
                    assert(prev.recording()[c][j] == xs[j][c]);
                }
            }
            if self.recording_a {
                assert(now.b == prev.b);
            } else {
                assert(now.a == prev.a);
            }
        }
    }

    /// While a new chunk is recorded, the previous chunk plays backwards:
    /// after a whole chunk `xs` of `n` frames recorded from the start of a
    /// chunk, and `ys` more frames, channel `c` plays frame
    /// `n - 1 - ys.len()` of `xs`.
    pub proof fn lemma_reverse_playback(self, n: int, xs: Seq<Seq<T>>, ys: Seq<Seq<T>>, c: int)
        requires
            self.wf(),
            self.pos == 0,
            1 <= n <= MAX_CHUNK,
            xs.len() == n,
            ys.len() < n,
            forall|j: int| 0 <= j < xs.len() ==> c < (#[trigger] xs[j]).len() <= 2,
            forall|j: int| 0 <= j < ys.len() ==> (#[trigger] ys[j]).len() <= 2,
            0 <= c,
        ensures
            self.run(n, xs + ys).play(n, c) == xs[n - 1 - ys.len()][c],
    {
        let head = xs.drop_last();
        assert forall|j: int| 0 <= j < head.len() implies (#[trigger] head[j]).len() <= 2 by {
            assert(head[j] == xs[j]);
        }
        self.lemma_fill(n, head);
        let before = self.run(n, head);
        let full = self.run(n, xs);
        assert(full == before.step(n, xs.last()));
        assert(full.pos == 0);
        assert(full.recording_a == !self.recording_a);
        assert forall|k: int| 0 <= k < n implies #[trigger] full.playing()[c][k] == xs[k][c] by {
            if k < n - 1 {
                assert(head[k] == xs[k]);
                assert(before.recording()[c][k] == xs[k][c]);
            }
        }
        full.lemma_fill(n, ys);
        self.lemma_run_concat(n, xs, ys);
    }
}

/// A wanted chunk length is used as it is whenever it is between one frame
/// and `MAX_CHUNK`; longer ones are cut to `MAX_CHUNK` and an empty one grows
/// to one frame.
pub proof fn lemma_chunk_len(wanted: int)
    ensures
        1 <= wanted <= MAX_CHUNK ==> spec_chunk_len(wanted) == wanted,
        wanted > MAX_CHUNK ==> spec_chunk_len(wanted) == MAX_CHUNK,
        wanted < 1 ==> spec_chunk_len(wanted) == 1,
        1 <= spec_chunk_len(wanted) <= MAX_CHUNK,
{
}

/// Chunk length used for a wanted chunk length: at least one frame and at
/// most `MAX_CHUNK`.
pub fn chunk_len(wanted: usize) -> (r: usize)
    ensures
        r == spec_chunk_len(wanted as int),
        1 <= wanted <= MAX_CHUNK ==> r == wanted,
        wanted > MAX_CHUNK ==> r == MAX_CHUNK,
        wanted == 0 ==> r == 1,
{
    if wanted > MAX_CHUNK {
        MAX_CHUNK
    } else if wanted < 1 {
        1
    } else {
        wanted
    }
}

/// The reversing slicer: records fixed-length chunks of a planar stream and,
/// while it records a chunk, plays the previous chunk backwards.
pub struct ReverseSlicer<T> {
    a: ChannelBuffers<T>,
    b: ChannelBuffers<T>,
    recording_a: bool,
    pos: usize,
}

impl<T: Copy> View for ReverseSlicer<T> {
    type V = SlicerState<T>;

    closed spec fn view(&self) -> SlicerState<T> {
        SlicerState { a: self.a@, b: self.b@, recording_a: self.recording_a, pos: self.pos as int }
    }
}

impl<T: Copy> ReverseSlicer<T> {
    /// Well-formed: four lines of `MAX_CHUNK` samples, write position inside.
    pub closed spec fn wf(&self) -> bool {
        &&& self.a.wf()
        &&& self.b.wf()
        &&& self.a.spec_len() == MAX_CHUNK
        &&& self.b.spec_len() == MAX_CHUNK
        &&& self.pos < MAX_CHUNK
    }

    proof fn lemma_wf(&self)
        requires
            self.wf(),
        ensures
            self@.wf(),
    {
        self.a.lemma_shape();
        self.b.lemma_shape();
    }

    /// Silent buffers, recording into the first buffer from position 0.
    pub fn new(silence: T) -> (r: Self)
        ensures
            r.wf(),
            r@.wf(),
            r@.recording_a,
            r@.pos == 0,
            forall|c: int, k: int|
                0 <= c < 2 && 0 <= k < MAX_CHUNK ==> #[trigger] r@.a[c][k] == silence
                    && r@.b[c][k] == silence,
    {
        let a = ChannelBuffers::new(MAX_CHUNK, silence);
        let b = ChannelBuffers::new(MAX_CHUNK, silence);
        let r = ReverseSlicer { a, b, recording_a: true, pos: 0 };
        proof {
            r.lemma_wf();
        }
        r
    }

    /// Position in the current chunk.
    pub fn write_pos(&self) -> (r: usize)
        requires
            self.wf(),
        ensures
            r == self@.pos,
    {
        self.pos
    }

    /// Processes frame `i` of a planar block with chunks of `n` frames.
    fn frame(
        &mut self,
        input: &[T],
        output: &mut [T],
        channels: usize,
        frames: usize,
        i: usize,
        n: usize,
    )
        requires
            old(self).wf(),
            1 <= n <= MAX_CHUNK,
            channels <= 2,
            i < frames,
            input@.len() == channels * frames,
            old(output)@.len() == channels * frames,
        ensures
            final(self).wf(),
            final(self)@ == old(self)@.step(n as int, frame_at(input@, channels as int, frames as int, i as int)),
            final(output)@.len() == old(output)@.len(),
            forall|k: int| 0 <= k < old(output)@.len() ==> #[trigger] final(output)@[k] == if channels > 0
                && k == planar(0, i as int, frames as int) {
                old(self)@.play(n as int, 0)
            } else if channels > 1 && k == planar(1, i as int, frames as int) {
                old(self)@.play(n as int, 1)
            } else {
                old(output)@[k]
            },
    {
        proof {
            self.lemma_wf();
            if channels > 0 {
                lemma_planar(0, i as int, channels as int, frames as int);
            }
            if channels > 1 {
                lemma_planar(1, i as int, channels as int, frames as int);
            }
        }
        let _total = input.len();
        if self.pos >= n {
            self.recording_a = !self.recording_a;
            self.pos = 0;
        }
        let ghost s0 = self@;
        let ghost x = frame_at(input@, channels as int, frames as int, i as int);
        let pos = self.pos;
        let read = n - 1 - pos;
        if channels > 0 {
            let v = input[i];
            if self.recording_a {
                self.a.set(0, pos, v);
                let y = self.b.get(0, read);
                output[i] = y;
            } else {
                self.b.set(0, pos, v);
                let y = self.a.get(0, read);
                output[i] = y;
            }
        }
        if channels > 1 {
            let k = frames + i;
            let v = input[k];
            if self.recording_a {
                self.a.set(1, pos, v);
                let y = self.b.get(1, read);
                output[k] = y;
            } else {
                self.b.set(1, pos, v);
                let y = self.a.get(1, read);
                output[k] = y;
            }
        }
        proof {
            let rec = record_frame(s0.recording(), s0.pos, x);
            if self.recording_a {
                assert(self.a@ =~= rec);
            } else {
                assert(self.b@ =~= rec);
            }
        }
        if pos + 1 >= n {
            self.recording_a = !self.recording_a;
            self.pos = 0;
        } else {
            self.pos = pos + 1;
        }
    }

    /// Processes a planar block of `frames` frames for `channels` channels
    /// with chunks of `chunk_len(wanted_chunk)` frames, writing what plays into
    /// `output`.
    pub fn process(
        &mut self,
        input: &[T],
        output: &mut [T],
        channels: usize,
        frames: usize,
        wanted_chunk: usize,
    )
        requires
            old(self).wf(),
            channels <= 2,
            input@.len() == channels * frames,
            old(output)@.len() == channels * frames,
        ensures
            final(self).wf(),
            final(self)@ == old(self)@.run(
                spec_chunk_len(wanted_chunk as int),
                frames_of(input@, channels as int, frames as int),
            ),
            final(output)@.len() == old(output)@.len(),
            forall|c: int, i: int|
                0 <= c < channels && 0 <= i < frames ==> #[trigger] final(output)@[planar(
                    c,
                    i,
                    frames as int,
                )] == old(self)@.run(
                    spec_chunk_len(wanted_chunk as int),
                    frames_of(input@, channels as int, frames as int).take(i),
                ).play(spec_chunk_len(wanted_chunk as int), c),
    {
        let n = chunk_len(wanted_chunk);
        let ghost s0 = self@;
        let ghost fs = frames_of(input@, channels as int, frames as int);
        let mut i: usize = 0;
        proof {
            assert(fs.take(0) =~= Seq::<Seq<T>>::empty());
        }
        while i < frames
            invariant
                self.wf(),
                i <= frames,
                channels <= 2,
                input@.len() == channels * frames,
                output@.len() == channels * frames,
                fs == frames_of(input@, channels as int, frames as int),
                n == spec_chunk_len(wanted_chunk as int),
                self@ == s0.run(n as int, fs.take(i as int)),
                1 <= n <= MAX_CHUNK,
                forall|c: int, j: int|
                    0 <= c < channels && 0 <= j < i ==> #[trigger] output@[planar(c, j, frames as int)]
                        == s0.run(n as int, fs.take(j)).play(n as int, c),
            decreases frames - i,
        {
            self.frame(input, output, channels, frames, i, n);
            proof {
                assert(fs.take(i as int + 1).drop_last() =~= fs.take(i as int));
                assert(fs[i as int] == frame_at(input@, channels as int, frames as int, i as int));
                assert(fs.take(i as int + 1).last() == fs[i as int]);
                assert forall|c: int, j: int|
                    0 <= c < channels && 0 <= j < i + 1 implies #[trigger] output@[planar(
                        c,
                        j,
                        frames as int,
                    )] == s0.run(n as int, fs.take(j)).play(n as int, c) by {
                    lemma_planar(c, j, channels as int, frames as int);
                }
            }
            i = i + 1;
        }
        proof {
            assert(fs.take(frames as int) =~= fs);
        }
    }
}

} // verus!
