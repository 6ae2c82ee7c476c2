use vstd::prelude::*;
use crate::channels::ChannelBuffers;
use crate::layout::{lemma_planar, planar};
use crate::modular::{lemma_mod_back, lemma_mod_distinct, lemma_mod_succ};

verus! {

/// Abstract state of a bank of two circular delay lines (one per channel)
/// that share one write position.
pub struct DelayState<T> {
    pub lines: Seq<Seq<T>>,
    pub pos: int,
}

impl<T> DelayState<T> {
    /// Number of samples each line holds.
    pub open spec fn cap(self) -> int {
        self.lines[0].len() as int
    }

    /// Two lines of one positive length, write position inside them.
    pub open spec fn wf(self) -> bool {
        &&& self.lines.len() == 2
        &&& self.lines[0].len() == self.lines[1].len()
        &&& self.cap() > 0
        &&& 0 <= self.pos < self.cap()
    }

    /// Position that lies `delay` samples behind the write position.
    pub open spec fn behind(self, delay: int) -> int {
        (self.pos + self.cap() - delay) % self.cap()
    }

    /// The sample `delay` samples behind the write position of channel `c`.
    pub open spec fn tap(self, c: int, delay: int) -> T {
        self.lines[c][self.behind(delay)]
    }

    /// The samples of both channels `delay` samples behind the write position.
    pub open spec fn tap_pair(self, delay: int) -> (T, T) {
        (self.tap(0, delay), self.tap(1, delay))
    }

    /// Stores `x` at the write position of channel `c`.
    pub open spec fn write(self, c: int, x: T) -> DelayState<T> {
        DelayState { lines: self.lines.update(c, self.lines[c].update(self.pos, x)), pos: self.pos }
    }

    /// Moves the write position one sample forward, wrapping at the end.
    pub open spec fn advance(self) -> DelayState<T> {
        DelayState { lines: self.lines, pos: (self.pos + 1) % self.cap() }
    }

    /// Stores frame `x` at the write position, one sample per channel;
    /// channels beyond the frame's width keep their samples.
    pub open spec fn write_frame(self, x: Seq<T>) -> DelayState<T> {
        DelayState {
            lines: Seq::new(
                2,
                |c: int| if c < x.len() { self.lines[c].update(self.pos, x[c]) } else { self.lines[c] },
            ),
            pos: self.pos,
        }
    }

    /// One frame: store it, then move forward.
    pub open spec fn push_frame(self, x: Seq<T>) -> DelayState<T> {
        self.write_frame(x).advance()
    }

    /// Frames `xs` pushed one after the other.
    pub open spec fn feed(self, xs: Seq<Seq<T>>) -> DelayState<T>
        decreases xs.len(),
    {
        if xs.len() == 0 {
            self
        } else {
            self.feed(xs.drop_last()).push_frame(xs.last())
        }
    }

    /// Writing the samples of a frame channel by channel is writing the frame.
    pub proof fn lemma_write_channels(self, x0: T, x1: T)
        requires
            self.wf(),
        ensures
            self.write(0, x0).write(1, x1) == self.write_frame(seq![x0, x1]),
            self.write(0, x0) == self.write_frame(seq![x0]),
    {
        assert(self.write(0, x0).write(1, x1).lines =~= self.write_frame(seq![x0, x1]).lines);
        assert(self.write(0, x0).lines =~= self.write_frame(seq![x0]).lines);
    }

    proof fn lemma_feed_layout(self, xs: Seq<Seq<T>>)
        requires
            self.wf(),
        ensures
            self.feed(xs).wf(),
            self.feed(xs).cap() == self.cap(),
            self.feed(xs).pos == (self.pos + xs.len()) % self.cap(),
            forall|c: int, j: int|
                0 <= j < xs.len() && xs.len() - j <= self.cap() && 0 <= c < xs[j].len() && c < 2
                    ==> #[trigger] self.feed(xs).lines[c][(self.pos + j) % self.cap()] == xs[j][c],
            forall|c: int, j: int|
                0 <= c < 2 && xs.len() - self.cap() <= j < 0 ==> #[trigger] self.feed(xs).lines[c][(
                self.pos + j + self.cap()) % self.cap()] == self.lines[c][(self.pos + j + self.cap())
                    % self.cap()],
            forall|c: int|
                0 <= c < 2 && (forall|k: int| 0 <= k < xs.len() ==> (#[trigger] xs[k]).len() <= c)
                    ==> #[trigger] self.feed(xs).lines[c] == self.lines[c],
        decreases xs.len(),
    {
        let m = self.cap();
        if xs.len() == 0 {
            vstd::arithmetic::div_mod::lemma_small_mod(self.pos as nat, m as nat);
        } else {
            let n = xs.len() as int;
            let prev = self.feed(xs.drop_last());
            self.lemma_feed_layout(xs.drop_last());
            lemma_mod_succ(self.pos + n - 1, m);
            let now = self.feed(xs);
            assert(now == prev.push_frame(xs.last()));
            assert forall|c: int, j: int|
                0 <= j < n && n - j <= m && 0 <= c < xs[j].len() && c < 2 implies #[trigger] now.lines[c][(
            self.pos + j) % m] == xs[j][c] by {
                if j < n - 1 {
                    lemma_mod_distinct(self.pos + j, self.pos + n - 1, m);
                    assert(xs.drop_last()[j] == xs[j]);
                }
            }
            assert forall|c: int, j: int| 0 <= c < 2 && n - m <= j < 0 implies #[trigger] now.lines[c][(
            self.pos + j + m) % m] == self.lines[c][(self.pos + j + m) % m] by {
                lemma_mod_distinct(self.pos + j + m, self.pos + n - 1 + m, m);
                vstd::arithmetic::div_mod::lemma_mod_add_multiples_vanish(self.pos + n - 1, m);
                assert(self.pos + n - 1 + m == m + (self.pos + n - 1));
            }
            assert forall|c: int|
                0 <= c < 2 && (forall|k: int| 0 <= k < xs.len() ==> (#[trigger] xs[k]).len() <= c)
                    implies #[trigger] now.lines[c] == self.lines[c] by {
                assert forall|k: int| 0 <= k < xs.drop_last().len() implies (
                #[trigger] xs.drop_last()[k]).len() <= c by {
                    assert(xs.drop_last()[k] == xs[k]);
                }
                assert(xs.last().len() <= c);
            }
        }
    }

    /// A sample fed into a line is what a tap `delay` samples behind the write
    /// position reads exactly `delay` frames later, whatever was fed in
    /// between, for every delay from one sample up to the line's length.
    pub proof fn lemma_feed_tap(self, xs: Seq<Seq<T>>, c: int, delay: int)
        requires
            self.wf(),
            0 <= c < 2,
            1 <= delay <= self.cap(),
            delay <= xs.len(),
            c < xs[xs.len() - delay].len(),
        ensures
            self.feed(xs).tap(c, delay) == xs[xs.len() - delay][c],
    {
        let m = self.cap();
        let n = xs.len() as int;
        self.lemma_feed_layout(xs);
        lemma_mod_back(self.pos + n, delay, m);
        let j = n - delay;
        assert(self.pos + j == self.pos + n - delay);
        assert(self.feed(xs).lines[c][(self.pos + j) % m] == xs[j][c]);
    }

    /// Within a block run through the lines, the pair handed to the mix at
    /// frame `i` holds, for each channel, that channel's own line read `delay`
    /// samples back: what that channel stored `delay` frames earlier in the
    /// block, or, for the first `delay` frames, what its line held before the
    /// block at the matching position. A mono block leaves the second line
    /// alone, so its reads always come from before the block. This holds for
    /// every delay from one sample up to the line's length, across the wrap of
    /// the write position.
    pub proof fn lemma_block_echo(
        self,
        results: Seq<((T, T), (T, T))>,
        channels: int,
        i: int,
        delay: int,
    )
        requires
            self.wf(),
            1 <= channels <= 2,
            1 <= delay <= self.cap(),
            0 <= i <= results.len(),
        ensures
            i >= delay ==> self.feed(stored_frames(results, channels).take(i)).tap(0, delay)
                == results[i - delay].0.0,
            i >= delay && channels > 1 ==> self.feed(stored_frames(results, channels).take(i)).tap(
                1,
                delay,
            ) == results[i - delay].0.1,
            self.feed(stored_frames(results, channels).take(i)).tap_pair(delay).0 == if i
                >= delay {
                results[i - delay].0.0
            } else {
                self.lines[0][(self.pos + i + self.cap() - delay) % self.cap()]
            },
            self.feed(stored_frames(results, channels).take(i)).tap_pair(delay).1 == if i >= delay
                && channels > 1 {
                results[i - delay].0.1
            } else {
                self.lines[1][(self.pos + i + self.cap() - delay) % self.cap()]
            },
    {
        let m = self.cap();
        let w = stored_frames(results, channels).take(i);
        let s = self.feed(w);
        self.lemma_feed_layout(w);
        lemma_mod_back(self.pos + i, delay, m);
        vstd::arithmetic::div_mod::lemma_mod_add_multiples_vanish(self.pos + i - delay, m);
        assert(self.pos + i + m - delay == m + (self.pos + i - delay));
        assert(s.behind(delay) == (self.pos + i + m - delay) % m);
        if i >= delay {
            assert(w[i - delay] == pair_frame(results[i - delay].0, channels));
            self.lemma_feed_tap(w, 0, delay);
            if channels > 1 {
                self.lemma_feed_tap(w, 1, delay);
            }
        } else {
            let j = i - delay;
            assert(self.pos + j + m == self.pos + i + m - delay);
            assert(s.lines[0][(self.pos + j + m) % m] == self.lines[0][(self.pos + j + m) % m]);
            assert(s.lines[1][(self.pos + j + m) % m] == self.lines[1][(self.pos + j + m) % m]);
        }
        if channels == 1 {
            assert forall|k: int| 0 <= k < w.len() implies (#[trigger] w[k]).len() <= 1 by {}
            assert(s.lines[1] == self.lines[1]);
        }
    }

    /// A tap at delay zero reads the write position, which holds what was
    /// stored a whole line's length ago: the same as a tap at the line's length.
    pub proof fn lemma_tap_zero(self, c: int)
        requires
            self.wf(),
        ensures
            self.tap(c, 0) == self.tap(c, self.cap()),
            self.tap(c, 0) == self.lines[c][self.pos],
    {
        vstd::arithmetic::div_mod::lemma_mod_add_multiples_vanish(self.pos, self.cap());
        vstd::arithmetic::div_mod::lemma_small_mod(self.pos as nat, self.cap() as nat);
        assert(self.pos + self.cap() - 0 == self.cap() + self.pos);
    }

    /// Writing to one channel leaves every tap of the other channel as it was.
    pub proof fn lemma_write_other_channel(self, c: int, x: T, other: int, delay: int)
        requires
            self.wf(),
            0 <= c < 2,
            0 <= other < 2,
            other != c,
        ensures
            self.write(c, x).tap(other, delay) == self.tap(other, delay),
    {
    }
}

/// The samples of frame `i` of a planar block of one or two channels as a
/// pair (channel 0, channel 1); a mono block repeats its one channel.
pub open spec fn input_pair<T>(block: Seq<T>, channels: int, frames: int, i: int) -> (T, T) {
    (
        block[planar(0, i, frames)],
        if channels > 1 { block[planar(1, i, frames)] } else { block[planar(0, i, frames)] },
    )
}

/// Every sample of a planar block reaches the mix exactly once, in its own
/// frame and channel: sample `k` of a stereo block is the left sample of frame
/// `k` when `k < frames` and the right sample of frame `k - frames` otherwise;
/// a mono block hands each sample in both places of its frame's pair.
pub proof fn lemma_input_pair_channels<T>(block: Seq<T>, channels: int, frames: int)
    requires
        1 <= channels <= 2,
        0 <= frames,
        block.len() == channels * frames,
    ensures
        forall|i: int| 0 <= i < frames ==> (#[trigger] input_pair(block, channels, frames, i)).0 == block[i],
        channels == 2 ==> forall|i: int|
            0 <= i < frames ==> (#[trigger] input_pair(block, channels, frames, i)).1 == block[frames + i],
        channels == 1 ==> forall|i: int|
            0 <= i < frames ==> (#[trigger] input_pair(block, channels, frames, i)).1 == block[i],
        channels == 2 ==> forall|k: int|
            0 <= k < block.len() ==> #[trigger] block[k] == if k < frames {
                input_pair(block, channels, frames, k).0
            } else {
                input_pair(block, channels, frames, k - frames).1
            },
{
    assert forall|i: int| 0 <= i < frames implies (#[trigger] input_pair(block, channels, frames, i)).0 == block[i] by {
        lemma_planar(0, i, channels, frames);
    }
    if channels == 2 {
        assert forall|i: int| 0 <= i < frames implies (#[trigger] input_pair(block, channels, frames, i)).1 == block[frames + i] by {
            lemma_planar(1, i, channels, frames);
        }
        assert forall|k: int| 0 <= k < block.len() implies #[trigger] block[k] == if k < frames {
            input_pair(block, channels, frames, k).0
        } else {
            input_pair(block, channels, frames, k - frames).1
        } by {
            if k < frames {
                lemma_planar(0, k, channels, frames);
            } else {
                lemma_planar(1, k - frames, channels, frames);
            }
        }
    }
}

/// The frame that a pair stores into the lines of a block of `channels`
/// channels: both samples for stereo, the first one for mono.
pub open spec fn pair_frame<T>(p: (T, T), channels: int) -> Seq<T> {
    if channels > 1 { seq![p.0, p.1] } else { seq![p.0] }
}

/// The frames stored by a sequence of (stored pair, output pair) results.
pub open spec fn stored_frames<T>(results: Seq<((T, T), (T, T))>, channels: int) -> Seq<Seq<T>> {
    Seq::new(results.len(), |j: int| pair_frame(results[j].0, channels))
}

/// A bank of two circular delay lines sharing one write position: the delay
/// memory of the echo, ping-pong and flanger presets.
pub struct DelayBank<T> {
    lines: ChannelBuffers<T>,
    pos: usize,
}

impl<T: Copy> View for DelayBank<T> {
    type V = DelayState<T>;

    closed spec fn view(&self) -> DelayState<T> {
        DelayState { lines: self.lines@, pos: self.pos as int }
    }
}

impl<T: Copy> DelayBank<T> {
    /// Well-formed: the lines agree in length, which is positive, and the
    /// write position lies inside them.
    pub closed spec fn wf(&self) -> bool {
        &&& self.lines.wf()
        &&& self.lines.spec_len() > 0
        &&& self.pos < self.lines.spec_len()
    }

    /// The abstract state of a well-formed bank is well formed.
    pub proof fn lemma_wf(&self)
        requires
            self.wf(),
        ensures
            self@.wf(),
    {
        self.lines.lemma_shape();
    }

    /// Two lines of `capacity` samples of `silence`, writing at position 0.
    pub fn new(capacity: usize, silence: T) -> (r: Self)
        requires
            capacity > 0,
        ensures
            r.wf(),
            r@.wf(),
            r@.cap() == capacity,
            r@.pos == 0,
            forall|c: int, k: int| 0 <= c < 2 && 0 <= k < capacity ==> #[trigger] r@.lines[c][k] == silence,
    {
        let lines = ChannelBuffers::new(capacity, silence);
        proof {
            lines.lemma_shape();
        }
        DelayBank { lines, pos: 0 }
    }

    /// Number of samples each line holds.
    pub fn capacity(&self) -> (r: usize)
        requires
            self.wf(),
        ensures
            r == self@.cap(),
    {
        self.lines.len()
    }

    /// Current write position.
    pub fn write_pos(&self) -> (r: usize)
        requires
            self.wf(),
        ensures
            r == self@.pos,
    {
        self.pos
    }

    /// Delay in samples for a wanted delay: at most one sample less than a
    /// line's length.
    pub fn clamp_delay(&self, wanted: usize) -> (r: usize)
        requires
            self.wf(),
        ensures
            r == if wanted >= self@.cap() { self@.cap() - 1 } else { wanted as int },
    {
        let cap = self.lines.len();
        if wanted >= cap {
            cap - 1
        } else {
            wanted
        }
    }

    /// The sample of channel `c` that lies `delay` samples behind the write
    /// position (a delay of zero, or of a whole line, reads the write position).
    pub fn tap(&self, c: usize, delay: usize) -> (r: T)
        requires
            self.wf(),
            c < 2,
            delay <= self@.cap(),
        ensures
            r == self@.tap(c as int, delay as int),
    {
        proof {
            self.lines.lemma_shape();
        }
        let cap = self.lines.len();
        let pos = self.pos;
        let back = if delay <= pos {
            pos - delay
        } else {
            cap - (delay - pos)
        };
        proof {
            let m = cap as int;
            let p = pos as int;
            let d = delay as int;
            if d <= p {
                assert(p + m - d == m + (p - d));
                vstd::arithmetic::div_mod::lemma_mod_add_multiples_vanish(p - d, m);
                vstd::arithmetic::div_mod::lemma_small_mod((p - d) as nat, m as nat);
            } else {
                vstd::arithmetic::div_mod::lemma_small_mod((p + m - d) as nat, m as nat);
            }
        }
        self.lines.get(c, back)
    }

    /// The sample at position `k` of channel `c`.
    pub fn read(&self, c: usize, k: usize) -> (r: T)
        requires
            self.wf(),
            c < 2,
            k < self@.cap(),
        ensures
            r == self@.lines[c as int][k as int],
    {
        proof {
            self.lines.lemma_shape();
        }
        self.lines.get(c, k)
    }

    /// The two neighbouring positions that an interpolated read at the whole
    /// sample offset `whole` (counted from the start of a line) combines:
    /// `whole` wrapped into the line, and the position after it.
    pub fn taps(&self, whole: usize) -> (r: (usize, usize))
        requires
            self.wf(),
        ensures
            r.0 == whole as int % self@.cap(),
            r.1 == (whole as int % self@.cap() + 1) % self@.cap(),
            r.0 < self@.cap(),
            r.1 < self@.cap(),
    {
        let cap = self.lines.len();
        let first = whole % cap;
        let second = (first + 1) % cap;
        (first, second)
    }

    /// Stores `v` at the write position of channel `c`.
    pub fn write(&mut self, c: usize, v: T)
        requires
            old(self).wf(),
            c < 2,
        ensures
            final(self).wf(),
            final(self)@ == old(self)@.write(c as int, v),
    {
        proof {
            self.lines.lemma_shape();
        }
        let pos = self.pos;
        self.lines.set(c, pos, v);
    }

    /// Moves the write position one sample forward, wrapping at the end.
    pub fn advance(&mut self)
        requires
            old(self).wf(),
        ensures
            final(self).wf(),
            final(self)@ == old(self)@.advance(),
    {
        proof {
            self.lines.lemma_shape();
        }
        let cap = self.lines.len();
        let next = if self.pos + 1 == cap {
            0
        } else {
            self.pos + 1
        };
        proof {
            let m = cap as int;
            if next == 0 {
                assert((self.pos + 1) % m == 0) by {
                    vstd::arithmetic::div_mod::lemma_mod_self_0(m);
                }
            } else {
                vstd::arithmetic::div_mod::lemma_small_mod((self.pos + 1) as nat, m as nat);
            }
        }
        self.pos = next;
    }

    /// Runs a planar block of one or two channels through the lines. For
    /// every frame, `mix` gets the frame's input pair and the pair read
    /// `delay` samples behind the write position, and returns the pair to
    /// store and the pair to output; then the write position moves on. Returns
    /// the results of `mix`, frame by frame.
    pub fn run_block<F: Fn((T, T), (T, T)) -> ((T, T), (T, T))>(
        &mut self,
        input: &[T],
        output: &mut [T],
        channels: usize,
        frames: usize,
        delay: usize,
        mix: F,
    ) -> (results: Ghost<Seq<((T, T), (T, T))>>)
        requires
            old(self).wf(),
            1 <= channels <= 2,
            input@.len() == channels * frames,
            old(output)@.len() == channels * frames,
            delay <= old(self)@.cap(),
            forall|x: (T, T), d: (T, T)| call_requires(mix, (x, d)),
        ensures
            final(self).wf(),
            results@.len() == frames,
            final(self)@ == old(self)@.feed(stored_frames(results@, channels as int)),
            final(output)@.len() == old(output)@.len(),
            forall|i: int|
                0 <= i < frames ==> call_ensures(
                    mix,
                    (
                        input_pair(input@, channels as int, frames as int, i),
                        old(self)@.feed(stored_frames(results@, channels as int).take(i)).tap_pair(
                            delay as int,
                        ),
                    ),
                    #[trigger] results@[i],
                ),
            forall|c: int, i: int|
                0 <= c < channels && 0 <= i < frames ==> #[trigger] final(output)@[planar(
                    c,
                    i,
                    frames as int,
                )] == if c == 0 {
                    results@[i].1.0
                } else {
                    results@[i].1.1
                },
    {
        let _total = input.len();
        let ghost s0 = self@;
        let ghost mut done: Seq<((T, T), (T, T))> = Seq::empty();
        let mut i: usize = 0;
        proof {
            self.lemma_wf();
            assert(stored_frames(done, channels as int) =~= Seq::<Seq<T>>::empty());
        }
        while i < frames
            invariant
                self.wf(),
                i <= frames,
                1 <= channels <= 2,
                input@.len() == channels * frames,
                _total == input@.len(),
                output@.len() == channels * frames,
                delay <= s0.cap(),
                s0.wf(),
                self@.cap() == s0.cap(),
                forall|x: (T, T), d: (T, T)| call_requires(mix, (x, d)),
                done.len() == i,
                self@ == s0.feed(stored_frames(done, channels as int)),
                forall|j: int|
                    0 <= j < i ==> call_ensures(
                        mix,
                        (
                            input_pair(input@, channels as int, frames as int, j),
                            s0.feed(stored_frames(done, channels as int).take(j)).tap_pair(
                                delay as int,
                            ),
                        ),
                        #[trigger] done[j],
                    ),
                forall|c: int, j: int|
                    0 <= c < channels && 0 <= j < i ==> #[trigger] output@[planar(c, j, frames as int)]
                        == if c == 0 {
                        done[j].1.0
                    } else {
                        done[j].1.1
                    },
            decreases frames - i,
        {
            proof {
                self.lemma_wf();
                lemma_planar(0, i as int, channels as int, frames as int);
                if channels > 1 {
                    lemma_planar(1, i as int, channels as int, frames as int);
                }
            }
            let x0 = input[i];
            let x1 = if channels > 1 {
                input[frames + i]
            } else {
                x0
            };
            let d0 = self.tap(0, delay);
            let d1 = self.tap(1, delay);
            let r = mix((x0, x1), (d0, d1));
            let ghost before = self@;
            let (stored, out) = r;
            self.write(0, stored.0);
            if channels > 1 {
                self.write(1, stored.1);
            }
            self.advance();
            output[i] = out.0;
            if channels > 1 {
                output[frames + i] = out.1;
            }
            proof {
                let w = stored_frames(done, channels as int);
                let done2 = done.push(r);
                let w2 = stored_frames(done2, channels as int);
                assert(w2.drop_last() =~= w);
                assert(w2.last() == pair_frame(r.0, channels as int));
                before.lemma_write_channels(stored.0, stored.1);
                assert(self@ == s0.feed(w2));
                assert forall|j: int| 0 <= j < i + 1 implies call_ensures(
                    mix,
                    (
                        input_pair(input@, channels as int, frames as int, j),
                        s0.feed(stored_frames(done2, channels as int).take(j)).tap_pair(delay as int),
                    ),
                    #[trigger] done2[j],
                ) by {
                    assert(stored_frames(done2, channels as int).take(j) =~= stored_frames(
                        done,
                        channels as int,
                    ).take(j)) by {
                        if j == i {
                            assert(stored_frames(done2, channels as int).take(j) =~= w);
                            assert(w.take(j) =~= w);
                        }
                    }
                    if j < i {
                        assert(done2[j] == done[j]);
                    } else {
                        assert(w.take(j) =~= w);
                    }
                }
                assert forall|c: int, j: int|
                    0 <= c < channels && 0 <= j < i + 1 implies #[trigger] output@[planar(
                        c,
                        j,
                        frames as int,
                    )] == if c == 0 {
                        done2[j].1.0
                    } else {
                        done2[j].1.1
                    } by {
                    lemma_planar(c, j, channels as int, frames as int);
                    if j < i {
                        assert(done2[j] == done[j]);
                    }
                }
                done = done2;
            }
            i = i + 1;
        }
        proof {
            assert(stored_frames(done, channels as int).take(frames as int) =~= stored_frames(
                done,
                channels as int,
            ));
        }
        Ghost(done)
    }
}

} // verus!
