//! A fixed-capacity buffer that turns one pass over a sequence into overlapping windows.
use vstd::prelude::*;

verus! {

/// All the windows of `len` consecutive elements of `s`, ordered by where they start.
pub open spec fn windows_of<T>(s: Seq<T>, len: nat) -> Seq<Seq<T>> {
    if s.len() >= len {
        Seq::new((s.len() - len + 1) as nat, |i: int| s.subrange(i, i + len))
    } else {
        Seq::empty()
    }
}

/// The end (exclusive) of the part of a buffer holding `buf_len` elements from which windows
/// of `for_len` elements are taken in the current cycle.
pub open spec fn overflow_start(capacity: nat, max_len: nat, buf_len: nat, for_len: nat) -> nat {
    let end = capacity - max_len + for_len;
    if end <= buf_len {
        end as nat
    } else {
        buf_len
    }
}

/// What a buffer with `capacity` and `max_len` keeps of `buf` when it is refilled.
pub open spec fn overflow_of<T>(buf: Seq<T>, capacity: nat, max_len: nat) -> Seq<T> {
    buf.skip(overflow_start(capacity, max_len, buf.len(), 1) as int)
}

/// How many elements a refill pulls from `input` at `pos` after keeping `kept` elements.
pub open spec fn pulled_count(capacity: nat, kept: nat, input_len: nat, pos: nat) -> nat {
    let room = capacity - kept;
    let left = input_len - pos;
    if room <= 0 || left <= 0 {
        0
    } else if room <= left {
        room as nat
    } else {
        left as nat
    }
}

/// The buffer contents and input position after one refill.
pub open spec fn refill_step<T>(buf: Seq<T>, input: Seq<T>, pos: nat, capacity: nat, max_len: nat) -> (
    Seq<T>,
    nat,
) {
    let kept = overflow_of(buf, capacity, max_len);
    let n = pulled_count(capacity, kept.len(), input.len(), pos);
    (kept + input.subrange(pos as int, (pos + n) as int), pos + n)
}

/// The windows of `len` elements that one cycle hands out for the buffer contents `buf`.
pub open spec fn fresh_windows<T>(buf: Seq<T>, capacity: nat, max_len: nat, len: nat) -> Seq<
    Seq<T>,
> {
    windows_of(buf.take(overflow_start(capacity, max_len, buf.len(), len) as int), len)
}

/// All the windows of `len` elements handed out by the cycles that follow the state
/// (`buf`, `pos`), in the order of the cycles.
pub open spec fn scan_windows<T>(
    input: Seq<T>,
    capacity: nat,
    max_len: nat,
    len: nat,
    buf: Seq<T>,
    pos: nat,
) -> Seq<Seq<T>>
    decreases input.len() - pos, buf.len(),
    via scan_windows_decreases::<T>
{
    if pos > input.len() || capacity < 2 * max_len || capacity == 0 {
        Seq::empty()
    } else {
        let (next, next_pos) = refill_step(buf, input, pos, capacity, max_len);
        if next.len() == 0 {
            Seq::empty()
        } else {
            fresh_windows(next, capacity, max_len, len) + scan_windows(
                input,
                capacity,
                max_len,
                len,
                next,
                next_pos,
            )
        }
    }
}

#[via_fn]
proof fn scan_windows_decreases<T>(
    input: Seq<T>,
    capacity: nat,
    max_len: nat,
    len: nat,
    buf: Seq<T>,
    pos: nat,
) {
    if !(pos > input.len() || capacity < 2 * max_len || capacity == 0) {
        let (next, next_pos) = refill_step(buf, input, pos, capacity, max_len);
        if next.len() > 0 {
            lemma_refill_progress(buf, input, pos, capacity, max_len);
        }
    }
}

/// The buffer contents of the cycles that follow the state (`buf`, `pos`): one entry for
/// each refill that leaves the buffer non-empty.
pub open spec fn scan_cycles<T>(input: Seq<T>, capacity: nat, max_len: nat, buf: Seq<T>, pos: nat) -> Seq<
    Seq<T>,
>
    decreases input.len() - pos, buf.len(),
    via scan_cycles_decreases::<T>
{
    if pos > input.len() || capacity < 2 * max_len {
        Seq::empty()
    } else {
        let (next, next_pos) = refill_step(buf, input, pos, capacity, max_len);
        if next.len() == 0 {
            Seq::empty()
        } else {
            seq![next] + scan_cycles(input, capacity, max_len, next, next_pos)
        }
    }
}

#[via_fn]
proof fn scan_cycles_decreases<T>(input: Seq<T>, capacity: nat, max_len: nat, buf: Seq<T>, pos: nat) {
    if !(pos > input.len() || capacity < 2 * max_len) {
        let (next, next_pos) = refill_step(buf, input, pos, capacity, max_len);
        if next.len() > 0 {
            lemma_refill_progress(buf, input, pos, capacity, max_len);
        }
    }
}

/// The windows of `len` elements that a sink takes out of `cycles`, cycle after cycle.
pub open spec fn fresh_of_cycles<T>(cycles: Seq<Seq<T>>, capacity: nat, max_len: nat, len: nat) -> Seq<
    Seq<T>,
>
    decreases cycles.len(),
{
    if cycles.len() == 0 {
        Seq::empty()
    } else {
        fresh_windows(cycles[0], capacity, max_len, len) + fresh_of_cycles(
            cycles.drop_first(),
            capacity,
            max_len,
            len,
        )
    }
}

/// One refill of a scan: either it leaves the buffer empty and the scan ends, or its
/// buffer is the first cycle.
pub proof fn lemma_scan_cycles_step<T>(input: Seq<T>, capacity: nat, max_len: nat, buf: Seq<T>, pos: nat)
    requires
        pos <= input.len(),
        capacity >= 2 * max_len,
    ensures
        refill_step(buf, input, pos, capacity, max_len).0.len() == 0 ==> scan_cycles(
            input,
            capacity,
            max_len,
            buf,
            pos,
        ) == Seq::<Seq<T>>::empty(),
        refill_step(buf, input, pos, capacity, max_len).0.len() > 0 ==> scan_cycles(
            input,
            capacity,
            max_len,
            buf,
            pos,
        ) == seq![refill_step(buf, input, pos, capacity, max_len).0] + scan_cycles(
            input,
            capacity,
            max_len,
            refill_step(buf, input, pos, capacity, max_len).0,
            refill_step(buf, input, pos, capacity, max_len).1,
        ),
{
}

/// The windows taken out of the cycles that follow a state are the windows that the scan
/// from that state hands out.
proof fn lemma_cycles_match_scan<T>(
    input: Seq<T>,
    capacity: nat,
    max_len: nat,
    len: nat,
    buf: Seq<T>,
    pos: nat,
)
    requires
        capacity >= 2 * max_len,
        capacity > 0,
    ensures
        fresh_of_cycles(scan_cycles(input, capacity, max_len, buf, pos), capacity, max_len, len)
            == scan_windows(input, capacity, max_len, len, buf, pos),
    decreases input.len() - pos, buf.len(),
{
    if pos <= input.len() {
        let (next, next_pos) = refill_step(buf, input, pos, capacity, max_len);
        if next.len() > 0 {
            lemma_refill_progress(buf, input, pos, capacity, max_len);
            lemma_cycles_match_scan(input, capacity, max_len, len, next, next_pos);
            let cs = scan_cycles(input, capacity, max_len, buf, pos);
            assert(cs[0] == next);
            assert(cs.drop_first() =~= scan_cycles(input, capacity, max_len, next, next_pos));
        } else {
            assert(fresh_of_cycles(Seq::<Seq<T>>::empty(), capacity, max_len, len) =~= Seq::<
                Seq<T>,
            >::empty());
        }
    } else {
        assert(fresh_of_cycles(Seq::<Seq<T>>::empty(), capacity, max_len, len) =~= Seq::<
            Seq<T>,
        >::empty());
    }
}

/// The windows of `len` elements that a sink takes out of every cycle of a scan over
/// `input`, starting from an empty buffer, are exactly the windows of `input` taken in one
/// go.
pub proof fn lemma_cycles_give_windows<T>(input: Seq<T>, capacity: nat, max_len: nat, len: nat)
    requires
        capacity >= 2 * max_len,
        1 <= len <= max_len,
    ensures
        fresh_of_cycles(scan_cycles(input, capacity, max_len, Seq::empty(), 0), capacity, max_len, len)
            == windows_of(input, len),
{
    lemma_cycles_match_scan(input, capacity, max_len, len, Seq::empty(), 0);
    lemma_scan_matches_windows(input, capacity, max_len, len);
}

/// A little helper to iterate over a long sequence while regularly taking windows from a buffer.
pub struct WindowBuffer<T> {
    buffer: Vec<T>,
    capacity: usize,
    max_len: usize,
}

/// Something that takes the windows out of each cycle of [`WindowBuffer::iterate`].
pub trait WindowSink<T> {
    /// The sink's own invariant, which taking a cycle keeps.
    spec fn ready(&self) -> bool;

    /// What the sink was set up with (for a collector, the window length), which taking a
    /// cycle leaves alone.
    spec fn setting(&self) -> nat;

    /// The buffers handed over so far, one entry per cycle, in order: the contents, the
    /// capacity and the longest window length.
    spec fn cycles(&self) -> Seq<(Seq<T>, nat, nat)>;

    /// Take the buffer of one cycle; it is never empty.
    fn absorb(&mut self, buf: &WindowBuffer<T>)
        requires
            old(self).ready(),
            buf.wf(),
            buf@.len() > 0,
        ensures
            final(self).ready(),
            final(self).setting() == old(self).setting(),
            final(self).cycles() == old(self).cycles().push(
                (buf@, buf.spec_capacity(), buf.spec_max_len()),
            ),
    ;
}

/// The cycle contents `cs`, each with the capacity and longest window length of its buffer.
pub open spec fn with_params<T>(cs: Seq<Seq<T>>, capacity: nat, max_len: nat) -> Seq<(Seq<T>, nat, nat)> {
    cs.map_values(|c: Seq<T>| (c, capacity, max_len))
}

/// The windows of `len` elements taken out of each recorded cycle in turn; a cycle whose
/// buffer allows no windows of that length gives none.
pub open spec fn taken<T>(cycles: Seq<(Seq<T>, nat, nat)>, len: nat) -> Seq<Seq<T>>
    decreases cycles.len(),
{
    if cycles.len() == 0 {
        Seq::empty()
    } else {
        let (c, capacity, max_len) = cycles[0];
        (if 1 <= len <= max_len {
            fresh_windows(c, capacity, max_len, len)
        } else {
            Seq::empty()
        }) + taken(cycles.drop_first(), len)
    }
}

/// Taking one more cycle appends its windows.
proof fn lemma_taken_push<T>(cycles: Seq<(Seq<T>, nat, nat)>, x: (Seq<T>, nat, nat), len: nat)
    ensures
        taken(cycles.push(x), len) == taken(cycles, len) + (if 1 <= len <= x.2 {
            fresh_windows(x.0, x.1, x.2, len)
        } else {
            Seq::empty()
        }),
    decreases cycles.len(),
{
    let last = if 1 <= len <= x.2 {
        fresh_windows(x.0, x.1, x.2, len)
    } else {
        Seq::empty()
    };
    if cycles.len() == 0 {
        assert(cycles.push(x).drop_first() =~= Seq::<(Seq<T>, nat, nat)>::empty());
        assert(cycles.push(x)[0] == x);
        assert(taken(Seq::<(Seq<T>, nat, nat)>::empty(), len) =~= Seq::<Seq<T>>::empty());
        assert(last + Seq::<Seq<T>>::empty() =~= last);
        assert(taken(cycles.push(x), len) =~= last);
        assert(taken(cycles, len) + last =~= last);
    } else {
        lemma_taken_push(cycles.drop_first(), x, len);
        assert(cycles.push(x).drop_first() =~= cycles.drop_first().push(x));
        assert(cycles.push(x)[0] == cycles[0]);
        let (c, capacity, max_len) = cycles[0];
        let head = if 1 <= len <= max_len {
            fresh_windows(c, capacity, max_len, len)
        } else {
            Seq::empty()
        };
        assert(head + (taken(cycles.drop_first(), len) + last) =~= (head + taken(
            cycles.drop_first(),
            len,
        )) + last);
    }
}

/// With one capacity and longest window length for all cycles, the windows taken are the
/// fresh windows of the cycles.
proof fn lemma_taken_uniform<T>(cs: Seq<Seq<T>>, capacity: nat, max_len: nat, len: nat)
    requires
        1 <= len <= max_len,
    ensures
        taken(with_params(cs, capacity, max_len), len) == fresh_of_cycles(cs, capacity, max_len, len),
    decreases cs.len(),
{
    if cs.len() > 0 {
        lemma_taken_uniform(cs.drop_first(), capacity, max_len, len);
        assert(with_params(cs, capacity, max_len).drop_first() =~= with_params(
            cs.drop_first(),
            capacity,
            max_len,
        ));
    }
}

/// A sink that keeps the windows of one length out of every cycle.
pub struct WindowCollector<T> {
    len: usize,
    windows: Vec<Vec<T>>,
    cycles: Ghost<Seq<(Seq<T>, nat, nat)>>,
}

impl<T: Copy> WindowCollector<T> {
    /// The window length collected.
    pub closed spec fn spec_len(&self) -> nat {
        self.len as nat
    }

    /// The window length is the collector's setting, so it survives [`WindowBuffer::iterate`].
    pub proof fn lemma_len_is_setting(&self)
        ensures
            self.spec_len() == self.setting(),
    {
    }

    /// The windows collected so far.
    pub closed spec fn collected(&self) -> Seq<Seq<T>> {
        self.windows@.map_values(|w: Vec<T>| w@)
    }

    /// A collector of the windows of `len` elements that has seen no cycle yet.
    pub fn new(len: usize) -> (r: Self)
        ensures
            r.ready(),
            r.spec_len() == len,
            r.cycles() == Seq::<(Seq<T>, nat, nat)>::empty(),
            r.collected() == Seq::<Seq<T>>::empty(),
    {
        let r = WindowCollector { len, windows: Vec::new(), cycles: Ghost(Seq::empty()) };
        proof {
            assert(r.collected() =~= Seq::<Seq<T>>::empty());
        }
        r
    }

    /// A collector that has taken every cycle of a scan over `input` from an empty buffer
    /// holds exactly the windows of `input` taken in one go.
    pub proof fn lemma_collected_windows(&self, input: Seq<T>, capacity: nat, max_len: nat)
        requires
            self.ready(),
            self.cycles() == with_params(
                scan_cycles(input, capacity, max_len, Seq::empty(), 0),
                capacity,
                max_len,
            ),
            capacity >= 2 * max_len,
            1 <= self.spec_len() <= max_len,
        ensures
            self.collected() == windows_of(input, self.spec_len()),
    {
        lemma_taken_uniform(
            scan_cycles(input, capacity, max_len, Seq::empty(), 0),
            capacity,
            max_len,
            self.spec_len(),
        );
        lemma_cycles_give_windows(input, capacity, max_len, self.spec_len());
    }

    /// The windows collected, each as a vector.
    pub fn into_windows(self) -> (r: Vec<Vec<T>>)
        ensures
            r@.map_values(|w: Vec<T>| w@) == self.collected(),
    {
        self.windows
    }
}

impl<T: Copy> WindowSink<T> for WindowCollector<T> {
    /// The windows collected are those that the recorded cycles allow.
    closed spec fn ready(&self) -> bool {
        self.collected() == taken(self.cycles@, self.len as nat)
    }

    closed spec fn cycles(&self) -> Seq<(Seq<T>, nat, nat)> {
        self.cycles@
    }

    closed spec fn setting(&self) -> nat {
        self.len as nat
    }

    fn absorb(&mut self, buf: &WindowBuffer<T>) {
        let ghost x = (buf@, buf.spec_capacity(), buf.spec_max_len());
        let ghost before = self.collected();
        proof {
            lemma_taken_push(self.cycles@, x, self.len as nat);
        }
        if 1 <= self.len && self.len <= buf.max_len() {
            let ws = buf.windows(self.len);
            let ghost fresh = fresh_windows(buf@, buf.spec_capacity(), buf.spec_max_len(), self.len as nat);
            let mut i: usize = 0;
            while i < ws.len()
                invariant
                    i <= ws@.len(),
                    ws@.len() == fresh.len(),
                    forall|j: int| 0 <= j < ws@.len() ==> #[trigger] ws@[j]@ == fresh[j],
                    self.windows@.map_values(|w: Vec<T>| w@) == before + fresh.take(i as int),
                    self.cycles == old(self).cycles,
                    self.len == old(self).len,
                decreases ws@.len() - i,
            {
                let w = vstd::slice::slice_to_vec(ws[i]);
                let ghost prev = self.windows@;
                self.windows.push(w);
                proof {
                    assert(self.windows@.map_values(|w: Vec<T>| w@) =~= prev.map_values(
                        |w: Vec<T>| w@,
                    ).push(w@));
                    assert(fresh.take(i + 1int) =~= fresh.take(i as int).push(fresh[i as int]));
                    assert(before + fresh.take(i + 1int) =~= (before + fresh.take(i as int)).push(
                        fresh[i as int],
                    ));
                }
                i = i + 1;
            }
            proof {
                assert(fresh.take(i as int) =~= fresh);
            }
        } else {
            proof {
                assert(before + Seq::<Seq<T>>::empty() =~= before);
            }
        }
        self.cycles = Ghost(self.cycles@.push(x));
    }
}

impl<T: Copy> WindowBuffer<T> {
    /// All the windows of `len` elements of `input`, taken cycle by cycle with this empty
    /// buffer: the same windows, in the same order, as taking them from `input` in one go.
    pub fn collect(self, input: &[T], len: usize) -> (r: Vec<Vec<T>>)
        requires
            self.wf(),
            self@.len() == 0,
            1 <= len <= self.spec_max_len(),
        ensures
            r@.map_values(|w: Vec<T>| w@) == windows_of(input@, len as nat),
    {
        let ghost cap = self.spec_capacity();
        let ghost max = self.spec_max_len();
        proof {
            assert(self@ =~= Seq::<T>::empty());
        }
        let mut sink = WindowCollector::new(len);
        proof {
            sink.lemma_len_is_setting();
        }
        self.iterate(input, &mut sink);
        proof {
            sink.lemma_len_is_setting();
            let cs = scan_cycles(input@, cap, max, Seq::<T>::empty(), 0);
            assert(Seq::<(Seq<T>, nat, nat)>::empty() + with_params(cs, cap, max) =~= with_params(
                cs,
                cap,
                max,
            ));
            sink.lemma_collected_windows(input@, cap, max);
        }
        sink.into_windows()
    }
}

impl<T> View for WindowBuffer<T> {
    type V = Seq<T>;

    /// The elements currently held.
    closed spec fn view(&self) -> Seq<T> {
        self.buffer@
    }
}

impl<T> WindowBuffer<T> {
    /// The number of elements the buffer holds after a refill that is not cut short.
    pub closed spec fn spec_capacity(&self) -> nat {
        self.capacity as nat
    }

    /// The longest window that may be requested.
    pub closed spec fn spec_max_len(&self) -> nat {
        self.max_len as nat
    }

    pub open spec fn wf(&self) -> bool {
        &&& self.spec_capacity() >= 2 * self.spec_max_len()
        &&& self@.len() <= self.spec_capacity()
        &&& self.spec_capacity() <= usize::MAX
    }
}

impl<T: Copy> WindowBuffer<T> {
    /// Create a new buffer with room for at least 4KB of elements.
    pub fn new(max_len: usize) -> (r: Self)
        requires
            max_len <= usize::MAX / 2,
        ensures
            r.wf(),
            r@ == Seq::<T>::empty(),
            r.spec_max_len() == max_len,
            r.spec_capacity() == if 2 * max_len <= page_elems::<T>() {
                page_elems::<T>()
            } else {
                (2 * max_len) as nat
            },
    {
        let size = core::mem::size_of::<T>();
        let page = if size == 0 {
            4096
        } else {
            4096 / size
        };
        let capacity = if 2 * max_len <= page {
            page
        } else {
            2 * max_len
        };
        match Self::with_capacity(max_len, capacity) {
            Some(b) => b,
            None => {
                assert(false);
                WindowBuffer { buffer: Vec::new(), capacity, max_len }
            },
        }
    }

    /// Create a buffer with room for `capacity` elements.
    ///
    /// Returns `None` if `capacity` is smaller than `2 * max_len`.
    pub fn with_capacity(max_len: usize, capacity: usize) -> (r: Option<Self>)
        ensures
            r is None <==> capacity < 2 * max_len,
            r matches Some(b) ==> {
                &&& b.wf()
                &&& b@ == Seq::<T>::empty()
                &&& b.spec_capacity() == capacity
                &&& b.spec_max_len() == max_len
            },
    {
        if max_len > capacity / 2 {
            return None;
        }
        Some(WindowBuffer { buffer: Vec::new(), capacity, max_len })
    }

    /// The number of elements held.
    pub fn len(&self) -> (r: usize)
        ensures
            r == self@.len(),
    {
        self.buffer.len()
    }

    /// The capacity given on creation.
    pub fn capacity(&self) -> (r: usize)
        ensures
            r == self.spec_capacity(),
    {
        self.capacity
    }

    /// The longest window length given on creation.
    pub fn max_len(&self) -> (r: usize)
        ensures
            r == self.spec_max_len(),
    {
        self.max_len
    }

    /// The end of the part of the buffer from which windows of `for_len` elements are taken.
    pub fn first_in_overflow(&self, for_len: usize) -> (r: usize)
        requires
            self.wf(),
            for_len <= self.spec_max_len() + 1,
        ensures
            r == overflow_start(
                self.spec_capacity(),
                self.spec_max_len(),
                self@.len(),
                for_len as nat,
            ),
    {
        let begin = self.capacity - self.max_len;
        let len = self.buffer.len();
        if begin >= len || for_len >= len - begin {
            len
        } else {
            begin + for_len
        }
    }

    /// Remove all the elements from the buffer but the overflow, which moves to the start.
    pub fn consume(&mut self)
        requires
            old(self).wf(),
        ensures
            final(self).wf(),
            final(self)@ == overflow_of(old(self)@, old(self).spec_capacity(), old(self).spec_max_len()),
            final(self).spec_capacity() == old(self).spec_capacity(),
            final(self).spec_max_len() == old(self).spec_max_len(),
    {
        let start = self.first_in_overflow(1);
        let rest = self.buffer.split_off(start);
        self.buffer = rest;
    }

    /// Fill the buffer from `input`, starting at `*pos`, until `capacity` is reached.
    pub fn fill(&mut self, input: &[T], pos: &mut usize)
        requires
            old(self).wf(),
            *old(pos) <= input@.len(),
        ensures
            final(self).wf(),
            final(self).spec_capacity() == old(self).spec_capacity(),
            final(self).spec_max_len() == old(self).spec_max_len(),
            ({
                let n = pulled_count(
                    old(self).spec_capacity(),
                    old(self)@.len(),
                    input@.len(),
                    *old(pos) as nat,
                );
                &&& *final(pos) == *old(pos) + n
                &&& final(self)@ == old(self)@ + input@.subrange(*old(pos) as int, *final(pos) as int)
            }),
    {
        let ghost start = *pos;
        let ghost before = self.buffer@;
        while self.buffer.len() < self.capacity && *pos < input.len()
            invariant
                start <= *pos <= input@.len(),
                self.wf(),
                self.spec_capacity() == old(self).spec_capacity(),
                self.spec_max_len() == old(self).spec_max_len(),
                self@.len() - before.len() == *pos - start,
                self@ == before + input@.subrange(start as int, *pos as int),
            decreases input@.len() - *pos,
        {
            let x = input[*pos];
            self.buffer.push(x);
            *pos = *pos + 1;
            proof {
                assert(input@.subrange(start as int, *pos as int) =~= input@.subrange(
                    start as int,
                    *pos - 1,
                ).push(x));
            }
        }
    }

    /// Clear the current contents of the buffer, leaving only the overflow, then fill it from
    /// `input` starting at `*pos`, which moves past the elements taken.
    pub fn refill(&mut self, input: &[T], pos: &mut usize)
        requires
            old(self).wf(),
            *old(pos) <= input@.len(),
        ensures
            final(self).wf(),
            final(self).spec_capacity() == old(self).spec_capacity(),
            final(self).spec_max_len() == old(self).spec_max_len(),
            (final(self)@, *final(pos) as nat) == refill_step(
                old(self)@,
                input@,
                *old(pos) as nat,
                old(self).spec_capacity(),
                old(self).spec_max_len(),
            ),
    {
        self.consume();
        self.fill(input, pos);
    }

    /// All the windows of `len` elements that were not handed out in an earlier cycle.
    pub fn windows(&self, len: usize) -> (r: Vec<&[T]>)
        requires
            self.wf(),
            1 <= len <= self.spec_max_len(),
        ensures
            r@.len() == fresh_windows(
                self@,
                self.spec_capacity(),
                self.spec_max_len(),
                len as nat,
            ).len(),
            forall|i: int|
                0 <= i < r@.len() ==> #[trigger] r@[i]@ == fresh_windows(
                    self@,
                    self.spec_capacity(),
                    self.spec_max_len(),
                    len as nat,
                )[i],
    {
        let end = self.first_in_overflow(len);
        let all = self.buffer.as_slice();
        let mut r: Vec<&[T]> = Vec::new();
        if end < len {
            return r;
        }
        let ghost head = self@.take(end as int);
        let mut i: usize = 0;
        while i <= end - len
            invariant
                1 <= len <= end <= self@.len(),
                self.wf(),
                all@ == self@,
                head == self@.take(end as int),
                i <= end - len + 1,
                r@.len() == i,
                forall|j: int|
                    0 <= j < i ==> #[trigger] r@[j]@ == head.subrange(j, j + len),
            decreases end + 1 - i,
        {
            let w = &all[i..i + len];
            r.push(w);
            i = i + 1;
        }
        r
    }

    /// Run through all of `input`, handing the buffer to `sink` after every refill that leaves
    /// it non-empty, so that the windows taken in each cycle together are the windows of
    /// `input` taken in one go (see [`lemma_cycles_give_windows`]).
    pub fn iterate<S: WindowSink<T>>(self, input: &[T], sink: &mut S)
        requires
            self.wf(),
            old(sink).ready(),
        ensures
            final(sink).ready(),
            final(sink).setting() == old(sink).setting(),
            final(sink).cycles() == old(sink).cycles() + with_params(
                scan_cycles(input@, self.spec_capacity(), self.spec_max_len(), self@, 0),
                self.spec_capacity(),
                self.spec_max_len(),
            ),
    {
        let ghost cap = self.spec_capacity();
        let ghost max = self.spec_max_len();
        let ghost all = with_params(scan_cycles(input@, cap, max, self@, 0), cap, max);
        let mut buf = self;
        let mut pos: usize = 0;
        let mut done = false;
        while !done
            invariant
                buf.wf(),
                buf.spec_capacity() == cap,
                buf.spec_max_len() == max,
                pos <= input@.len(),
                sink.ready(),
                sink.setting() == old(sink).setting(),
                all == with_params(scan_cycles(input@, cap, max, self@, 0), cap, max),
                !done ==> old(sink).cycles() + all == sink.cycles() + with_params(
                    scan_cycles(input@, cap, max, buf@, pos as nat),
                    cap,
                    max,
                ),
                done ==> sink.cycles() == old(sink).cycles() + all,
            decreases input@.len() - pos, buf@.len(), if done {
                0int
            } else {
                1int
            },
        {
            let ghost before = buf@;
            let ghost before_pos = pos as nat;
            let ghost seen = sink.cycles();
            buf.refill(input, &mut pos);
            proof {
                lemma_scan_cycles_step(input@, cap, max, before, before_pos);
            }
            if buf.buffer.len() == 0 {
                proof {
                    assert(with_params(Seq::<Seq<T>>::empty(), cap, max) =~= Seq::<
                        (Seq<T>, nat, nat),
                    >::empty());
                    assert(seen + Seq::<(Seq<T>, nat, nat)>::empty() =~= seen);
                }
                done = true;
            } else {
                proof {
                    lemma_refill_progress(before, input@, before_pos, cap, max);
                    let rest = scan_cycles(input@, cap, max, buf@, pos as nat);
                    assert(with_params(seq![buf@] + rest, cap, max) =~= seq![(buf@, cap, max)]
                        + with_params(rest, cap, max));
                    assert(seen + (seq![(buf@, cap, max)] + with_params(rest, cap, max)) =~= seen.push(
                        (buf@, cap, max),
                    ) + with_params(rest, cap, max));
                }
                sink.absorb(&buf);
            }
        }
    }
}

/// The number of elements of type `T` in 4KB, or 4096 for a type without size.
pub open spec fn page_elems<T>() -> nat {
    if vstd::layout::size_of::<T>() == 0 {
        4096nat
    } else {
        4096nat / vstd::layout::size_of::<T>()
    }
}

/// A refill that leaves the buffer non-empty either takes input or shrinks the buffer.
pub proof fn lemma_refill_progress<T>(buf: Seq<T>, input: Seq<T>, pos: nat, capacity: nat, max_len: nat)
    requires
        capacity >= 2 * max_len,
        pos <= input.len(),
        refill_step(buf, input, pos, capacity, max_len).0.len() > 0,
    ensures
        ({
            let (next, next_pos) = refill_step(buf, input, pos, capacity, max_len);
            next_pos > pos || (next_pos == pos && next.len() < buf.len())
        }),
{
}

/// One cycle of a scan that leaves the buffer non-empty: the windows the refill leaves
/// fresh, then those of the cycles that follow.
pub proof fn lemma_scan_step<T>(input: Seq<T>, capacity: nat, max_len: nat, len: nat, buf: Seq<T>, pos: nat)
    requires
        pos <= input.len(),
        capacity >= 2 * max_len,
        capacity > 0,
        refill_step(buf, input, pos, capacity, max_len).0.len() > 0,
    ensures
        scan_windows(input, capacity, max_len, len, buf, pos) == fresh_windows(
            refill_step(buf, input, pos, capacity, max_len).0,
            capacity,
            max_len,
            len,
        ) + scan_windows(
            input,
            capacity,
            max_len,
            len,
            refill_step(buf, input, pos, capacity, max_len).0,
            refill_step(buf, input, pos, capacity, max_len).1,
        ),
{
}

/// A scan ends with the refill that leaves the buffer empty.
pub proof fn lemma_scan_end<T>(input: Seq<T>, capacity: nat, max_len: nat, len: nat, buf: Seq<T>, pos: nat)
    requires
        refill_step(buf, input, pos, capacity, max_len).0.len() == 0,
    ensures
        scan_windows(input, capacity, max_len, len, buf, pos) == Seq::<Seq<T>>::empty(),
{
}

/// Splitting a sequence where two neighbouring windows meet splits its windows there.
proof fn lemma_windows_split<T>(s: Seq<T>, e: nat, len: nat)
    requires
        1 <= len,
        len - 1 <= e <= s.len(),
    ensures
        windows_of(s.take(e as int), len) + windows_of(s.skip(e - len + 1), len) == windows_of(
            s,
            len,
        ),
{
    let a = windows_of(s.take(e as int), len);
    let b = windows_of(s.skip(e - len + 1), len);
    let w = windows_of(s, len);
    if s.len() >= len {
        assert forall|i: int| 0 <= i < w.len() implies #[trigger] (a + b)[i] == w[i] by {
            if i < a.len() {
                assert(a[i] =~= w[i]);
            } else {
                assert(b[i - a.len()] =~= w[i]);
            }
        }
        assert(a + b =~= w);
    } else {
        assert(a + b =~= w);
    }
}

/// The scan that follows a state in which the buffer holds the elements of `input` just
/// before `pos` hands out every window that starts at or after the first element it keeps.
proof fn lemma_scan_from<T>(input: Seq<T>, capacity: nat, max_len: nat, len: nat, buf: Seq<T>, pos: nat)
    requires
        capacity >= 2 * max_len,
        1 <= len <= max_len,
        buf.len() <= pos <= input.len(),
        buf.len() <= capacity,
        buf == input.subrange(pos - buf.len(), pos as int),
    ensures
        scan_windows(input, capacity, max_len, len, buf, pos) == windows_of(
            input.skip(pos - buf.len() + overflow_start(capacity, max_len, buf.len(), 1)),
            len,
        ),
    decreases input.len() - pos, buf.len(),
{
    let k = pos - buf.len() + overflow_start(capacity, max_len, buf.len(), 1);
    let s = input.skip(k);
    let (next, next_pos) = refill_step(buf, input, pos, capacity, max_len);
    assert(next =~= input.subrange(k, next_pos as int));
    if next.len() == 0 {
        assert(s.len() == 0);
        assert(windows_of(s, len) =~= Seq::<Seq<T>>::empty());
    } else {
        lemma_refill_progress(buf, input, pos, capacity, max_len);
        lemma_scan_from(input, capacity, max_len, len, next, next_pos);
        let o2 = overflow_start(capacity, max_len, next.len(), 1);
        let e = overflow_start(capacity, max_len, next.len(), len);
        assert(next.take(e as int) =~= s.take(e as int));
        if next.len() >= capacity - max_len + len {
            assert(input.skip(k + o2) =~= s.skip(e - len + 1));
            lemma_windows_split(s, e, len);
        } else {
            assert(next_pos == input.len());
            assert(next =~= s);
            assert(next.take(e as int) =~= s);
            assert(windows_of(input.skip(k + o2), len) =~= Seq::<Seq<T>>::empty());
            assert(windows_of(s, len) + Seq::<Seq<T>>::empty() =~= windows_of(s, len));
        }
    }
}

/// Taking the windows of `len` elements out of every cycle of a scan over `input` with a
/// buffer of `capacity` elements and windows of at most `max_len` elements gives, in order,
/// exactly the windows of `len` elements of `input` taken in one go.
pub proof fn lemma_scan_matches_windows<T>(input: Seq<T>, capacity: nat, max_len: nat, len: nat)
    requires
        capacity >= 2 * max_len,
        1 <= len <= max_len,
    ensures
        scan_windows(input, capacity, max_len, len, Seq::empty(), 0) == windows_of(input, len),
{
    assert(Seq::<T>::empty() =~= input.subrange(0, 0));
    lemma_scan_from(input, capacity, max_len, len, Seq::empty(), 0);
    assert(input.skip(0) =~= input);
}

} // verus!
