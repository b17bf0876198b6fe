//! A fixed-capacity circular byte buffer that overwrites its oldest data
//! when full.
//!
//! The buffer is deliberately never empty: construction and `clear` leave it
//! holding exactly one zero byte, and `shift_l` refuses to discard the whole
//! window, so the logical length always stays in `[1, RING_SIZE]`.

use vstd::prelude::*;

verus! {

/// Capacity of the backing storage, and the largest logical length.
pub const RING_SIZE: usize = 10;

/// What one push leaves in the buffer: the value is appended, and when the
/// buffer already holds `RING_SIZE` bytes the oldest byte is dropped first.
pub open spec fn push_contents(s: Seq<u8>, val: u8) -> Seq<u8> {
    if s.len() < RING_SIZE {
        s.push(val)
    } else {
        s.drop_first().push(val)
    }
}

/// What a batch of pushes leaves in the buffer: each byte of `vals` is
/// pushed in order, evicting the oldest byte whenever the buffer is full.
pub open spec fn append_contents(s: Seq<u8>, vals: Seq<u8>) -> Seq<u8>
    decreases vals.len(),
{
    if vals.len() == 0 {
        s
    } else {
        append_contents(push_contents(s, vals[0]), vals.drop_first())
    }
}

/// The overflow flag that a batch of pushes reports: the flag of the last
/// push alone (false for an empty batch), so a mid-batch eviction may go
/// unreported.
pub open spec fn append_overflow(s: Seq<u8>, vals: Seq<u8>) -> bool
    decreases vals.len(),
{
    if vals.len() == 0 {
        false
    } else if vals.len() == 1 {
        s.len() >= RING_SIZE
    } else {
        append_overflow(push_contents(s, vals[0]), vals.drop_first())
    }
}

/// Circular byte buffer over a fixed backing array.
///
/// The valid-data window is `[start, end)`, both cursors taken modulo
/// `RING_SIZE`; `start == end` means the buffer is full, not empty.
pub struct RingBuffer {
    buf: [u8; RING_SIZE],
    start: usize,
    end: usize,
}

impl View for RingBuffer {
    type V = Seq<u8>;

    /// The bytes of the valid-data window in logical order, oldest first.
    closed spec fn view(&self) -> Seq<u8> {
        Seq::new(
            self.window_len(),
            |i: int| self.buf@[(self.start + i) % (RING_SIZE as int)],
        )
    }
}

impl RingBuffer {
    /// The cursors stay inside the backing array.
    pub closed spec fn wf(self) -> bool {
        self.start < RING_SIZE && self.end < RING_SIZE
    }

    /// Logical length derived from the cursor pair; `start == end` counts
    /// as a full buffer.
    closed spec fn window_len(self) -> nat {
        if self.start < self.end {
            (self.end - self.start) as nat
        } else {
            (RING_SIZE - (self.start - self.end)) as nat
        }
    }

    /// Creates a buffer of logical length 1 holding a single zero byte.
    pub fn new() -> (r: RingBuffer)
        ensures
            r.wf(),
            r@ == seq![0u8],
    {
        let r = RingBuffer { buf: [0; RING_SIZE], start: 0, end: 1 };
        proof {
            assert(r@ =~= seq![0u8]);
        }
        r
    }

    /// Current logical length; always in `[1, RING_SIZE]`.
    pub fn len(&self) -> (n: usize)
        requires
            self.wf(),
        ensures
            n == self@.len(),
            1 <= n <= RING_SIZE,
    {
        let start = self.start;
        let end = self.end;

        if start < end {
            end - start
        } else {
            RING_SIZE - (start - end)
        }
    }

    /// Resets to the construction state: length 1, a single zero byte.
    /// Stale storage outside the new window is left untouched.
    pub fn clear(&mut self)
        requires
            old(self).wf(),
        ensures
            final(self).wf(),
            final(self)@ == seq![0u8],
    {
        self.start = 0;
        self.end = 1;
        self.buf[0] = 0;
        proof {
            assert(self@ =~= seq![0u8]);
        }
    }

    /// Appends `val` at the logical end. When the buffer is already full the
    /// oldest byte is evicted and the returned overflow flag is true.
    pub fn push(&mut self, val: u8) -> (overflow: bool)
        requires
            old(self).wf(),
        ensures
            final(self).wf(),
            overflow <==> old(self)@.len() == RING_SIZE,
            final(self)@ == push_contents(old(self)@, val),
    {
        let start = self.start;
        let end = self.end;
        let flag: bool;

        self.buf[end] = val;
        if start == end {
            self.start = (start + 1) % RING_SIZE;
            flag = true;
        } else {
            flag = false;
        }
        self.end = (end + 1) % RING_SIZE;
        proof {
            lemma_full_iff_cursors_equal(*old(self));
            lemma_push_view(*old(self), *self, val);
        }
        flag
    }

    /// Appends every byte of `vec` in order by repeated pushes; `vec` itself
    /// is left unchanged. Returns the overflow flag of the last push alone
    /// (false for an empty input), so a mid-batch eviction may go unreported.
    pub fn append(&mut self, vec: &mut Vec<u8>) -> (overflow: bool)
        requires
            old(self).wf(),
        ensures
            final(self).wf(),
            final(self)@ == append_contents(old(self)@, old(vec)@),
            overflow <==> append_overflow(old(self)@, old(vec)@),
            *final(vec) == *old(vec),
    {
        let ghost orig: Seq<u8> = self@;
        let ghost vorig: Vec<u8> = *vec;
        let mut flag = false;
        proof {
            assert(vorig@.take(0) =~= Seq::<u8>::empty());
        }
        for i in 0..vec.len()
            invariant
                self.wf(),
                *vec == vorig,
                self@ == append_contents(orig, vorig@.take(i as int)),
                flag <==> append_overflow(orig, vorig@.take(i as int)),
        {
            proof {
                lemma_full_iff_cursors_equal(*self);
                lemma_append_snoc(orig, vorig@, i as int);
            }
            flag = self.push(vec[i]);
        }
        proof {
            assert(vorig@.take(vorig@.len() as int) =~= vorig@);
        }
        flag
    }

    /// Returns a fresh copy of the valid-data window in logical order,
    /// oldest byte first.
    pub fn get_all(&self) -> (data: Vec<u8>)
        requires
            self.wf(),
        ensures
            data@ == self@,
    {
        let data_len = self.len();
        let mut data: Vec<u8> = Vec::with_capacity(data_len);
        for i in 0..data_len
            invariant
                self.wf(),
                data_len == self@.len(),
                data@ == self@.take(i as int),
        {
            data.push(self.buf[(self.start + i) % RING_SIZE]);
            proof {
                assert(data@ =~= self@.take(i + 1));
            }
        }
        proof {
            assert(self@.take(data_len as int) =~= self@);
        }
        data
    }

    /// Reads the byte at logical offset `index` from the front of the
    /// window; out-of-range offsets yield `None` rather than a fault.
    pub fn read(&self, index: usize) -> (r: Option<u8>)
        requires
            self.wf(),
        ensures
            index < self@.len() ==> r == Some(self@[index as int]),
            index >= self@.len() ==> r is None,
    {
        if index < self.len() {
            let i = (index + self.start) % RING_SIZE;
            Some(self.buf[i])
        } else {
            None
        }
    }

    /// Discards `num` bytes from the front of the window. Fails, leaving the
    /// buffer unchanged, when `num` is not strictly below the current length,
    /// so the window can never be emptied.
    pub fn shift_l(&mut self, num: usize) -> (r: Result<(), &'static str>)
        requires
            old(self).wf(),
        ensures
            final(self).wf(),
            r is Ok <==> num < old(self)@.len(),
            num < old(self)@.len() ==> final(self)@ == old(self)@.skip(num as int),
            num >= old(self)@.len() ==> *final(self) == *old(self),
            r matches Err(m) ==> m@ == "Shift num is out of length."@,
    {
        if num < self.len() {
            self.start = (self.start + num) % RING_SIZE;
            proof {
                lemma_shift_view(*old(self), *self, num as int);
            }
        } else {
            return Err("Shift num is out of length.");
        }
        Ok(())
    }
}

/// For indices below twice the capacity, reduction modulo the capacity is a
/// single conditional subtraction.
proof fn lemma_wrap(x: int)
    requires
        0 <= x < 2 * (RING_SIZE as int),
    ensures
        x % (RING_SIZE as int) == if x < RING_SIZE as int {
            x
        } else {
            x - RING_SIZE as int
        },
{
    let c = RING_SIZE as int;
    if x < c {
        vstd::arithmetic::div_mod::lemma_small_mod(x as nat, RING_SIZE as nat);
    } else {
        vstd::arithmetic::div_mod::lemma_mod_multiples_vanish(1, x - c, c);
        vstd::arithmetic::div_mod::lemma_small_mod((x - c) as nat, RING_SIZE as nat);
    }
}

/// The buffer is full exactly when its two cursors coincide.
proof fn lemma_full_iff_cursors_equal(b: RingBuffer)
    requires
        b.wf(),
    ensures
        b@.len() == RING_SIZE <==> b.start == b.end,
        1 <= b@.len() <= RING_SIZE,
{
}

/// Relates the states before and after one push at the representation level
/// to `push_contents` at the model level.
proof fn lemma_push_view(pre: RingBuffer, post: RingBuffer, val: u8)
    requires
        pre.wf(),
        post.start == if pre.start == pre.end {
            (pre.start + 1) % (RING_SIZE as int)
        } else {
            pre.start as int
        },
        post.end == (pre.end + 1) % (RING_SIZE as int),
        post.buf@ == pre.buf@.update(pre.end as int, val),
    ensures
        post.wf(),
        post@ == push_contents(pre@, val),
{
    lemma_wrap(pre.end + 1);
    lemma_wrap(pre.start + 1);
    assert(post.wf());
    let expected = push_contents(pre@, val);
    assert(post@.len() == expected.len());
    assert forall|i: int| 0 <= i < post@.len() implies post@[i] == expected[i] by {
        lemma_wrap(post.start + i);
        lemma_wrap(pre.start + i);
        lemma_wrap(pre.start + i + 1);
    }
    assert(post@ =~= expected);
}

/// Relates the states before and after a successful left shift at the
/// representation level to `Seq::skip` at the model level.
proof fn lemma_shift_view(pre: RingBuffer, post: RingBuffer, num: int)
    requires
        pre.wf(),
        0 <= num < pre@.len(),
        post.start == (pre.start + num) % (RING_SIZE as int),
        post.end == pre.end,
        post.buf == pre.buf,
    ensures
        post.wf(),
        post@ == pre@.skip(num),
{
    let c = RING_SIZE as int;
    lemma_wrap(pre.start + num);
    assert(post.wf());
    let expected = pre@.skip(num);
    assert(post@.len() == expected.len());
    assert forall|i: int| 0 <= i < post@.len() implies post@[i] == expected[i] by {
        lemma_wrap(post.start + i);
        if pre.start + num + i < 2 * c {
            lemma_wrap(pre.start + num + i);
        } else {
            lemma_wrap(pre.start + num + i - c);
        }
    }
    assert(post@ =~= expected);
}

/// Extending a batch by one more byte amounts to one more push, and the
/// batch's overflow flag is decided by the length just before that push.
proof fn lemma_append_snoc(s: Seq<u8>, vals: Seq<u8>, i: int)
    requires
        0 <= i < vals.len(),
    ensures
        append_contents(s, vals.take(i + 1)) == push_contents(
            append_contents(s, vals.take(i)),
            vals[i],
        ),
        append_overflow(s, vals.take(i + 1)) <==> append_contents(s, vals.take(i)).len()
            >= RING_SIZE,
    decreases i,
{
    if i == 0 {
        reveal_with_fuel(append_contents, 2);
        reveal_with_fuel(append_overflow, 2);
        assert(vals.take(0) =~= Seq::<u8>::empty());
        assert(vals.take(1)[0] == vals[0]);
        assert(vals.take(1).drop_first() =~= Seq::<u8>::empty());
    } else {
        let s1 = push_contents(s, vals[0]);
        let vals1 = vals.drop_first();
        lemma_append_snoc(s1, vals1, i - 1);
        assert(vals.take(i + 1).drop_first() =~= vals1.take(i));
        assert(vals.take(i).drop_first() =~= vals1.take(i - 1));
        assert(vals.take(i + 1)[0] == vals[0]);
        assert(vals.take(i)[0] == vals[0]);
        assert(vals1[i - 1] == vals[i]);
    }
}

/// Law: every well-formed buffer holds between 1 and `RING_SIZE` bytes; the
/// window can neither be empty nor outgrow the backing storage.
pub proof fn lemma_length_in_range(b: RingBuffer)
    requires
        b.wf(),
    ensures
        1 <= b@.len() <= RING_SIZE,
{
    lemma_full_iff_cursors_equal(b);
}

/// Law: an empty batch changes nothing and reports no overflow.
pub proof fn lemma_append_empty(s: Seq<u8>)
    ensures
        append_contents(s, Seq::<u8>::empty()) == s,
        !append_overflow(s, Seq::<u8>::empty()),
{
}

/// Law: a batch of pushes fills the buffer up to at most its capacity: the
/// resulting length is the total number of bytes, capped at `RING_SIZE`.
pub proof fn lemma_append_len(s: Seq<u8>, vals: Seq<u8>)
    requires
        s.len() <= RING_SIZE,
    ensures
        append_contents(s, vals).len() == if s.len() + vals.len() <= RING_SIZE {
            (s.len() + vals.len()) as int
        } else {
            RING_SIZE as int
        },
    decreases vals.len(),
{
    if vals.len() > 0 {
        lemma_append_len(push_contents(s, vals[0]), vals.drop_first());
    }
}

/// Law: a batch of pushes keeps exactly the most recent `RING_SIZE` bytes of
/// the concatenation, oldest surviving byte first.
pub proof fn lemma_append_window(s: Seq<u8>, vals: Seq<u8>)
    requires
        s.len() <= RING_SIZE,
    ensures
        append_contents(s, vals) == (s + vals).skip(
            if s.len() + vals.len() <= RING_SIZE {
                0
            } else {
                s.len() + vals.len() - RING_SIZE
            },
        ),
    decreases vals.len(),
{
    if vals.len() == 0 {
        assert((s + vals).skip(0) =~= s);
    } else {
        let s1 = push_contents(s, vals[0]);
        let vals1 = vals.drop_first();
        lemma_append_window(s1, vals1);
        if s.len() < RING_SIZE {
            assert(s1 + vals1 =~= s + vals);
        } else {
            let k1 = s1.len() + vals1.len() - RING_SIZE;
            assert(s1 + vals1 =~= (s + vals).skip(1));
            if k1 > 0 {
                assert((s + vals).skip(1).skip(k1) =~= (s + vals).skip(k1 + 1));
            } else {
                assert((s + vals).skip(1).skip(0) =~= (s + vals).skip(1));
            }
        }
    }
}

/// Law: a nonempty batch reports overflow exactly when its last push finds
/// the buffer full, i.e. when the total byte count passes the capacity.
pub proof fn lemma_append_overflow_iff(s: Seq<u8>, vals: Seq<u8>)
    requires
        s.len() <= RING_SIZE,
        vals.len() > 0,
    ensures
        append_overflow(s, vals) <==> s.len() + vals.len() > RING_SIZE,
{
    lemma_append_snoc(s, vals, vals.len() - 1);
    assert(vals.take(vals.len() as int) =~= vals);
    lemma_append_len(s, vals.take(vals.len() - 1));
}

/// Law: while a batch fits within spare capacity, appending is plain
/// concatenation at every step, and no push of the batch reports overflow.
pub proof fn lemma_append_below_capacity(s: Seq<u8>, vals: Seq<u8>)
    requires
        s.len() + vals.len() <= RING_SIZE,
    ensures
        append_contents(s, vals) == s + vals,
        forall|i: int| 0 <= i <= vals.len() ==> append_contents(s, #[trigger] vals.take(i)) == s
            + vals.take(i),
        forall|i: int| 0 <= i <= vals.len() ==> !append_overflow(s, #[trigger] vals.take(i)),
{
    assert forall|i: int| 0 <= i <= vals.len() implies append_contents(s, #[trigger] vals.take(i))
        == s + vals.take(i) && !append_overflow(s, vals.take(i)) by {
        lemma_append_window(s, vals.take(i));
        assert((s + vals.take(i)).skip(0) =~= s + vals.take(i));
        if i > 0 {
            lemma_append_overflow_iff(s, vals.take(i));
        }
    }
    assert(vals.take(vals.len() as int) =~= vals);
}

/// Law: a batch that passes the spare capacity keeps exactly the most recent
/// `RING_SIZE` bytes of the concatenation, leaves the buffer full, and its
/// final push reports overflow.
pub proof fn lemma_append_past_capacity(s: Seq<u8>, vals: Seq<u8>)
    requires
        s.len() <= RING_SIZE,
        s.len() + vals.len() > RING_SIZE,
    ensures
        append_contents(s, vals) == (s + vals).skip(s.len() + vals.len() - RING_SIZE),
        append_contents(s, vals).len() == RING_SIZE,
        append_overflow(s, vals),
{
    lemma_append_window(s, vals);
    lemma_append_len(s, vals);
    lemma_append_overflow_iff(s, vals);
}

/// Law: after a successful left shift by `k`, the byte at logical offset `i`
/// is the byte that stood at offset `k + i` before; in particular the new
/// front byte is the one previously read at offset `k`.
pub proof fn lemma_shift_then_read(s: Seq<u8>, k: int)
    requires
        0 <= k < s.len(),
    ensures
        forall|i: int| 0 <= i < s.len() - k ==> s.skip(k)[i] == s[k + i],
{
}

} // verus!
