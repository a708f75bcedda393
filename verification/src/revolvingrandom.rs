//! A revolving buffer of pre-drawn uniform samples.

use vstd::prelude::*;

use crate::fixed::{clamp_coord, magnitude, mul_div, saturate, trunc_div, UNIT};
use crate::rng::uniform;

verus! {

/// The number of samples in the buffer.
pub const SIZE: usize = 1024;

/// The cursor that follows `c`: one further, and back to the start after the
/// last sample.
pub open spec fn next_cursor(c: int) -> int {
    if c == SIZE - 1 {
        0
    } else {
        c + 1
    }
}

/// The cursor after `n` draws that started at cursor `c`.
pub open spec fn cursor_after(c: int, n: nat) -> int
    decreases n,
{
    if n == 0 {
        c
    } else {
        next_cursor(cursor_after(c, (n - 1) as nat))
    }
}

/// The sample that the `n`-th draw returns, counting from zero, from a buffer
/// of the given samples with its cursor at `cursor`.
pub open spec fn sample_at(samples: Seq<i64>, cursor: int, n: nat) -> i64 {
    samples[cursor_after(cursor, n)]
}

/// A buffer is sound when it is full, its cursor is inside it and every
/// sample is a fraction of one.
pub open spec fn samples_ok(samples: Seq<i64>, cursor: int) -> bool {
    &&& samples.len() == SIZE
    &&& 0 <= cursor < SIZE
    &&& forall|i: int| 0 <= i < SIZE ==> 0 <= #[trigger] samples[i] < UNIT
}

/// What `range` makes of a sample: the sample, as a fraction of one, times
/// the summed magnitudes of the two ends, moved up by `min`. This spans
/// `min..max` only where `min <= 0 <= max`.
pub open spec fn ranged(sample: int, min: int, max: int) -> int {
    clamp_coord(trunc_div(magnitude(sample) * (magnitude(min) + magnitude(max)), UNIT as int) + min)
}

/// A fixed buffer of samples of `[0, 1)`, filled once and then read round and
/// round.
pub struct RevolvingRandom {
    data: Vec<i64>,
    idx: usize,
}

impl RevolvingRandom {
    /// The samples, in buffer order.
    pub closed spec fn samples(&self) -> Seq<i64> {
        self.data@
    }

    /// The index of the sample that the next draw returns.
    pub closed spec fn cursor(&self) -> int {
        self.idx as int
    }

    /// The buffer is sound.
    pub open spec fn wf(&self) -> bool {
        samples_ok(self.samples(), self.cursor())
    }

    /// The sample that the `n`-th draw from now returns, counting from zero.
    pub open spec fn peek(&self, n: nat) -> i64 {
        sample_at(self.samples(), self.cursor(), n)
    }

    /// A buffer of fresh uniform samples, with the cursor at the start.
    pub fn new() -> (r: Self)
        ensures
            r.wf(),
            r.cursor() == 0,
    {
        let mut data: Vec<i64> = Vec::with_capacity(SIZE);
        while data.len() < SIZE
            invariant
                data.len() <= SIZE,
                forall|i: int| 0 <= i < data.len() ==> 0 <= #[trigger] data@[i] < UNIT,
            decreases SIZE - data.len(),
        {
            let sample: i64 = uniform(0, UNIT);
            data.push(sample);
        }
        RevolvingRandom { data, idx: 0 }
    }

    /// A buffer that holds the given samples, with the cursor at the start;
    /// `None` unless there are exactly `SIZE` of them, each in `[0, UNIT)`.
    pub fn from_samples(data: Vec<i64>) -> (r: Option<Self>)
        ensures
            r.is_some() <==> (data@.len() == SIZE && forall|i: int|
                0 <= i < data@.len() ==> 0 <= #[trigger] data@[i] < UNIT),
            r.is_some() ==> r.unwrap().wf() && r.unwrap().samples() == data@
                && r.unwrap().cursor() == 0,
    {
        if data.len() != SIZE {
            return None;
        }
        let mut i: usize = 0;
        while i < SIZE
            invariant
                i <= SIZE,
                data@.len() == SIZE,
                forall|j: int| 0 <= j < i ==> 0 <= #[trigger] data@[j] < UNIT,
            decreases SIZE - i,
        {
            if data[i] < 0 || data[i] >= UNIT {
                return None;
            }
            i += 1;
        }
        Some(RevolvingRandom { data, idx: 0 })
    }

    /// The sample under the cursor; the cursor moves on by one and wraps at
    /// the end of the buffer.
    pub fn rand(&mut self) -> (v: i64)
        requires
            old(self).wf(),
        ensures
            v == old(self).samples()[old(self).cursor()],
            v == old(self).peek(0),
            0 <= v < UNIT,
            final(self).samples() == old(self).samples(),
            final(self).cursor() == next_cursor(old(self).cursor()),
            final(self).wf(),
    {
        let ret: i64 = self.data[self.idx];
        if self.idx == self.data.len() - 1 {
            self.idx = 0;
        } else {
            self.idx += 1;
        }
        ret
    }

    /// A draw stretched over a range: `|sample| * (|min| + |max|) + min`,
    /// saturated into the coordinate range. The cursor moves as in `rand`.
    pub fn range(&mut self, min: i64, max: i64) -> (v: i64)
        requires
            old(self).wf(),
        ensures
            v as int == ranged(old(self).peek(0) as int, min as int, max as int),
            final(self).samples() == old(self).samples(),
            final(self).cursor() == next_cursor(old(self).cursor()),
            final(self).wf(),
    {
        let sample: i64 = self.rand();
        let lo: i128 = if min < 0 { -(min as i128) } else { min as i128 };
        let hi: i128 = if max < 0 { -(max as i128) } else { max as i128 };
        let span: i128 = lo + hi;
        assert(0 <= sample * span <= UNIT * 0x1_0000_0000_0000_0000int) by (nonlinear_arith)
            requires
                0 <= sample < UNIT,
                0 <= span <= 0x1_0000_0000_0000_0000int,
        ;
        let scaled: i128 = mul_div(sample as i128, span, UNIT as i128);
        saturate(scaled + min as i128)
    }
}

/// The cursor after `n` draws is `n` places on, counted round the buffer.
pub proof fn lemma_cursor_after(c: int, n: nat)
    requires
        0 <= c < SIZE,
    ensures
        cursor_after(c, n) == (c + n) % (SIZE as int),
        0 <= cursor_after(c, n) < SIZE,
    decreases n,
{
    if n > 0 {
        lemma_cursor_after(c, (n - 1) as nat);
    }
}

/// One revolution: from a fresh buffer the first `SIZE` draws return the
/// samples in buffer order, each exactly once, and the draws after them
/// repeat the same sequence.
pub proof fn lemma_revolution(r: RevolvingRandom)
    requires
        r.wf(),
    ensures
        r.cursor() == 0 ==> forall|n: nat| n < SIZE ==> #[trigger] r.peek(n) == r.samples()[n as int],
        forall|m: nat, n: nat|
            m < n < SIZE ==> cursor_after(r.cursor(), m) != cursor_after(r.cursor(), n),
        forall|n: nat| #[trigger] r.peek(n + SIZE as nat) == r.peek(n),
        cursor_after(r.cursor(), SIZE as nat) == r.cursor(),
{
    let c = r.cursor();
    assert forall|n: nat| r.cursor() == 0 && n < SIZE implies #[trigger] r.peek(n) == r.samples()[n as int] by {
        lemma_cursor_after(c, n);
    }
    assert forall|m: nat, n: nat| m < n < SIZE implies cursor_after(c, m) != cursor_after(c, n) by {
        lemma_cursor_after(c, m);
        lemma_cursor_after(c, n);
    }
    assert forall|n: nat| #[trigger] r.peek(n + SIZE as nat) == r.peek(n) by {
        lemma_cursor_after(c, n);
        lemma_cursor_after(c, n + SIZE as nat);
    }
    lemma_cursor_after(c, SIZE as nat);
}

} // verus!
