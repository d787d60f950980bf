//! Bulk stream processing of sample buffers: producers expose their
//! remaining length and combine their next samples directly into a shared
//! destination buffer, so many producers can stack onto one buffer without a
//! per-sample dispatch per producer.

use vstd::prelude::*;
use vstd::pervasive::VecAdditionalExecFns;
use crate::types::{sat_add_s, scale_s, sat_add, scale};
use crate::soundprim::min_len;

verus! {

/// How a producer writes into a destination buffer slot.
#[derive(Clone, Copy, Debug)]
pub enum Op {
    Store,
    Add,
    Mul,
}

/// The value a buffer slot holds after a producer writes `v` into a slot
/// holding `o` under `op`.  `Add` saturates; `Mul` is the fixed-point
/// product (one operand is a per-mille gain).
pub open spec fn apply_op_s(op: Op, o: int, v: int) -> int {
    match op {
        Op::Store => v,
        Op::Add => sat_add_s(o, v),
        Op::Mul => scale_s(o, v),
    }
}

/// Applies one produced value to one buffer slot.
pub fn apply_op(op: Op, o: i32, v: i32) -> (r: i32)
    ensures
        r as int == apply_op_s(op, o as int, v as int),
{
    match op {
        Op::Store => v,
        Op::Add => sat_add(o, v),
        Op::Mul => scale(o, v),
    }
}

/// A finite, single-pass producer of samples supporting bulk transfer:
/// `take` combines the producer's next `count` samples into the first
/// `count` slots of a destination buffer under an operation.
pub trait Stream: Sized {
    /// Well-formedness of this producer.
    spec fn inv(&self) -> bool;

    /// The samples this producer has not yet handed out.
    spec fn rem(&self) -> Seq<i32>;

    /// Remaining length.
    fn len(&self) -> (r: usize)
        requires
            self.inv(),
        ensures
            r == self.rem().len(),
    ;

    /// For each `i < count`, `out[i] <- out[i] op self[i]`; slots at and
    /// past `count` are untouched, and the taken samples are consumed.
    fn take(&mut self, out: &mut Vec<i32>, count: usize, op: Op)
        requires
            old(self).inv(),
            count <= old(self).rem().len(),
            count <= old(out)@.len(),
        ensures
            final(self).inv(),
            final(self).rem() == old(self).rem().skip(count as int),
            final(out)@.len() == old(out)@.len(),
            forall|i: int|
                0 <= i < count ==> final(out)@[i] == apply_op_s(
                    op,
                    old(out)@[i] as int,
                    old(self).rem()[i] as int,
                ) as i32,
            forall|i: int| count <= i < old(out)@.len() ==> final(out)@[i] == old(out)@[i],
    ;
}

/// A producer backed by a buffer of samples and a read position.
#[derive(Debug)]
pub struct IterStream {
    pub samples: Vec<i32>,
    pub pos: usize,
}

impl View for IterStream {
    type V = Seq<i32>;

    /// An `IterStream` denotes the samples it has not yet handed out.
    open spec fn view(&self) -> Seq<i32> {
        self.samples@.skip(self.pos as int)
    }
}

impl IterStream {
    pub fn new(samples: Vec<i32>) -> (r: Self)
        ensures
            r.inv(),
            r@ == samples@,
            r.rem() == samples@,
    {
        let r = IterStream { samples, pos: 0 };
        proof {
            assert(r.samples@.skip(0) =~= r.samples@);
        }
        r
    }
}

impl Stream for IterStream {
    open spec fn inv(&self) -> bool {
        self.pos <= self.samples@.len()
    }

    open spec fn rem(&self) -> Seq<i32> {
        self@
    }

    fn len(&self) -> (r: usize) {
        proof {
            assert(self.samples.len() == self.samples@.len());
        }
        self.samples.len() - self.pos
    }

    fn take(&mut self, out: &mut Vec<i32>, count: usize, op: Op) {
        let ghost s0 = *self;
        let ghost out0 = out@;
        let mut i: usize = 0;
        while i < count
            invariant
                i <= count,
                s0.inv(),
                count <= s0.rem().len(),
                count <= out0.len(),
                self.samples == s0.samples,
                self.pos == s0.pos + i,
                out@.len() == out0.len(),
                forall|j: int|
                    0 <= j < i ==> out@[j] == apply_op_s(
                        op,
                        out0[j] as int,
                        s0.rem()[j] as int,
                    ) as i32,
                forall|j: int| i <= j < out0.len() ==> out@[j] == out0[j],
            decreases count - i,
        {
            proof {
                assert(self.samples.len() == self.samples@.len());
                assert(s0.rem()[i as int] == self.samples@[self.pos as int]);
            }
            let v = apply_op(op, out[i], self.samples[self.pos]);
            out.set(i, v);
            self.pos = self.pos + 1;
            i = i + 1;
        }
        proof {
            assert(self.rem() =~= s0.rem().skip(count as int));
        }
    }
}

/// Two producers composed under an operation: the combination's remaining
/// samples are the elementwise combination `a op b`, and its length is the
/// shorter operand's — once the shorter is exhausted the combination is
/// exhausted, even if the longer has samples left.
pub struct CombinedStream<A: Stream, B: Stream> {
    pub a: A,
    pub op: Op,
    pub b: B,
}

impl<A: Stream, B: Stream> CombinedStream<A, B> {
    pub fn new(a: A, op: Op, b: B) -> (r: Self)
        requires
            a.inv(),
            b.inv(),
        ensures
            r.inv(),
            r.rem() == combined_s(a.rem(), op, b.rem()),
    {
        CombinedStream { a, op, b }
    }
}

/// The samples a combination denotes: elementwise `a op b`, truncated to the
/// shorter operand.
pub open spec fn combined_s(a: Seq<i32>, op: Op, b: Seq<i32>) -> Seq<i32> {
    Seq::new(min_len(a.len(), b.len()), |i: int| apply_op_s(op, a[i] as int, b[i] as int) as i32)
}

impl<A: Stream, B: Stream> Stream for CombinedStream<A, B> {
    open spec fn inv(&self) -> bool {
        self.a.inv() && self.b.inv()
    }

    open spec fn rem(&self) -> Seq<i32> {
        combined_s(self.a.rem(), self.op, self.b.rem())
    }

    fn len(&self) -> (r: usize) {
        let la = self.a.len();
        let lb = self.b.len();
        if la <= lb {
            la
        } else {
            lb
        }
    }

    fn take(&mut self, out: &mut Vec<i32>, count: usize, op: Op) {
        let ghost out0 = out@;
        let ghost a0 = self.a.rem();
        let ghost b0 = self.b.rem();
        let mut tmp: Vec<i32> = vec![0i32; count];
        self.a.take(&mut tmp, count, Op::Store);
        self.b.take(&mut tmp, count, self.op);
        let mut i: usize = 0;
        while i < count
            invariant
                i <= count,
                count <= out0.len(),
                out@.len() == out0.len(),
                tmp@.len() == count,
                forall|j: int|
                    0 <= j < count ==> tmp@[j] == apply_op_s(
                        self.op,
                        a0[j] as int,
                        b0[j] as int,
                    ) as i32,
                forall|j: int|
                    0 <= j < i ==> out@[j] == apply_op_s(op, out0[j] as int, tmp@[j] as int) as i32,
                forall|j: int| i <= j < out0.len() ==> out@[j] == out0[j],
            decreases count - i,
        {
            let v = apply_op(op, out[i], tmp[i]);
            out.set(i, v);
            i = i + 1;
        }
        proof {
            let r0 = combined_s(a0, self.op, b0);
            assert(self.rem() =~= r0.skip(count as int));
            assert forall|j: int| 0 <= j < count implies out@[j] == apply_op_s(
                op,
                out0[j] as int,
                r0[j] as int,
            ) as i32 by {
                assert(r0[j] == apply_op_s(self.op, a0[j] as int, b0[j] as int) as i32);
                assert(tmp@[j] == r0[j]);
            }
        }
    }
}

} // verus!
