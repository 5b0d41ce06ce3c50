//! The vocabulary in which the contracts speak of bytes: where a cursor
//! comes to stand, what a run of bytes does to a buffer, and how integers
//! lie in network order.

use vstd::prelude::*;
use crate::error::DnsError;

verus! {

/// The number of bytes in a message buffer.
pub const CAPACITY: usize = 512;

/// The cursor after `n` more bytes were asked for at `pos`: it moves over
/// the bytes that exist and stops at the end of the buffer.
pub open spec fn reach(pos: int, n: int) -> int {
    if pos + n <= CAPACITY {
        pos + n
    } else if pos <= CAPACITY {
        CAPACITY as int
    } else {
        pos
    }
}

/// Whether `n` bytes can be written at `pos`: no bytes always can, more
/// only where all of them lie inside the buffer.
pub open spec fn fits(pos: int, n: int) -> bool {
    n == 0 || pos + n <= CAPACITY
}

/// `base` with `bytes` laid over it from index `at` on. Bytes that would
/// fall outside `base` are dropped.
pub open spec fn overlay(base: Seq<u8>, at: int, bytes: Seq<u8>) -> Seq<u8> {
    Seq::new(
        base.len(),
        |i: int|
            if at <= i < at + bytes.len() {
                bytes[i - at]
            } else {
                base[i]
            },
    )
}

/// The 16-bit value that two bytes hold in network order.
pub open spec fn be16(hi: u8, lo: u8) -> u16 {
    (hi as int * 256 + lo as int) as u16
}

/// The 32-bit value that four bytes hold in network order.
pub open spec fn be32(b0: u8, b1: u8, b2: u8, b3: u8) -> u32 {
    (b0 as int * 0x100_0000 + b1 as int * 0x1_0000 + b2 as int * 0x100 + b3 as int) as u32
}

/// The two bytes of a 16-bit value in network order.
pub open spec fn u16_bytes(val: u16) -> Seq<u8> {
    seq![(val / 256) as u8, (val % 256) as u8]
}

/// The four bytes of a 32-bit value in network order.
pub open spec fn u32_bytes(val: u32) -> Seq<u8> {
    seq![
        (val / 0x100_0000) as u8,
        (val / 0x1_0000 % 256) as u8,
        (val / 0x100 % 256) as u8,
        (val % 256) as u8,
    ]
}

/// Laying nothing over a buffer leaves it as it is.
pub proof fn lemma_overlay_empty(base: Seq<u8>, at: int)
    ensures
        overlay(base, at, Seq::<u8>::empty()) == base,
{
    assert(overlay(base, at, Seq::<u8>::empty()) =~= base);
}

/// Two runs laid down one after the other are their concatenation laid down
/// at once; the second run starts where the cursor stood after the first.
pub proof fn lemma_overlay_concat(base: Seq<u8>, at: int, first: Seq<u8>, second: Seq<u8>)
    requires
        0 <= at,
        base.len() == CAPACITY,
    ensures
        overlay(overlay(base, at, first), reach(at, first.len() as int), second) == overlay(
            base,
            at,
            first + second,
        ),
        reach(reach(at, first.len() as int), second.len() as int) == reach(
            at,
            (first + second).len() as int,
        ),
{
    assert(overlay(overlay(base, at, first), reach(at, first.len() as int), second) =~= overlay(
        base,
        at,
        first + second,
    ));
}

/// A run that does not fit fills the buffer to its end, whatever follows it.
pub proof fn lemma_overlay_overflow(base: Seq<u8>, at: int, first: Seq<u8>, second: Seq<u8>)
    requires
        0 <= at,
        base.len() == CAPACITY,
        at + first.len() > CAPACITY,
    ensures
        overlay(base, at, first) == overlay(base, at, first + second),
        reach(at, first.len() as int) == reach(at, (first + second).len() as int),
{
    assert(overlay(base, at, first) =~= overlay(base, at, first + second));
}

/// A run that fits can be read back where it was laid down.
pub proof fn lemma_overlay_holds(base: Seq<u8>, at: int, bytes: Seq<u8>)
    requires
        0 <= at,
        at + bytes.len() <= base.len(),
    ensures
        overlay(base, at, bytes).subrange(at, at + bytes.len()) == bytes,
        overlay(base, at, bytes).len() == base.len(),
{
    assert(overlay(base, at, bytes).subrange(at, at + bytes.len()) =~= bytes);
}

/// Splitting a 16-bit value into bytes and joining them gives it back.
pub proof fn lemma_u16_bytes_join(val: u16)
    ensures
        be16(u16_bytes(val)[0], u16_bytes(val)[1]) == val,
        u16_bytes(val).len() == 2,
{
}

/// Splitting a 32-bit value into bytes and joining them gives it back.
pub proof fn lemma_u32_bytes_join(val: u32)
    ensures
        be32(u32_bytes(val)[0], u32_bytes(val)[1], u32_bytes(val)[2], u32_bytes(val)[3]) == val,
        u32_bytes(val).len() == 4,
{
    let b0 = val as int / 0x100_0000;
    let b1 = val as int / 0x1_0000 % 256;
    let b2 = val as int / 0x100 % 256;
    let b3 = val as int % 256;
    assert(val as int / 0x100 == (val as int / 0x1_0000) * 256 + b2);
    assert(val as int / 0x1_0000 == b0 * 256 + b1);
    assert(val as int == (val as int / 0x100) * 256 + b3);
}

/// Joining four bytes and splitting the value gives them back.
pub proof fn lemma_u32_join_bytes(b0: u8, b1: u8, b2: u8, b3: u8)
    ensures
        u32_bytes(be32(b0, b1, b2, b3)) == seq![b0, b1, b2, b3],
{
    let low = b2 as int * 0x100 + b3 as int;
    let mid = b1 as int * 0x1_0000 + low;
    let val = b0 as int * 0x100_0000 + mid;
    assert(0 <= low < 0x1_0000);
    assert(0 <= mid < 0x100_0000);
    assert(val / 0x100_0000 == b0);
    assert(val / 0x1_0000 == b0 as int * 0x100 + b1 as int);
    assert(val / 0x100 == b0 as int * 0x1_0000 + b1 as int * 0x100 + b2 as int);
    assert(val / 0x1_0000 % 256 == b1);
    assert(val / 0x100 % 256 == b2);
    assert(val % 256 == b3);
    assert(be32(b0, b1, b2, b3) == val);
    assert(u32_bytes(be32(b0, b1, b2, b3)) =~= seq![b0, b1, b2, b3]);
}

/// What a reader came to: the value or the error, and where the cursor
/// stands afterwards.
pub struct Parsed<T> {
    pub value: Result<T, DnsError>,
    pub cursor: int,
}

/// What a writer puts out: the bytes, and whether they are all of the
/// value. A writer that meets a label that is too long stops there; its
/// bytes end in front of that label and are not complete.
pub struct Emission {
    pub bytes: Seq<u8>,
    pub complete: bool,
}

impl Emission {
    /// A run of bytes that is all of its value.
    pub open spec fn whole(bytes: Seq<u8>) -> Emission {
        Emission { bytes, complete: true }
    }

    /// This emission, and `next` behind it unless this one stopped short.
    pub open spec fn followed_by(self, next: Emission) -> Emission {
        if self.complete {
            Emission { bytes: self.bytes + next.bytes, complete: next.complete }
        } else {
            self
        }
    }

    /// The number of bytes.
    pub open spec fn len(self) -> int {
        self.bytes.len() as int
    }
}

/// How a write of `out` at `pos` ends: `OutOfBounds` where the bytes do
/// not fit, else `FormatError` where they stop short, else success.
pub open spec fn outcome(pos: int, out: Emission) -> Result<(), DnsError> {
    if !fits(pos, out.len()) {
        Err(DnsError::OutOfBounds)
    } else if !out.complete {
        Err(DnsError::FormatError)
    } else {
        Ok(())
    }
}

/// A writer that stood at `at` of `base` and put out `out` leaves `buf`
/// with the cursor at `pos`, and returns `r`. The bytes of `out` that fit
/// are written; the cursor stands behind them.
pub open spec fn wrote(
    base: Seq<u8>,
    at: int,
    out: Emission,
    buf: Seq<u8>,
    pos: int,
    r: Result<(), DnsError>,
) -> bool {
    &&& buf == overlay(base, at, out.bytes)
    &&& pos == reach(at, out.len())
    &&& r == outcome(at, out)
}

/// One step of a writer that has put out `done` and goes on with `next`,
/// with `rest` still to come: both together are what it has then put out.
/// Where the step fails the writer stops, and what it leaves is what
/// writing all three leaves.
pub proof fn lemma_wrote_then(
    base: Seq<u8>,
    at: int,
    done: Emission,
    next: Emission,
    rest: Emission,
    buf: Seq<u8>,
    pos: int,
    r: Result<(), DnsError>,
)
    requires
        0 <= at,
        base.len() == CAPACITY,
        outcome(at, done) is Ok,
        wrote(overlay(base, at, done.bytes), reach(at, done.len()), next, buf, pos, r),
    ensures
        wrote(base, at, done.followed_by(next), buf, pos, r),
        r is Err ==> wrote(base, at, done.followed_by(next.followed_by(rest)), buf, pos, r),
        done.followed_by(next.followed_by(rest)) == done.followed_by(next).followed_by(rest),
{
    lemma_overlay_concat(base, at, done.bytes, next.bytes);
    lemma_followed_by_assoc(done, next, rest);
    if !fits(at, done.followed_by(next).len()) && next.complete {
        lemma_overlay_overflow(base, at, done.bytes + next.bytes, rest.bytes);
    }
}

/// Putting out one emission behind another, and a third behind both, is
/// the same in whichever order the three are joined.
pub proof fn lemma_followed_by_assoc(a: Emission, b: Emission, c: Emission)
    ensures
        a.followed_by(b).followed_by(c) == a.followed_by(b.followed_by(c)),
{
    if a.complete && b.complete {
        assert((a.bytes + b.bytes) + c.bytes =~= a.bytes + (b.bytes + c.bytes));
    }
}

/// An empty, complete emission changes nothing in front of another or
/// behind it.
pub proof fn lemma_followed_by_nothing(a: Emission)
    ensures
        Emission::whole(Seq::empty()).followed_by(a) == a,
        a.followed_by(Emission::whole(Seq::empty())) == a,
{
    assert(Seq::<u8>::empty() + a.bytes =~= a.bytes);
    assert(a.bytes + Seq::<u8>::empty() =~= a.bytes);
}

/// What a writer puts out that writes `parts` one after the other and
/// stops behind the first that is not complete.
pub open spec fn chain(parts: Seq<Emission>) -> Emission
    decreases parts.len(),
{
    if parts.len() == 0 {
        Emission::whole(Seq::empty())
    } else {
        chain(parts.drop_last()).followed_by(parts.last())
    }
}

/// A chain in two parts: the first `k` of its emissions, then the others.
pub proof fn lemma_chain_split(parts: Seq<Emission>, k: int)
    requires
        0 <= k <= parts.len(),
    ensures
        chain(parts) == chain(parts.take(k)).followed_by(chain(parts.skip(k))),
    decreases parts.len(),
{
    if k == parts.len() {
        assert(parts.take(k) =~= parts);
        assert(parts.skip(k) =~= Seq::<Emission>::empty());
        lemma_followed_by_nothing(chain(parts));
    } else {
        let front = parts.drop_last();
        lemma_chain_split(front, k);
        assert(front.take(k) =~= parts.take(k));
        assert(front.skip(k) =~= parts.skip(k).drop_last());
        assert(parts.skip(k).last() == parts.last());
        lemma_followed_by_assoc(chain(parts.take(k)), chain(front.skip(k)), parts.last());
    }
}

/// A chain of one more emission.
pub proof fn lemma_chain_push(parts: Seq<Emission>, next: Emission)
    ensures
        chain(parts.push(next)) == chain(parts).followed_by(next),
{
    assert(parts.push(next).drop_last() =~= parts);
}

/// `buf` holds `bytes` from `at` on.
pub open spec fn holds(buf: Seq<u8>, at: int, bytes: Seq<u8>) -> bool {
    &&& 0 <= at
    &&& at + bytes.len() <= buf.len()
    &&& buf.subrange(at, at + bytes.len()) == bytes
}

/// A buffer that holds a run holds its front part and, behind it, the
/// rest.
pub proof fn lemma_holds_split(buf: Seq<u8>, at: int, front: Seq<u8>, back: Seq<u8>)
    requires
        holds(buf, at, front + back),
    ensures
        holds(buf, at, front),
        holds(buf, at + front.len(), back),
{
    let all = front + back;
    let run = buf.subrange(at, at + all.len());
    assert forall|i: int| 0 <= i < front.len() implies buf[at + i] == front[i] by {
        assert(run[i] == all[i]);
    }
    assert forall|i: int| 0 <= i < back.len() implies buf[at + front.len() + i] == back[i] by {
        assert(run[front.len() + i] == all[front.len() + i]);
    }
    assert(buf.subrange(at, at + front.len()) =~= front);
    assert(buf.subrange(at + front.len(), at + front.len() + back.len()) =~= back);
}

/// The bytes of a run that a buffer holds, one by one.
pub proof fn lemma_holds_index(buf: Seq<u8>, at: int, bytes: Seq<u8>, i: int)
    requires
        holds(buf, at, bytes),
        0 <= i < bytes.len(),
    ensures
        buf[at + i] == bytes[i],
{
    assert(buf.subrange(at, at + bytes.len())[i] == bytes[i]);
}

} // verus!
