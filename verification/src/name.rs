//! Domain names on the wire: length-prefixed labels, compression pointers,
//! and the dotted text that stands for a name in memory.

use vstd::prelude::*;
use crate::error::DnsError;
use crate::wire::{Emission, CAPACITY};

verus! {

/// The longest label that can be written.
pub const MAX_LABEL: usize = 63;

/// The number of compression pointers that reading one name will follow.
/// Pointers sit at different offsets of a message that does not loop, so no
/// such message has more of them in one name than the buffer has bytes.
pub const MAX_JUMPS: usize = 512;

/// The labels of a name and the offset at which reading goes on after it.
pub type WireName = (Seq<Seq<u8>>, int);

/// The labels that a vector of byte vectors holds.
pub open spec fn label_seqs(labels: Seq<Vec<u8>>) -> Seq<Seq<u8>> {
    labels.map_values(|label: Vec<u8>| label@)
}

/// A length byte with its two highest bits set starts a pointer.
pub open spec fn is_pointer(len: u8) -> bool {
    len >= 0xC0
}

/// The offset that a pointer names: the low six bits of its first byte,
/// then its second byte.
pub open spec fn pointer_target(len: u8, low: u8) -> int {
    (len - 0xC0) * 256 + low
}

/// The bytes between `pos` and the end of the buffer.
pub open spec fn room(pos: int) -> nat {
    if 0 <= pos < CAPACITY {
        (CAPACITY - pos) as nat
    } else {
        0
    }
}

/// The name that starts at `pos`, read with leave to follow `budget`
/// pointers.
///
/// A zero byte ends the name; reading goes on behind it. A pointer sends
/// the reader to its target for the rest of the labels; reading goes on
/// behind the pointer. Any other byte is the length of a label that
/// follows it. A step outside the buffer is `OutOfBounds`; a pointer met
/// with no budget left is `FormatError`.
pub open spec fn walk(buf: Seq<u8>, pos: int, budget: nat) -> Result<WireName, DnsError>
    decreases budget, room(pos),
{
    if !(0 <= pos < CAPACITY) {
        Err(DnsError::OutOfBounds)
    } else if is_pointer(buf[pos]) {
        if budget == 0 {
            Err(DnsError::FormatError)
        } else if pos + 1 >= CAPACITY {
            Err(DnsError::OutOfBounds)
        } else {
            match walk(buf, pointer_target(buf[pos], buf[pos + 1]), (budget - 1) as nat) {
                Ok(found) => Ok((found.0, pos + 2)),
                Err(e) => Err(e),
            }
        }
    } else if buf[pos] == 0 {
        Ok((Seq::empty(), pos + 1))
    } else if pos + 1 + buf[pos] > CAPACITY {
        Err(DnsError::OutOfBounds)
    } else {
        match walk(buf, pos + 1 + buf[pos], budget) {
            Ok(found) => Ok((seq![buf.subrange(pos + 1, pos + 1 + buf[pos])] + found.0, found.1)),
            Err(e) => Err(e),
        }
    }
}

/// The name that starts at `pos` of a message.
pub open spec fn parse_name(buf: Seq<u8>, pos: int) -> Result<WireName, DnsError> {
    walk(buf, pos, MAX_JUMPS as nat)
}

/// Reading goes on inside the buffer or at its end, behind at least one
/// byte of the name.
pub proof fn lemma_walk_resume(buf: Seq<u8>, pos: int, budget: nat)
    requires
        walk(buf, pos, budget) is Ok,
    ensures
        pos < walk(buf, pos, budget)->Ok_0.1 <= CAPACITY,
        0 <= pos < CAPACITY,
    decreases budget, room(pos),
{
    if is_pointer(buf[pos]) {
    } else if buf[pos] == 0 {
    } else {
        lemma_walk_resume(buf, pos + 1 + buf[pos], budget);
    }
}

/// What a reader that has gathered `seen` makes of the rest of the name:
/// its labels follow `seen`, and reading goes on at `saved` if a pointer
/// was followed before, else where the rest ends.
pub open spec fn graft(seen: Seq<Seq<u8>>, jumped: bool, saved: int, rest: Result<
    WireName,
    DnsError,
>) -> Result<WireName, DnsError> {
    match rest {
        Ok(found) => Ok(
            (
                seen + found.0,
                if jumped {
                    saved
                } else {
                    found.1
                },
            ),
        ),
        Err(e) => Err(e),
    }
}

/// The byte of the dot that parts the labels of a name in text.
pub const DOT: u8 = 0x2E;

/// The index of the first dot in `text`, or its length where it has none.
pub open spec fn first_dot(text: Seq<u8>) -> int
    decreases text.len(),
{
    if text.len() == 0 || text[0] == DOT {
        0
    } else {
        1 + first_dot(text.drop_first())
    }
}

/// The labels of a name in text: the runs of bytes between its dots, in
/// order, without the empty ones.
pub open spec fn text_labels(text: Seq<u8>) -> Seq<Seq<u8>>
    decreases text.len(),
{
    if text.len() == 0 {
        Seq::empty()
    } else {
        let n = first_dot(text);
        let rest = if 0 <= n < text.len() {
            text_labels(text.skip(n + 1))
        } else {
            Seq::empty()
        };
        if n == 0 {
            rest
        } else {
            seq![text.take(n)] + rest
        }
    }
}

/// No label is longer than the wire format allows.
pub open spec fn labels_fit(labels: Seq<Seq<u8>>) -> bool {
    forall|i: int| 0 <= i < labels.len() ==> (#[trigger] labels[i]).len() <= MAX_LABEL
}

/// The bytes that writing a name puts out: each label behind its length,
/// then a zero byte. Writing stops in front of the first label that is
/// too long, so the bytes end there.
pub open spec fn name_wire(labels: Seq<Seq<u8>>) -> Seq<u8>
    decreases labels.len(),
{
    if labels.len() == 0 {
        seq![0u8]
    } else if labels[0].len() > MAX_LABEL {
        Seq::empty()
    } else {
        seq![labels[0].len() as u8] + labels[0] + name_wire(labels.drop_first())
    }
}

/// What writing a name puts out.
pub open spec fn name_emission(labels: Seq<Seq<u8>>) -> Emission {
    Emission { bytes: name_wire(labels), complete: labels_fit(labels) }
}

/// What writing a name puts out, by its first label and the rest: the
/// label behind its length and then the rest, or nothing where the label
/// is too long.
pub proof fn lemma_name_emission_step(label: Seq<u8>, rest: Seq<Seq<u8>>)
    ensures
        name_emission(seq![label] + rest) == (if label.len() > MAX_LABEL {
            Emission { bytes: Seq::empty(), complete: false }
        } else {
            Emission::whole(seq![label.len() as u8]).followed_by(
                Emission::whole(label).followed_by(name_emission(rest)),
            )
        }),
{
    lemma_name_wire_step(label, rest);
    lemma_labels_fit_step(label, rest);
    assert(seq![label.len() as u8] + label + name_wire(rest) =~= seq![label.len() as u8] + (label
        + name_wire(rest)));
}

/// The first dot is at `n` where no dot stands before `n` and one stands
/// at `n`, or the text ends there.
pub proof fn lemma_first_dot(text: Seq<u8>, n: int)
    requires
        0 <= n <= text.len(),
        forall|k: int| 0 <= k < n ==> text[k] != DOT,
        n == text.len() || text[n] == DOT,
    ensures
        first_dot(text) == n,
    decreases n,
{
    if n > 0 {
        lemma_first_dot(text.drop_first(), n - 1);
    }
}

/// The labels of a text from `from` on, where its next dot stands at `to`
/// or the text ends there.
pub proof fn lemma_text_labels_step(text: Seq<u8>, from: int, to: int)
    requires
        0 <= from <= to <= text.len(),
        from < text.len(),
        forall|k: int| from <= k < to ==> text[k] != DOT,
        to == text.len() || text[to] == DOT,
    ensures
        text_labels(text.skip(from)) == (if to == from {
            Seq::<Seq<u8>>::empty()
        } else {
            seq![text.subrange(from, to)]
        }) + (if to < text.len() {
            text_labels(text.skip(to + 1))
        } else {
            Seq::<Seq<u8>>::empty()
        }),
{
    let tail = text.skip(from);
    lemma_first_dot(tail, to - from);
    assert(tail.take(to - from) =~= text.subrange(from, to));
    if to < text.len() {
        assert(tail.skip(to - from + 1) =~= text.skip(to + 1));
    }
    let rest = if to < text.len() {
        text_labels(text.skip(to + 1))
    } else {
        Seq::<Seq<u8>>::empty()
    };
    assert(Seq::<Seq<u8>>::empty() + rest =~= rest);
    assert(seq![text.subrange(from, to)] + Seq::<Seq<u8>>::empty() =~= seq![
        text.subrange(from, to),
    ]);
}

/// The bytes of a name whose first label is given.
pub proof fn lemma_name_wire_step(label: Seq<u8>, rest: Seq<Seq<u8>>)
    ensures
        name_wire(seq![label] + rest) == (if label.len() > MAX_LABEL {
            Seq::<u8>::empty()
        } else {
            seq![label.len() as u8] + label + name_wire(rest)
        }),
{
    assert((seq![label] + rest).drop_first() =~= rest);
}

/// A name fits where its first label and the name of the others fit.
pub proof fn lemma_labels_fit_step(label: Seq<u8>, rest: Seq<Seq<u8>>)
    ensures
        labels_fit(seq![label] + rest) <==> label.len() <= MAX_LABEL && labels_fit(rest),
{
    let all = seq![label] + rest;
    if labels_fit(all) {
        assert(all[0] == label);
        assert forall|i: int| 0 <= i < rest.len() implies (#[trigger] rest[i]).len()
            <= MAX_LABEL by {
            assert(all[i + 1] == rest[i]);
        }
    }
    if label.len() <= MAX_LABEL && labels_fit(rest) {
        assert forall|i: int| 0 <= i < all.len() implies (#[trigger] all[i]).len()
            <= MAX_LABEL by {
            if i > 0 {
                assert(all[i] == rest[i - 1]);
            }
        }
    }
}

/// Where the reader of a name stands after its step at `pos`, if it
/// goes on from there: at the target of a pointer, or behind a label.
/// It does not go on from the closing zero byte, nor from outside the
/// buffer.
pub open spec fn hop(buf: Seq<u8>, pos: int) -> Option<int> {
    if !(0 <= pos < CAPACITY) {
        None
    } else if is_pointer(buf[pos]) {
        if pos + 1 < CAPACITY {
            Some(pointer_target(buf[pos], buf[pos + 1]))
        } else {
            None
        }
    } else if buf[pos] == 0 || pos + 1 + buf[pos] > CAPACITY {
        None
    } else {
        Some(pos + 1 + buf[pos])
    }
}

/// The offset at which the reader of the name at `start` stands after
/// `steps` steps, if it got that far.
pub open spec fn trail(buf: Seq<u8>, start: int, steps: nat) -> Option<int>
    decreases steps,
{
    if steps == 0 {
        Some(start)
    } else {
        match trail(buf, start, (steps - 1) as nat) {
            Some(pos) => hop(buf, pos),
            None => None,
        }
    }
}

/// The reader of the name at `start` comes to stand twice at one offset.
pub open spec fn revisits(buf: Seq<u8>, start: int) -> bool {
    exists|i: nat, j: nat| i < j && trail(buf, start, i) is Some && trail(buf, start, i) == trail(
        buf,
        start,
        j,
    )
}

/// The trail from the second offset on is the trail of the name there.
proof fn lemma_trail_shift(buf: Seq<u8>, start: int, steps: nat)
    requires
        hop(buf, start) is Some,
    ensures
        trail(buf, hop(buf, start)->Some_0, steps) == trail(buf, start, steps + 1),
    decreases steps,
{
    if steps > 0 {
        lemma_trail_shift(buf, start, (steps - 1) as nat);
    } else {
        assert(trail(buf, start, 0) == Some(start));
        assert(trail(buf, start, 1) == hop(buf, start));
    }
}

/// A reader that got to a step got to every step before it.
proof fn lemma_trail_before(buf: Seq<u8>, start: int, early: nat, late: nat)
    requires
        early <= late,
        trail(buf, start, late) is Some,
    ensures
        trail(buf, start, early) is Some,
    decreases late,
{
    if early < late {
        lemma_trail_before(buf, start, early, (late - 1) as nat);
    }
}

/// From two steps at one offset the reader goes the same way.
proof fn lemma_trail_repeats(buf: Seq<u8>, start: int, i: nat, j: nat, more: nat)
    requires
        trail(buf, start, i) == trail(buf, start, j),
    ensures
        trail(buf, start, i + more) == trail(buf, start, j + more),
    decreases more,
{
    if more > 0 {
        lemma_trail_repeats(buf, start, i, j, (more - 1) as nat);
    }
}

/// A reader that comes twice to one offset never stops.
proof fn lemma_trail_forever(buf: Seq<u8>, start: int, i: nat, j: nat, steps: nat)
    requires
        i < j,
        trail(buf, start, i) is Some,
        trail(buf, start, i) == trail(buf, start, j),
    ensures
        trail(buf, start, steps) is Some,
    decreases steps,
{
    if steps <= j {
        lemma_trail_before(buf, start, steps, j);
    } else {
        let back = (steps - (j - i)) as nat;
        lemma_trail_forever(buf, start, i, j, back);
        lemma_trail_repeats(buf, start, i, j, (steps - j) as nat);
    }
}

/// A reader that never stops runs out of budget, whatever its budget.
proof fn lemma_forever_fails(buf: Seq<u8>, pos: int, budget: nat)
    requires
        forall|steps: nat| (#[trigger] trail(buf, pos, steps)) is Some,
    ensures
        walk(buf, pos, budget) == Err::<WireName, DnsError>(DnsError::FormatError),
    decreases budget, room(pos),
{
    assert(trail(buf, pos, 0) is Some);
    assert(trail(buf, pos, 1) is Some);
    let next = hop(buf, pos)->Some_0;
    assert forall|steps: nat| (#[trigger] trail(buf, next, steps)) is Some by {
        lemma_trail_shift(buf, pos, steps);
        assert(trail(buf, pos, steps + 1) is Some);
    }
    if is_pointer(buf[pos]) {
        if budget > 0 {
            lemma_forever_fails(buf, next, (budget - 1) as nat);
        }
    } else {
        lemma_forever_fails(buf, next, budget);
    }
}

/// A name whose labels and pointers lead the reader twice to one offset
/// is refused with `FormatError`: reading it would never end.
pub proof fn lemma_loop_is_format_error(buf: Seq<u8>, start: int)
    requires
        revisits(buf, start),
    ensures
        parse_name(buf, start) == Err::<WireName, DnsError>(DnsError::FormatError),
{
    let (i, j) = choose|i: nat, j: nat|
        i < j && trail(buf, start, i) is Some && trail(buf, start, i) == trail(buf, start, j);
    assert forall|steps: nat| (#[trigger] trail(buf, start, steps)) is Some by {
        lemma_trail_forever(buf, start, i, j, steps);
    }
    lemma_forever_fails(buf, start, MAX_JUMPS as nat);
}

/// More values than there are numbers below `bound`, all below `bound`:
/// two of them are the same.
proof fn lemma_two_are_equal(values: Seq<int>, bound: nat)
    requires
        values.len() > bound,
        forall|i: int| 0 <= i < values.len() ==> 0 <= #[trigger] values[i] < bound,
    ensures
        exists|i: int, j: int| 0 <= i < j < values.len() && values[i] == values[j],
    decreases bound,
{
    if bound == 0 {
        assert(0 <= values[0] < bound);
    } else {
        let last = values.last();
        let front = values.drop_last();
        if exists|i: int| 0 <= i < front.len() && front[i] == last {
            let i = choose|i: int| 0 <= i < front.len() && front[i] == last;
            assert(values[i] == values[values.len() - 1]);
        } else {
            let packed = Seq::new(
                front.len(),
                |i: int|
                    if front[i] > last {
                        front[i] - 1
                    } else {
                        front[i]
                    },
            );
            assert forall|i: int| 0 <= i < packed.len() implies 0 <= #[trigger] packed[i] < bound
                - 1 by {
                assert(front[i] == values[i]);
                assert(front[i] != last);
            }
            lemma_two_are_equal(packed, (bound - 1) as nat);
            let (i, j) = choose|i: int, j: int|
                0 <= i < j < packed.len() && packed[i] == packed[j];
            assert(front[i] != last && front[j] != last);
            assert(values[i] == values[j]);
        }
    }
}

/// A reader that ran out of budget stood inside the buffer at each of
/// its first steps, one more of them than its budget.
proof fn lemma_format_error_trail(buf: Seq<u8>, pos: int, budget: nat, steps: nat)
    requires
        walk(buf, pos, budget) == Err::<WireName, DnsError>(DnsError::FormatError),
        steps <= budget,
    ensures
        trail(buf, pos, steps) is Some,
        0 <= trail(buf, pos, steps)->Some_0 < CAPACITY,
    decreases budget, room(pos),
{
    if steps > 0 {
        let next = hop(buf, pos)->Some_0;
        if is_pointer(buf[pos]) {
            lemma_format_error_trail(buf, next, (budget - 1) as nat, (steps - 1) as nat);
        } else {
            lemma_format_error_trail(buf, next, budget, (steps - 1) as nat);
        }
        lemma_trail_shift(buf, pos, (steps - 1) as nat);
    }
}

/// No name is refused for its pointers unless it loops: where reading a
/// name ends in `FormatError`, the reader came twice to one offset. So a
/// name whose reader comes to no offset twice is read, or fails with
/// `OutOfBounds`.
pub proof fn lemma_format_error_is_loop(buf: Seq<u8>, start: int)
    requires
        parse_name(buf, start) == Err::<WireName, DnsError>(DnsError::FormatError),
    ensures
        revisits(buf, start),
{
    let stood = Seq::new(
        (MAX_JUMPS + 1) as nat,
        |steps: int| trail(buf, start, steps as nat)->Some_0,
    );
    assert forall|i: int| 0 <= i < stood.len() implies 0 <= #[trigger] stood[i] < CAPACITY by {
        lemma_format_error_trail(buf, start, MAX_JUMPS as nat, i as nat);
    }
    lemma_two_are_equal(stood, CAPACITY as nat);
    let (i, j) = choose|i: int, j: int| 0 <= i < j < stood.len() && stood[i] == stood[j];
    lemma_format_error_trail(buf, start, MAX_JUMPS as nat, i as nat);
    lemma_format_error_trail(buf, start, MAX_JUMPS as nat, j as nat);
    assert(trail(buf, start, i as nat) == trail(buf, start, j as nat));
    assert((i as nat) < (j as nat));
}

/// A name that can be read with some budget reads the same with more.
pub proof fn lemma_walk_more_budget(buf: Seq<u8>, pos: int, budget: nat, more: nat)
    requires
        walk(buf, pos, budget) is Ok,
        budget <= more,
    ensures
        walk(buf, pos, more) == walk(buf, pos, budget),
    decreases budget, room(pos),
{
    if is_pointer(buf[pos]) {
        lemma_walk_more_budget(
            buf,
            pointer_target(buf[pos], buf[pos + 1]),
            (budget - 1) as nat,
            (more - 1) as nat,
        );
    } else if buf[pos] != 0 {
        lemma_walk_more_budget(buf, pos + 1 + buf[pos], budget, more);
    }
}

/// A pointer stands for the name at its target: where the name at the
/// pointer can be read, the name at the target can, and both have the
/// same labels; behind the pointer reading goes on two bytes further.
/// The name at the pointer can be read whenever the name at the target
/// can be read with one pointer less.
pub proof fn lemma_pointer_reads_target(buf: Seq<u8>, pos: int)
    requires
        0 <= pos,
        pos + 1 < CAPACITY,
        is_pointer(buf[pos]),
    ensures
        parse_name(buf, pos) is Ok ==> parse_name(buf, pointer_target(buf[pos], buf[pos + 1]))
            is Ok && parse_name(buf, pointer_target(buf[pos], buf[pos + 1]))->Ok_0.0 == parse_name(
            buf,
            pos,
        )->Ok_0.0 && parse_name(buf, pos)->Ok_0.1 == pos + 2,
        walk(buf, pointer_target(buf[pos], buf[pos + 1]), (MAX_JUMPS - 1) as nat) is Ok
            ==> parse_name(buf, pos) is Ok,
{
    let target = pointer_target(buf[pos], buf[pos + 1]);
    if walk(buf, target, (MAX_JUMPS - 1) as nat) is Ok {
        lemma_walk_more_budget(buf, target, (MAX_JUMPS - 1) as nat, MAX_JUMPS as nat);
    }
}

/// The first dot is inside the text or at its end.
pub proof fn lemma_first_dot_bounds(text: Seq<u8>)
    ensures
        0 <= first_dot(text) <= text.len(),
    decreases text.len(),
{
    if text.len() != 0 && text[0] != DOT {
        lemma_first_dot_bounds(text.drop_first());
    }
}

/// No label of a name in text is empty.
pub proof fn lemma_text_labels_nonempty(text: Seq<u8>)
    ensures
        forall|i: int| 0 <= i < text_labels(text).len() ==> (#[trigger] text_labels(text)[i]).len()
            > 0,
    decreases text.len(),
{
    if text.len() > 0 {
        let n = first_dot(text);
        lemma_first_dot_bounds(text);
        let rest = if 0 <= n < text.len() {
            text_labels(text.skip(n + 1))
        } else {
            Seq::empty()
        };
        if n < text.len() {
            lemma_text_labels_nonempty(text.skip(n + 1));
        }
        if n > 0 {
            let all = seq![text.take(n)] + rest;
            assert forall|i: int| 0 <= i < all.len() implies (#[trigger] all[i]).len() > 0 by {
                if i > 0 {
                    assert(all[i] == rest[i - 1]);
                }
            }
        }
    }
}

/// A name that was written is read back: from a buffer that holds the
/// bytes of labels, none of them empty or too long, the reader gets these
/// labels, and goes on behind the bytes. It follows no pointer.
pub proof fn lemma_name_reads_back(buf: Seq<u8>, at: int, labels: Seq<Seq<u8>>, budget: nat)
    requires
        buf.len() == CAPACITY,
        labels_fit(labels),
        forall|i: int| 0 <= i < labels.len() ==> (#[trigger] labels[i]).len() > 0,
        crate::wire::holds(buf, at, name_wire(labels)),
    ensures
        walk(buf, at, budget) == Ok::<WireName, DnsError>((labels, at + name_wire(labels).len())),
    decreases labels.len(),
{
    if labels.len() == 0 {
        crate::wire::lemma_holds_index(buf, at, name_wire(labels), 0);
        assert(labels =~= Seq::<Seq<u8>>::empty());
    } else {
        let label = labels[0];
        let rest = labels.drop_first();
        let head = seq![label.len() as u8];
        let tail = name_wire(rest);
        assert(labels =~= seq![label] + rest);
        lemma_labels_fit_step(label, rest);
        assert(name_wire(labels) =~= head + (label + tail));
        crate::wire::lemma_holds_split(buf, at, head, label + tail);
        crate::wire::lemma_holds_split(buf, at + 1, label, tail);
        crate::wire::lemma_holds_index(buf, at, head, 0);
        assert forall|i: int| 0 <= i < rest.len() implies (#[trigger] rest[i]).len() > 0 by {
            assert(rest[i] == labels[i + 1]);
        }
        lemma_name_reads_back(buf, at + 1 + label.len(), rest, budget);
        assert(buf[at] == label.len());
    }
}

} // verus!
