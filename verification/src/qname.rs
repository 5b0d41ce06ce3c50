//! Reading and writing domain names on a message buffer.

use vstd::prelude::*;
use vstd::slice::slice_to_vec;
use vstd::string::StringExecFns;
use vstd::string::StringSliceAdditionalSpecFns;
use crate::byte_packet_buffer::BytePacketBuffer;
use crate::error::DnsError;
use crate::name::{
    graft, label_seqs, lemma_name_emission_step, lemma_text_labels_step, name_emission,
    parse_name, room, text_labels, walk, DOT, MAX_JUMPS, MAX_LABEL,
};
use crate::text::{name_string, name_text};
use crate::wire::{
    lemma_followed_by_assoc, lemma_followed_by_nothing, lemma_overlay_concat,
    lemma_overlay_empty, lemma_overlay_overflow, lemma_wrote_then, outcome, overlay, reach,
    wrote, Emission, CAPACITY,
};

verus! {

impl BytePacketBuffer {
    /// Reads the name under the cursor and appends its text to `outstr`.
    /// The cursor moves past the name as it stands in place: past its
    /// closing zero byte, or past the first pointer. Where the name cannot
    /// be read, the buffer and `outstr` stay as they were.
    pub fn read_qname(&mut self, outstr: &mut String) -> (r: Result<(), DnsError>)
        ensures
            final(self).buf == old(self).buf,
            match parse_name(old(self).buf@, old(self).pos as int) {
                Ok(name) => r == Ok::<(), DnsError>(()) && final(outstr)@ == old(outstr)@
                    + name_text(name.0) && final(self).pos == name.1,
                Err(e) => r == Err::<(), DnsError>(e) && final(outstr)@ == old(outstr)@
                    && final(self).pos == old(self).pos,
            },
    {
        match self.labels_at(self.pos) {
            Ok((labels, next)) => {
                let text: String = name_string(&labels);
                outstr.append(text.as_str());
                self.pos = next;
                Ok(())
            },
            Err(e) => Err(e),
        }
    }

    /// The labels of the name that starts at `start`, and the offset at
    /// which reading goes on after the name. Pointers are followed; the
    /// cursor of the buffer is not used.
    pub fn labels_at(&self, start: usize) -> (r: Result<(Vec<Vec<u8>>, usize), DnsError>)
        ensures
            match parse_name(self.buf@, start as int) {
                Ok(name) => r is Ok && label_seqs(r->Ok_0.0@) == name.0 && r->Ok_0.1 == name.1,
                Err(e) => r is Err && r->Err_0 == e,
            },
    {
        let mut labels: Vec<Vec<u8>> = Vec::new();
        let mut pos: usize = start;
        let mut jumps: usize = 0;
        let mut jumped: bool = false;
        let mut resume: usize = 0;
        loop
            invariant_except_break
                jumps <= MAX_JUMPS,
                jumped ==> resume <= CAPACITY,
                parse_name(self.buf@, start as int) == graft(
                    label_seqs(labels@),
                    jumped,
                    resume as int,
                    walk(self.buf@, pos as int, (MAX_JUMPS - jumps) as nat),
                ),
            ensures
                resume <= CAPACITY,
                parse_name(self.buf@, start as int) == Ok::<(Seq<Seq<u8>>, int), DnsError>(
                    (label_seqs(labels@), resume as int),
                ),
            decreases MAX_JUMPS - jumps, room(pos as int),
        {
            if pos >= CAPACITY {
                return Err(DnsError::OutOfBounds);
            }
            let len: u8 = self.buf[pos];
            if (len & 0xC0) == 0xC0 {
                assert((len & 0xC0) == 0xC0 <==> len >= 0xC0) by (bit_vector);
                if jumps >= MAX_JUMPS {
                    return Err(DnsError::FormatError);
                }
                if pos + 1 >= CAPACITY {
                    return Err(DnsError::OutOfBounds);
                }
                let low: u8 = self.buf[pos + 1];
                if !jumped {
                    resume = pos + 2;
                    jumped = true;
                }
                let offset: u16 = (((len as u16) ^ 0xC0) << 8) | (low as u16);
                assert(len >= 0xC0 ==> (((len as u16) ^ 0xC0) << 8) | (low as u16) == (len - 0xC0)
                    as u16 * 256 + low as u16) by (bit_vector);
                pos = offset as usize;
                jumps += 1;
            } else {
                assert((len & 0xC0) == 0xC0 <==> len >= 0xC0) by (bit_vector);
                pos += 1;
                if len == 0 {
                    if !jumped {
                        resume = pos;
                    }
                    assert(label_seqs(labels@) + Seq::<Seq<u8>>::empty() == label_seqs(labels@));
                    break;
                }
                if pos + len as usize > CAPACITY {
                    return Err(DnsError::OutOfBounds);
                }
                let ghost before = label_seqs(labels@);
                let label: Vec<u8> = slice_to_vec(&self.buf[pos..pos + len as usize]);
                labels.push(label);
                proof {
                    let text = self.buf@.subrange(pos as int, pos + len);
                    assert(label_seqs(labels@) =~= before + seq![text]);
                    let rest = walk(self.buf@, pos + len, (MAX_JUMPS - jumps) as nat);
                    if rest is Ok {
                        assert((before + seq![text]) + rest->Ok_0.0 =~= before + (seq![text]
                            + rest->Ok_0.0));
                    }
                }
                pos += len as usize;
            }
        }
        Ok((labels, resume))
    }

    /// Writes `bytes` at the cursor, one after the other. Of a run that
    /// does not fit, the bytes that do are written.
    fn write_all(&mut self, bytes: &[u8]) -> (r: Result<(), DnsError>)
        ensures
            wrote(
                old(self).buf@,
                old(self).pos as int,
                Emission::whole(bytes@),
                final(self).buf@,
                final(self).pos as int,
                r,
            ),
    {
        let mut k: usize = 0;
        proof {
            lemma_overlay_empty(self.buf@, self.pos as int);
            assert(bytes@.take(0) =~= Seq::<u8>::empty());
        }
        while k < bytes.len()
            invariant
                k <= bytes@.len(),
                old(self).pos + k <= CAPACITY || k == 0,
                self.buf@ == overlay(old(self).buf@, old(self).pos as int, bytes@.take(k as int)),
                self.pos == reach(old(self).pos as int, k as int),
            decreases bytes@.len() - k,
        {
            let ghost sofar = bytes@.take(k as int);
            let ghost next = seq![bytes@[k as int]];
            proof {
                lemma_overlay_concat(old(self).buf@, old(self).pos as int, sofar, next);
                assert(sofar + next =~= bytes@.take(k + 1));
            }
            match self.write(bytes[k]) {
                Ok(()) => {},
                Err(e) => {
                    proof {
                        let rest = bytes@.skip(k + 1);
                        lemma_overlay_overflow(
                            old(self).buf@,
                            old(self).pos as int,
                            sofar + next,
                            rest,
                        );
                        assert((sofar + next) + rest =~= bytes@);
                    }
                    return Err(e);
                },
            }
            k += 1;
        }
        assert(bytes@.take(k as int) =~= bytes@);
        Ok(())
    }

    /// Writes a name at the cursor: each label of `qname` that is not
    /// empty behind its length, then a zero byte. Pointers are never
    /// written.
    ///
    /// Writing stops at the first label of more than 63 bytes with
    /// `FormatError`, and at the end of the buffer with `OutOfBounds`; what
    /// was written before stays written.
    pub fn write_qname(&mut self, qname: &str) -> (r: Result<(), DnsError>)
        ensures
            wrote(
                old(self).buf@,
                old(self).pos as int,
                name_emission(text_labels(qname.spec_bytes())),
                final(self).buf@,
                final(self).pos as int,
                r,
            ),
    {
        let text: &[u8] = qname.as_bytes();
        let n: usize = text.len();
        let ghost start = old(self).pos as int;
        let ghost base = old(self).buf@;
        let ghost all = name_emission(text_labels(text@));
        let ghost done = Seq::<u8>::empty();
        let mut i: usize = 0;
        proof {
            lemma_overlay_empty(base, start);
            assert(text@.skip(0) =~= text@);
            lemma_followed_by_nothing(all);
        }
        while i < n
            invariant
                n == text@.len(),
                i <= n,
                text@ == qname.spec_bytes(),
                all == name_emission(text_labels(text@)),
                base == old(self).buf@,
                start == old(self).pos,
                outcome(start, Emission::whole(done)) is Ok,
                self.buf@ == overlay(base, start, done),
                self.pos == reach(start, done.len() as int),
                all == Emission::whole(done).followed_by(
                    name_emission(
                        if i < n {
                            text_labels(text@.skip(i as int))
                        } else {
                            Seq::<Seq<u8>>::empty()
                        },
                    ),
                ),
            decreases n - i,
        {
            let mut j: usize = i;
            while j < n && text[j] != DOT
                invariant
                    n == text@.len(),
                    i <= j <= n,
                    forall|k: int| i <= k < j ==> text@[k] != DOT,
                decreases n - j,
            {
                j += 1;
            }
            let ghost rest = name_emission(
                if j < n && j + 1 < n {
                    text_labels(text@.skip(j + 1))
                } else {
                    Seq::<Seq<u8>>::empty()
                },
            );
            let ghost label = text@.subrange(i as int, j as int);
            proof {
                lemma_text_labels_step(text@, i as int, j as int);
                if j < n && j + 1 == n {
                    assert(text@.skip(j + 1).len() == 0);
                }
                lemma_name_emission_step(label, text_labels(text@.skip(i as int)).drop_first());
            }
            if j > i {
                let len: usize = j - i;
                proof {
                    assert(text_labels(text@.skip(i as int)).drop_first() =~= (if j < n && j + 1
                        < n {
                        text_labels(text@.skip(j + 1))
                    } else {
                        Seq::<Seq<u8>>::empty()
                    }));
                    assert(text_labels(text@.skip(i as int)) =~= seq![label] + text_labels(
                        text@.skip(i as int),
                    ).drop_first());
                }
                if len > MAX_LABEL {
                    proof {
                        assert(done + Seq::<u8>::empty() =~= done);
                    }
                    return Err(DnsError::FormatError);
                }
                let ghost head = Emission::whole(seq![len as u8]);
                let ghost body = Emission::whole(label);
                let r0 = self.write_u8(len as u8);
                proof {
                    lemma_wrote_then(
                        base,
                        start,
                        Emission::whole(done),
                        head,
                        body.followed_by(rest),
                        self.buf@,
                        self.pos as int,
                        r0,
                    );
                    lemma_followed_by_assoc(head, body, rest);
                }
                r0?;
                let r1 = self.write_all(vstd::slice::slice_subrange(text, i, j));
                proof {
                    lemma_wrote_then(
                        base,
                        start,
                        Emission::whole(done + seq![len as u8]),
                        body,
                        rest,
                        self.buf@,
                        self.pos as int,
                        r1,
                    );
                }
                r1?;
                proof {
                    done = done + seq![len as u8] + label;
                }
            } else {
                proof {
                    assert(text_labels(text@.skip(i as int)) =~= (if j < n && j + 1 < n {
                        text_labels(text@.skip(j + 1))
                    } else {
                        Seq::<Seq<u8>>::empty()
                    }));
                }
            }
            i = if j < n {
                j + 1
            } else {
                j
            };
        }
        let r2 = self.write_u8(0);
        proof {
            assert(name_emission(Seq::<Seq<u8>>::empty()) == Emission::whole(seq![0u8]));
            lemma_wrote_then(
                base,
                start,
                Emission::whole(done),
                Emission::whole(seq![0u8]),
                Emission::whole(Seq::empty()),
                self.buf@,
                self.pos as int,
                r2,
            );
        }
        r2
    }
}

} // verus!
