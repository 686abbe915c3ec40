use vstd::prelude::*;
use vstd::pervasive::VecAdditionalExecFns;
use vstd::slice::slice_subrange;

use crate::dns_error::DnsError;
use crate::qname::{encode_qname, join_labels, labels_fit, lower_byte, lower_bytes,
    name_end, parse_labels, split_dots, MAX_JUMPS};
use crate::qname::{lemma_encode_qname_step, lemma_split_dots_prefix};
use crate::wire::{spliced, u16_bytes, u16_of, u32_bytes, u32_of};
use crate::wire::{lemma_spliced_concat, lemma_spliced_one};

verus! {

/// A fixed 512-byte message buffer with a read/write cursor.  Every
/// codec operation goes through it, and every operation checks that the
/// positions it touches stay below the capacity before touching them.
pub struct BytePacketBuffer {
    pub buf: Vec<u8>,
    pub pos: usize,
}

impl BytePacketBuffer {
    /// The shape a buffer must keep: exactly 512 bytes of storage, and
    /// a cursor no further than one past the last byte.
    pub open spec fn wf(&self) -> bool {
        self.buf@.len() == 512 && self.pos <= 512
    }

    /// A zero-filled buffer with the cursor at the start.
    pub fn new() -> (r: BytePacketBuffer)
        ensures
            r.wf(),
            r.pos == 0,
            forall|i: int| 0 <= i < 512 ==> r.buf@[i] == 0,
    {
        let mut buf: Vec<u8> = Vec::new();
        let mut i: usize = 0;
        while i < 512
            invariant
                i <= 512,
                buf@.len() == i,
                forall|j: int| 0 <= j < i ==> buf@[j] == 0,
            decreases 512 - i,
        {
            buf.push(0);
            i = i + 1;
        }
        BytePacketBuffer { buf, pos: 0 }
    }

    /// The cursor's position.
    pub fn pos(&self) -> (r: usize)
        ensures
            r == self.pos,
    {
        self.pos
    }

    /// Moves the cursor forward by `steps` bytes; fails if that would
    /// put it past the capacity.
    pub fn step(&mut self, steps: usize) -> (r: Result<(), DnsError>)
        requires
            old(self).wf(),
        ensures
            final(self).wf(),
            final(self).buf@ == old(self).buf@,
            r is Ok <==> old(self).pos + steps <= 512,
            r is Ok ==> final(self).pos == old(self).pos + steps,
            r is Err ==> final(self).pos == old(self).pos && r->Err_0
                == DnsError::EndOfBuffer,
    {
        if steps <= 512 && self.pos <= 512 - steps {
            self.pos = self.pos + steps;
            Ok(())
        } else {
            Err(DnsError::EndOfBuffer)
        }
    }

    /// Puts the cursor at an absolute position; fails past the capacity.
    pub fn seek(&mut self, pos: usize) -> (r: Result<(), DnsError>)
        requires
            old(self).wf(),
        ensures
            final(self).wf(),
            final(self).buf@ == old(self).buf@,
            r is Ok <==> pos <= 512,
            r is Ok ==> final(self).pos == pos,
            r is Err ==> final(self).pos == old(self).pos && r->Err_0
                == DnsError::EndOfBuffer,
    {
        if pos <= 512 {
            self.pos = pos;
            Ok(())
        } else {
            Err(DnsError::EndOfBuffer)
        }
    }

    /// Consumes the byte under the cursor.
    pub fn read(&mut self) -> (r: Result<u8, DnsError>)
        requires
            old(self).wf(),
        ensures
            final(self).wf(),
            final(self).buf@ == old(self).buf@,
            r is Ok <==> old(self).pos < 512,
            r is Ok ==> final(self).pos == old(self).pos + 1 && r->Ok_0
                == old(self).buf@[old(self).pos as int],
            r is Err ==> final(self).pos == old(self).pos && r->Err_0
                == DnsError::EndOfBuffer,
    {
        if self.pos >= 512 {
            return Err(DnsError::EndOfBuffer);
        }
        let res = self.buf[self.pos];
        self.pos = self.pos + 1;
        Ok(res)
    }

    /// The byte at an absolute position, without moving the cursor.
    pub fn get(&self, pos: usize) -> (r: Result<u8, DnsError>)
        requires
            self.wf(),
        ensures
            r is Ok <==> pos < 512,
            r is Ok ==> r->Ok_0 == self.buf@[pos as int],
            r is Err ==> r->Err_0 == DnsError::EndOfBuffer,
    {
        if pos >= 512 {
            return Err(DnsError::EndOfBuffer);
        }
        Ok(self.buf[pos])
    }

    /// Borrows `len` bytes starting at `start`, without moving the
    /// cursor.  Only a range that would run past the capacity is
    /// refused; one ending exactly at the capacity touches no byte
    /// beyond it and succeeds.
    pub fn get_range(&self, start: usize, len: usize) -> (r: Result<&[u8], DnsError>)
        requires
            self.wf(),
        ensures
            r is Ok <==> start + len <= 512,
            r is Ok ==> r->Ok_0@ == self.buf@.subrange(start as int, start + len),
            r is Err ==> r->Err_0 == DnsError::EndOfBuffer,
    {
        if start > 512 || len > 512 - start {
            return Err(DnsError::EndOfBuffer);
        }
        Ok(slice_subrange(self.buf.as_slice(), start, start + len))
    }

    /// Consumes two bytes as one big-endian 16-bit value.
    pub fn read_u16(&mut self) -> (r: Result<u16, DnsError>)
        requires
            old(self).wf(),
        ensures
            final(self).wf(),
            final(self).buf@ == old(self).buf@,
            r is Ok <==> old(self).pos + 2 <= 512,
            r is Ok ==> final(self).pos == old(self).pos + 2 && r->Ok_0
                == u16_of(
                old(self).buf@[old(self).pos as int],
                old(self).buf@[old(self).pos + 1],
            ),
            r is Err ==> r->Err_0 == DnsError::EndOfBuffer,
    {
        let hi = self.read()?;
        let lo = self.read()?;
        Ok((hi as u16) * 256 + (lo as u16))
    }

    /// Consumes four bytes as one big-endian 32-bit value.
    pub fn read_u32(&mut self) -> (r: Result<u32, DnsError>)
        requires
            old(self).wf(),
        ensures
            final(self).wf(),
            final(self).buf@ == old(self).buf@,
            r is Ok <==> old(self).pos + 4 <= 512,
            r is Ok ==> final(self).pos == old(self).pos + 4 && r->Ok_0
                == u32_of(
                old(self).buf@[old(self).pos as int],
                old(self).buf@[old(self).pos + 1],
                old(self).buf@[old(self).pos + 2],
                old(self).buf@[old(self).pos + 3],
            ),
            r is Err ==> r->Err_0 == DnsError::EndOfBuffer,
    {
        let b0 = self.read()?;
        let b1 = self.read()?;
        let b2 = self.read()?;
        let b3 = self.read()?;
        Ok((b0 as u32) * 0x1000000 + (b1 as u32) * 0x10000 + (b2 as u32) * 0x100 + (
        b3 as u32))
    }

    /// Reads a domain name at the cursor and appends it to `outstr` in
    /// dotted, ASCII-lowercased form, dereferencing compression pointers
    /// on the way.  The cursor ends one past the name's in-place bytes:
    /// after the terminating zero, or after the first pointer when the
    /// name jumps — never inside the data a pointer refers back to.  At
    /// most `MAX_JUMPS` pointers are chased; a longer chain fails, so a
    /// self-referential chain cannot loop forever.
    pub fn read_qname(&mut self, outstr: &mut Vec<u8>) -> (r: Result<(), DnsError>)
        requires
            old(self).wf(),
        ensures
            final(self).wf(),
            final(self).buf@ == old(self).buf@,
            r is Ok <==> parse_labels(
                old(self).buf@,
                old(self).pos as int,
                MAX_JUMPS as nat,
            ) is Some,
            r is Ok ==> final(outstr)@ == old(outstr)@ + join_labels(
                parse_labels(old(self).buf@, old(self).pos as int, MAX_JUMPS as nat).unwrap(),
            ),
            r is Ok ==> Some(final(self).pos as int) == name_end(
                old(self).buf@,
                old(self).pos as int,
            ),
    {
        let ghost data = self.buf@;
        let ghost start = self.pos as int;
        let ghost out0 = outstr@;
        let mut pos = self.pos;
        let mut jumped = false;
        let mut jumps: usize = 0;
        let mut first = true;
        let ghost mut acc: Seq<Seq<u8>> = Seq::empty();

        proof {
            assert(join_labels(Seq::<Seq<u8>>::empty()) == Seq::<u8>::empty());
            assert(out0 + Seq::<u8>::empty() =~= out0);
            if parse_labels(data, start, MAX_JUMPS as nat) is Some {
                assert(Seq::empty() + parse_labels(data, start, MAX_JUMPS as nat).unwrap()
                    =~= parse_labels(data, start, MAX_JUMPS as nat).unwrap());
            }
        }
        loop
            invariant_except_break
                data == old(self).buf@,
                start == old(self).pos,
                out0 == old(outstr)@,
                self.wf(),
                self.buf@ == data,
                jumps <= MAX_JUMPS,
                !jumped ==> self.pos == start && name_end(data, start) == name_end(
                    data,
                    pos as int,
                ),
                jumped ==> name_end(data, start) == Some(self.pos as int),
                parse_labels(data, start, MAX_JUMPS as nat) == (match parse_labels(
                    data,
                    pos as int,
                    (MAX_JUMPS - jumps) as nat,
                ) {
                    Some(rest) => Some(acc + rest),
                    None => None::<Seq<Seq<u8>>>,
                }),
                outstr@ == out0 + join_labels(acc),
                first <==> acc.len() == 0,
            ensures
                data == old(self).buf@,
                start == old(self).pos,
                out0 == old(outstr)@,
                self.wf(),
                self.buf@ == data,
                parse_labels(data, start, MAX_JUMPS as nat) == Some(acc),
                outstr@ == out0 + join_labels(acc),
                !jumped ==> self.pos == start && name_end(data, start) == Some(pos as int)
                    && pos <= 512,
                jumped ==> name_end(data, start) == Some(self.pos as int),
            decreases MAX_JUMPS - jumps, 512 - pos,
        {
            let len = self.get(pos)?;
            if (len & 0xC0) == 0xC0 {
                if jumps >= MAX_JUMPS {
                    return Err(DnsError::TooManyJumps);
                }
                let b2 = self.get(pos + 1)?;
                if !jumped {
                    self.seek(pos + 2)?;
                }
                proof {
                    assert((len ^ 0xC0) <= 0x3F) by (bit_vector)
                        requires
                            (len & 0xC0) == 0xC0,
                    ;
                }
                let target = ((len ^ 0xC0) as u16) * 256 + (b2 as u16);
                pos = target as usize;
                jumped = true;
                jumps = jumps + 1;
            } else {
                if len == 0 {
                    proof {
                        assert(parse_labels(data, pos as int, (MAX_JUMPS - jumps) as nat)
                            == Some(Seq::<Seq<u8>>::empty()));
                        assert(acc + Seq::<Seq<u8>>::empty() =~= acc);
                    }
                    pos = pos + 1;
                    break;
                }
                let len_us = len as usize;
                if pos + 1 + len_us >= 512 {
                    return Err(DnsError::EndOfBuffer);
                }
                if !first {
                    outstr.push(46);
                }
                let ghost base = outstr@;
                let mut k: usize = 0;
                proof {
                    assert(data.subrange(pos + 1, pos + 1) =~= Seq::<u8>::empty());
                    assert(lower_bytes(Seq::<u8>::empty()) =~= Seq::<u8>::empty());
                    assert(base + Seq::<u8>::empty() =~= base);
                }
                while k < len_us
                    invariant
                        k <= len_us,
                        pos + 1 + len_us < 512,
                        self.wf(),
                        self.buf@ == data,
                        outstr@ == base + lower_bytes(data.subrange(pos + 1, pos + 1 + k)),
                    decreases len_us - k,
                {
                    let b = self.buf[pos + 1 + k];
                    let lb = if 65 <= b && b <= 90 {
                        b + 32
                    } else {
                        b
                    };
                    outstr.push(lb);
                    proof {
                        let prefix = data.subrange(pos + 1, pos + 1 + k);
                        assert(data.subrange(pos + 1, pos + 1 + (k + 1)) =~= prefix.push(
                            data[pos + 1 + k],
                        ));
                        assert(lower_bytes(prefix.push(data[pos + 1 + k])) =~= lower_bytes(
                            prefix,
                        ).push(lower_byte(data[pos + 1 + k])));
                        assert(outstr@ =~= base + lower_bytes(
                            data.subrange(pos + 1, pos + 1 + (k + 1)),
                        ));
                    }
                    k = k + 1;
                }
                proof {
                    let lab = lower_bytes(data.subrange(pos + 1, pos + 1 + len_us as int));
                    let acc2 = acc.push(lab);
                    if acc.len() == 0 {
                        assert(join_labels(acc2) == lab);
                        assert(out0 + join_labels(Seq::<Seq<u8>>::empty()) =~= out0);
                        assert(outstr@ =~= out0 + join_labels(acc2));
                    } else {
                        assert(acc2.drop_last() =~= acc);
                        assert(join_labels(acc2) == join_labels(acc) + seq![46u8]
                            + acc2.last());
                        assert(outstr@ =~= out0 + join_labels(acc2));
                    }
                    let rem = parse_labels(
                        data,
                        pos + 1 + len_us,
                        (MAX_JUMPS - jumps) as nat,
                    );
                    if rem is Some {
                        assert(acc + (seq![lab] + rem.unwrap()) =~= acc2 + rem.unwrap());
                    }
                    acc = acc2;
                }
                pos = pos + 1 + len_us;
                first = false;
            }
        }
        if !jumped {
            self.seek(pos)?;
        }
        Ok(())
    }

    /// Writes one byte under the cursor and advances it.
    fn write(&mut self, val: u8) -> (r: Result<(), DnsError>)
        requires
            old(self).wf(),
        ensures
            final(self).wf(),
            r is Ok <==> old(self).pos < 512,
            r is Ok ==> final(self).buf@ == old(self).buf@.update(old(self).pos as int, val)
                && final(self).pos == old(self).pos + 1,
            r is Err ==> final(self).buf@ == old(self).buf@ && final(self).pos == old(
                self,
            ).pos && r->Err_0 == DnsError::EndOfBuffer,
    {
        if self.pos >= 512 {
            return Err(DnsError::EndOfBuffer);
        }
        self.buf.set(self.pos, val);
        self.pos = self.pos + 1;
        Ok(())
    }

    /// Appends one byte at the cursor.
    pub fn write_u8(&mut self, val: u8) -> (r: Result<(), DnsError>)
        requires
            old(self).wf(),
        ensures
            final(self).wf(),
            r is Ok <==> old(self).pos < 512,
            r is Ok ==> final(self).buf@ == spliced(
                old(self).buf@,
                old(self).pos as int,
                seq![val],
            ) && final(self).pos == old(self).pos + 1,
            r is Err ==> final(self).buf@ == old(self).buf@ && final(self).pos == old(
                self,
            ).pos && r->Err_0 == DnsError::EndOfBuffer,
    {
        let ghost data = self.buf@;
        let ghost p = self.pos as int;
        let r = self.write(val);
        proof {
            if r is Ok {
                lemma_spliced_one(data, p, val);
            }
        }
        r
    }

    /// Appends one big-endian 16-bit value at the cursor.
    pub fn write_u16(&mut self, val: u16) -> (r: Result<(), DnsError>)
        requires
            old(self).wf(),
        ensures
            final(self).wf(),
            r is Ok <==> old(self).pos + 2 <= 512,
            r is Ok ==> final(self).buf@ == spliced(
                old(self).buf@,
                old(self).pos as int,
                u16_bytes(val),
            ) && final(self).pos == old(self).pos + 2,
            r is Err ==> r->Err_0 == DnsError::EndOfBuffer,
    {
        let ghost data = self.buf@;
        let ghost p = self.pos as int;
        self.write_u8((val / 256) as u8)?;
        self.write_u8((val % 256) as u8)?;
        proof {
            lemma_spliced_concat(data, p, seq![(val / 256) as u8], seq![(val % 256) as u8]);
            assert(seq![(val / 256) as u8] + seq![(val % 256) as u8] =~= u16_bytes(val));
        }
        Ok(())
    }

    /// Appends one big-endian 32-bit value at the cursor.
    pub fn write_u32(&mut self, val: u32) -> (r: Result<(), DnsError>)
        requires
            old(self).wf(),
        ensures
            final(self).wf(),
            r is Ok <==> old(self).pos + 4 <= 512,
            r is Ok ==> final(self).buf@ == spliced(
                old(self).buf@,
                old(self).pos as int,
                u32_bytes(val),
            ) && final(self).pos == old(self).pos + 4,
            r is Err ==> r->Err_0 == DnsError::EndOfBuffer,
    {
        let ghost data = self.buf@;
        let ghost p = self.pos as int;
        let b0 = (val / 0x1000000) as u8;
        let b1 = ((val / 0x10000) % 0x100) as u8;
        let b2 = ((val / 0x100) % 0x100) as u8;
        let b3 = (val % 0x100) as u8;
        self.write_u8(b0)?;
        self.write_u8(b1)?;
        self.write_u8(b2)?;
        self.write_u8(b3)?;
        proof {
            lemma_spliced_concat(data, p, seq![b0], seq![b1]);
            lemma_spliced_concat(data, p, seq![b0] + seq![b1], seq![b2]);
            lemma_spliced_concat(data, p, seq![b0] + seq![b1] + seq![b2], seq![b3]);
            assert(seq![b0] + seq![b1] + seq![b2] + seq![b3] =~= u32_bytes(val));
        }
        Ok(())
    }

    /// Writes the labels of `qname` from byte `start` on, each one
    /// length-prefixed, and the terminating zero-length label.
    fn write_labels(&mut self, qname: &Vec<u8>, start: usize) -> (r: Result<(), DnsError>)
        requires
            old(self).wf(),
            start <= qname@.len(),
        ensures
            final(self).wf(),
            ({
                let s = qname@.subrange(start as int, qname@.len() as int);
                &&& (r is Ok <==> labels_fit(split_dots(s)) && old(self).pos + encode_qname(
                    s,
                ).len() <= 512)
                &&& (r is Ok ==> final(self).buf@ == spliced(
                    old(self).buf@,
                    old(self).pos as int,
                    encode_qname(s),
                ) && final(self).pos == old(self).pos + encode_qname(s).len())
                &&& (r is Err ==> r->Err_0 == DnsError::LabelTooLong || r->Err_0
                    == DnsError::EndOfBuffer)
                &&& (r is Err && r->Err_0 == DnsError::LabelTooLong ==> !labels_fit(
                    split_dots(s),
                ))
                &&& (r is Err && r->Err_0 == DnsError::EndOfBuffer ==> old(self).pos
                    + encode_qname(s).len() > 512)
            }),
        decreases qname@.len() - start,
    {
        let ghost s = qname@.subrange(start as int, qname@.len() as int);
        let ghost data0 = self.buf@;
        let ghost p0 = self.pos as int;
        let n = qname.len();
        let mut j = start;
        while j < n && qname[j] != 46
            invariant
                start <= j <= n,
                n == qname@.len(),
                forall|i: int| start <= i < j ==> qname@[i] != 46,
            decreases n - j,
        {
            j = j + 1;
        }
        let len = j - start;
        proof {
            assert forall|i: int| 0 <= i < len implies s[i] != 46 by {
                assert(s[i] == qname@[start + i]);
            }
            if j < n {
                assert(s[len as int] == qname@[j as int]);
            }
            lemma_split_dots_prefix(s, len as int);
            lemma_encode_qname_step(s, len as int);
        }
        if len > 63 {
            proof {
                assert(split_dots(s)[0].len() > 63);
            }
            return Err(DnsError::LabelTooLong);
        }
        self.write_u8(len as u8)?;
        proof {
            assert(seq![len as u8] + qname@.subrange(start as int, start as int)
                =~= seq![len as u8]);
        }
        let mut k = start;
        while k < j
            invariant
                start <= k <= j,
                j <= n,
                n == qname@.len(),
                len == j - start,
                len <= 63,
                self.wf(),
                p0 == old(self).pos as int,
                data0 == old(self).buf@,
                self.pos == p0 + 1 + (k - start),
                self.pos <= 512,
                self.buf@ == spliced(
                    data0,
                    p0,
                    seq![len as u8] + qname@.subrange(start as int, k as int),
                ),
                data0.len() == 512,
                s == qname@.subrange(start as int, qname@.len() as int),
                encode_qname(s).len() >= 2 + len,
            decreases j - k,
        {
            let ghost patch = seq![len as u8] + qname@.subrange(start as int, k as int);
            self.write_u8(qname[k])?;
            proof {
                lemma_spliced_concat(data0, p0, patch, seq![qname@[k as int]]);
                assert(patch + seq![qname@[k as int]] =~= seq![len as u8] + qname@.subrange(
                    start as int,
                    k + 1,
                ));
            }
            k = k + 1;
        }
        let ghost lab = qname@.subrange(start as int, j as int);
        if j < n {
            let ghost s2 = qname@.subrange(j + 1, qname@.len() as int);
            proof {
                assert(s.subrange(len + 1, s.len() as int) =~= s2);
            }
            let res = self.write_labels(qname, j + 1);
            proof {
                let whole = seq![len as u8] + lab;
                if res is Ok {
                    lemma_spliced_concat(data0, p0, whole, encode_qname(s2));
                    assert(whole + encode_qname(s2) =~= encode_qname(s));
                    assert forall|i: int|
                        0 <= i < split_dots(s).len() implies #[trigger] split_dots(
                        s,
                    )[i].len() <= 63 by {
                        if i == 0 {
                        } else {
                            assert(split_dots(s)[i] == split_dots(s2)[i - 1]);
                        }
                    }
                } else {
                    if !(labels_fit(split_dots(s2))) {
                        let i0 = choose|i0: int|
                            0 <= i0 < split_dots(s2).len() && #[trigger] split_dots(
                                s2,
                            )[i0].len() > 63;
                        assert(split_dots(s)[i0 + 1].len() > 63);
                    }
                }
            }
            res
        } else {
            proof {
                assert(lab =~= s);
            }
            self.write_u8(0)?;
            proof {
                lemma_spliced_concat(data0, p0, seq![len as u8] + lab, seq![0u8]);
                assert((seq![len as u8] + lab) + seq![0u8] =~= encode_qname(s));
                assert(split_dots(s)[0].len() <= 63);
            }
            Ok(())
        }
    }

    /// Writes a dotted domain name at the cursor: each label
    /// length-prefixed, closed by a zero-length label, and never a
    /// compression pointer.  A label of more than 63 bytes is refused —
    /// its length would not fit the one-byte prefix.
    pub fn write_qname(&mut self, qname: &Vec<u8>) -> (r: Result<(), DnsError>)
        requires
            old(self).wf(),
        ensures
            final(self).wf(),
            r is Ok <==> labels_fit(split_dots(qname@)) && old(self).pos + encode_qname(
                qname@,
            ).len() <= 512,
            r is Ok ==> final(self).buf@ == spliced(
                old(self).buf@,
                old(self).pos as int,
                encode_qname(qname@),
            ) && final(self).pos == old(self).pos + encode_qname(qname@).len(),
            r is Err ==> r->Err_0 == DnsError::LabelTooLong || r->Err_0
                == DnsError::EndOfBuffer,
            r is Err && r->Err_0 == DnsError::LabelTooLong ==> !labels_fit(
                split_dots(qname@),
            ),
            r is Err && r->Err_0 == DnsError::EndOfBuffer ==> old(self).pos + encode_qname(
                qname@,
            ).len() > 512,
    {
        proof {
            assert(qname@.subrange(0, qname@.len() as int) =~= qname@);
        }
        self.write_labels(qname, 0)
    }

    /// Overwrites one byte at an absolute position, without moving the
    /// cursor.
    fn set(&mut self, pos: usize, val: u8) -> (r: Result<(), DnsError>)
        requires
            old(self).wf(),
        ensures
            final(self).wf(),
            final(self).pos == old(self).pos,
            r is Ok <==> pos < 512,
            r is Ok ==> final(self).buf@ == old(self).buf@.update(pos as int, val),
            r is Err ==> final(self).buf@ == old(self).buf@ && r->Err_0
                == DnsError::EndOfBuffer,
    {
        if pos >= 512 {
            return Err(DnsError::EndOfBuffer);
        }
        self.buf.set(pos, val);
        Ok(())
    }

    /// Overwrites two bytes at an absolute position with a big-endian
    /// 16-bit value, without moving the cursor — the patch that backfills
    /// a count or a length after the fact.
    pub fn set_u16(&mut self, pos: usize, val: u16) -> (r: Result<(), DnsError>)
        requires
            old(self).wf(),
        ensures
            final(self).wf(),
            final(self).pos == old(self).pos,
            r is Ok <==> pos + 2 <= 512,
            r is Ok ==> final(self).buf@ == spliced(old(self).buf@, pos as int, u16_bytes(val)),
            r is Err ==> r->Err_0 == DnsError::EndOfBuffer,
    {
        let ghost data = self.buf@;
        if pos >= 511 {
            return Err(DnsError::EndOfBuffer);
        }
        self.set(pos, (val / 256) as u8)?;
        self.set(pos + 1, (val % 256) as u8)?;
        proof {
            lemma_spliced_one(data, pos as int, (val / 256) as u8);
            lemma_spliced_one(data.update(pos as int, (val / 256) as u8), pos + 1, (val
                % 256) as u8);
            lemma_spliced_concat(data, pos as int, seq![(val / 256) as u8], seq![(val
                % 256) as u8]);
            assert(seq![(val / 256) as u8] + seq![(val % 256) as u8] =~= u16_bytes(val));
        }
        Ok(())
    }
}

} // verus!
