//! Decoder for the DICOM RLE Lossless pixel-data encoding.
//!
//! Each pixel-data fragment holds one frame: a 64-byte header of
//! little-endian segment offsets, then one PackBits-style run-length
//! stream per byte plane of each sample. The decoder expands every
//! segment to exactly rows x columns bytes and interleaves the planes
//! pixel by pixel, little-endian within a sample, whatever the source's
//! planar configuration was.

use vstd::prelude::*;

verus! {

/// Failure inside one RLE segment.
#[derive(Debug, Clone, Copy, PartialEq, Eq, Structural)]
pub enum SegmentError {
    /// The stream ends in the middle of a run.
    UnexpectedEndOfInput,
    /// A run would write past the end of the plane.
    SegmentOverflow,
    /// The stream ends before the plane is full.
    SegmentUnderflow,
}

/// What decoding a segment yields when `need` output bytes are wanted:
/// the control byte 128 is a no-op; a control byte below 128 copies that
/// many literal bytes plus one; a control byte above 128 repeats the next
/// byte 257 minus its value times. Decoding stops once `need` bytes are
/// out; a run past `need` overflows, a truncated run ends the input
/// early, and an empty stream before `need` bytes underflows.
pub open spec fn rle_decode_spec(src: Seq<u8>, need: nat) -> Result<Seq<u8>, SegmentError>
    decreases src.len(),
{
    if need == 0 {
        Ok(Seq::empty())
    } else if src.len() == 0 {
        Err(SegmentError::SegmentUnderflow)
    } else {
        let h = src[0];
        if h == 128 {
            rle_decode_spec(src.skip(1), need)
        } else if h <= 127 {
            let cnt = h + 1;
            if src.len() < 1 + cnt {
                Err(SegmentError::UnexpectedEndOfInput)
            } else if cnt > need {
                Err(SegmentError::SegmentOverflow)
            } else {
                match rle_decode_spec(src.skip(1 + cnt), (need - cnt) as nat) {
                    Err(e) => Err(e),
                    Ok(rest) => Ok(src.subrange(1, 1 + cnt) + rest),
                }
            }
        } else {
            let cnt = 257 - h;
            if src.len() < 2 {
                Err(SegmentError::UnexpectedEndOfInput)
            } else if cnt > need {
                Err(SegmentError::SegmentOverflow)
            } else {
                match rle_decode_spec(src.skip(2), (need - cnt) as nat) {
                    Err(e) => Err(e),
                    Ok(rest) => Ok(Seq::new(cnt as nat, |q: int| src[1]) + rest),
                }
            }
        }
    }
}

/// Decoding yields exactly the wanted number of bytes.
pub proof fn lemma_rle_decode_len(src: Seq<u8>, need: nat)
    requires
        rle_decode_spec(src, need) matches Ok(_),
    ensures
        rle_decode_spec(src, need) matches Ok(out) && out.len() == need,
    decreases src.len(),
{
    if need == 0 {
    } else {
        let h = src[0];
        if h == 128 {
            lemma_rle_decode_len(src.skip(1), need);
        } else if h <= 127 {
            lemma_rle_decode_len(src.skip(1 + h + 1), (need - (h + 1)) as nat);
        } else {
            lemma_rle_decode_len(src.skip(2), (need - (257 - h)) as nat);
        }
    }
}

/// Loop relation of `decode_rle_segment`: what remains to decode from
/// position `ci` of the stream, prefixed by the `pos` bytes already
/// written, accounts for the whole decode.
spec fn seg_loop_inv(segment: Seq<u8>, need: nat, pos: int, ci: int, tgt: Seq<u8>) -> bool {
    match rle_decode_spec(segment.skip(ci), (need - pos) as nat) {
        Ok(rest) => rle_decode_spec(segment, need) == Ok::<Seq<u8>, SegmentError>(
            tgt.subrange(0, pos) + rest,
        ),
        Err(e) => rle_decode_spec(segment, need) == Err::<Seq<u8>, SegmentError>(e),
    }
}

/// Decode one RLE segment into `target`, which arrives sized to the
/// plane: exactly `target.len()` bytes are produced.
///
/// On success the decoded byte count (the plane size) is returned; on
/// failure the target keeps its length with unspecified contents.
pub fn decode_rle_segment(segment: &[u8], target: &mut Vec<u8>) -> (r: Result<usize, SegmentError>)
    ensures
        final(target)@.len() == old(target)@.len(),
        match r {
            Ok(n) => n == old(target)@.len() && rle_decode_spec(segment@, old(target)@.len() as nat)
                == Ok::<Seq<u8>, SegmentError>(final(target)@),
            Err(e) => rle_decode_spec(segment@, old(target)@.len() as nat) == Err::<
                Seq<u8>,
                SegmentError,
            >(e),
        },
{
    let need = target.len();
    let mut pos: usize = 0;
    let mut ci: usize = 0;
    proof {
        assert(segment@.skip(0) =~= segment@);
        match rle_decode_spec(segment@, need as nat) {
            Ok(rest) => {
                assert(target@.subrange(0, 0) + rest =~= rest);
            },
            Err(e) => {},
        }
        assert(seg_loop_inv(segment@, need as nat, 0, 0, target@));
    }
    while pos < need
        invariant
            0 <= pos <= need,
            ci <= segment@.len(),
            need == old(target)@.len(),
            target@.len() == need,
            seg_loop_inv(segment@, need as nat, pos as int, ci as int, target@),
        decreases need - pos, segment@.len() - ci,
    {
        let ghost srem = segment@.skip(ci as int);
        let ghost np = (need - pos) as nat;
        if ci >= segment.len() {
            assert(srem.len() == 0);
            return Err(SegmentError::SegmentUnderflow);
        }
        let h = segment[ci];
        assert(srem[0] == segment@[ci as int]);
        if h == 128 {
            ci = ci + 1;
            proof {
                assert(segment@.skip(ci as int) =~= srem.skip(1));
                assert(rle_decode_spec(srem, np) == rle_decode_spec(srem.skip(1), np));
                assert(seg_loop_inv(segment@, need as nat, pos as int, ci as int, target@));
            }
        } else if h <= 127 {
            let cnt = h as usize + 1;
            if segment.len() - ci < 1 + cnt {
                assert(srem.len() < 1 + cnt);
                return Err(SegmentError::UnexpectedEndOfInput);
            }
            if cnt > need - pos {
                return Err(SegmentError::SegmentOverflow);
            }
            let ghost t0 = target@;
            let mut q: usize = 0;
            while q < cnt
                invariant
                    0 <= q <= cnt,
                    pos + cnt <= need,
                    ci + 1 + cnt <= segment@.len() <= usize::MAX,
                    target@.len() == t0.len() == need,
                    forall|k: int| 0 <= k < q ==> #[trigger] target@[pos + k] == segment@[ci + 1 + k],
                    forall|p: int|
                        0 <= p < need && !(pos <= p < pos + q) ==> #[trigger] target@[p] == t0[p],
                decreases cnt - q,
            {
                let b = segment[ci + 1 + q];
                target[pos + q] = b;
                q = q + 1;
            }
            proof {
                assert(target@.subrange(0, (pos + cnt) as int) =~= t0.subrange(0, pos as int)
                    + srem.subrange(1, 1 + cnt as int)) by {
                    assert forall|p: int| 0 <= p < pos + cnt implies target@[p] == (t0.subrange(
                        0,
                        pos as int,
                    ) + srem.subrange(1, 1 + cnt as int))[p] by {
                        if p < pos {
                            assert(target@[p] == t0[p]);
                        } else {
                            assert(target@[pos + (p - pos)] == segment@[ci + 1 + (p - pos)]);
                            assert(target@[p] == segment@[ci + 1 + (p - pos)]);
                            assert(srem.subrange(1, 1 + cnt as int)[p - pos] == srem[1 + (p
                                - pos)]);
                            assert(srem[1 + (p - pos)] == segment@[ci + 1 + (p - pos)]);
                        }
                    }
                }
                assert(segment@.skip((ci + 1 + cnt) as int) =~= srem.skip(1 + cnt as int));
            }
            pos = pos + cnt;
            ci = ci + 1 + cnt;
            proof {
                let full = rle_decode_spec(segment@, need as nat);
                match rle_decode_spec(segment@.skip(ci as int), (need - pos) as nat) {
                    Ok(rest) => {
                        assert(rle_decode_spec(srem, np) == Ok::<Seq<u8>, SegmentError>(
                            srem.subrange(1, 1 + cnt as int) + rest,
                        ));
                        assert(t0.subrange(0, (pos - cnt) as int) + (srem.subrange(
                            1,
                            1 + cnt as int,
                        ) + rest) =~= (t0.subrange(0, (pos - cnt) as int) + srem.subrange(
                            1,
                            1 + cnt as int,
                        )) + rest);
                        assert((t0.subrange(0, (pos - cnt) as int) + srem.subrange(
                            1,
                            1 + cnt as int,
                        )) + rest =~= target@.subrange(0, pos as int) + rest);
                    },
                    Err(e) => {
                        assert(rle_decode_spec(srem, np) == Err::<Seq<u8>, SegmentError>(e));
                    },
                }
                assert(seg_loop_inv(segment@, need as nat, pos as int, ci as int, target@));
            }
        } else {
            let cnt = 257 - h as usize;
            if segment.len() - ci < 2 {
                assert(srem.len() < 2);
                return Err(SegmentError::UnexpectedEndOfInput);
            }
            if cnt > need - pos {
                return Err(SegmentError::SegmentOverflow);
            }
            let d = segment[ci + 1];
            assert(srem[1] == segment@[ci + 1]);
            let ghost t0 = target@;
            let mut q: usize = 0;
            while q < cnt
                invariant
                    0 <= q <= cnt,
                    pos + cnt <= need,
                    target@.len() == t0.len() == need,
                    forall|k: int| 0 <= k < q ==> #[trigger] target@[pos + k] == d,
                    forall|p: int|
                        0 <= p < need && !(pos <= p < pos + q) ==> #[trigger] target@[p] == t0[p],
                decreases cnt - q,
            {
                target[pos + q] = d;
                q = q + 1;
            }
            proof {
                assert(target@.subrange(0, (pos + cnt) as int) =~= t0.subrange(0, pos as int)
                    + Seq::new(cnt as nat, |k: int| srem[1])) by {
                    assert forall|p: int| 0 <= p < pos + cnt implies target@[p] == (t0.subrange(
                        0,
                        pos as int,
                    ) + Seq::new(cnt as nat, |k: int| srem[1]))[p] by {
                        if p < pos {
                            assert(target@[p] == t0[p]);
                        } else {
                            assert(target@[pos + (p - pos)] == d);
                            assert(target@[p] == d);
                        }
                    }
                }
                assert(segment@.skip((ci + 2) as int) =~= srem.skip(2));
            }
            pos = pos + cnt;
            ci = ci + 2;
            proof {
                let full = rle_decode_spec(segment@, need as nat);
                match rle_decode_spec(segment@.skip(ci as int), (need - pos) as nat) {
                    Ok(rest) => {
                        assert(rle_decode_spec(srem, np) == Ok::<Seq<u8>, SegmentError>(
                            Seq::new(cnt as nat, |k: int| srem[1]) + rest,
                        ));
                        assert(t0.subrange(0, (pos - cnt) as int) + (Seq::new(
                            cnt as nat,
                            |k: int| srem[1],
                        ) + rest) =~= (t0.subrange(0, (pos - cnt) as int) + Seq::new(
                            cnt as nat,
                            |k: int| srem[1],
                        )) + rest);
                        assert((t0.subrange(0, (pos - cnt) as int) + Seq::new(
                            cnt as nat,
                            |k: int| srem[1],
                        )) + rest =~= target@.subrange(0, pos as int) + rest);
                    },
                    Err(e) => {
                        assert(rle_decode_spec(srem, np) == Err::<Seq<u8>, SegmentError>(e));
                    },
                }
                assert(seg_loop_inv(segment@, need as nat, pos as int, ci as int, target@));
            }
        }
    }
    proof {
        assert(target@.subrange(0, need as int) + Seq::<u8>::empty() =~= target@);
    }
    Ok(pos)
}

/// What expanding a PackBits stream of `len` input bytes yields: runs are
/// interpreted as in `rle_decode_spec`, but decoding stops once `len`
/// bytes of input are consumed (a literal run may overshoot), and only a
/// truncated run is an error.
pub open spec fn packbits_expand(src: Seq<u8>, len: int) -> Result<Seq<u8>, SegmentError>
    decreases src.len(),
{
    if len <= 0 {
        Ok(Seq::empty())
    } else if src.len() == 0 {
        Err(SegmentError::UnexpectedEndOfInput)
    } else {
        let h = src[0];
        if h == 128 {
            packbits_expand(src.skip(1), len - 1)
        } else if h <= 127 {
            let cnt = h + 1;
            if src.len() < 1 + cnt {
                Err(SegmentError::UnexpectedEndOfInput)
            } else {
                match packbits_expand(src.skip(1 + cnt), len - 1 - cnt) {
                    Err(e) => Err(e),
                    Ok(rest) => Ok(src.subrange(1, 1 + cnt) + rest),
                }
            }
        } else {
            let cnt = 257 - h;
            if src.len() < 2 {
                Err(SegmentError::UnexpectedEndOfInput)
            } else {
                match packbits_expand(src.skip(2), len - 2) {
                    Err(e) => Err(e),
                    Ok(rest) => Ok(Seq::new(cnt as nat, |q: int| src[1]) + rest),
                }
            }
        }
    }
}

/// Loop relation of `PackBitsReader::new`: what remains to expand from
/// position `ci`, appended to the bytes already expanded, accounts for
/// the whole expansion.
spec fn packbits_loop_inv(data: Seq<u8>, length: int, ci: int, buf: Seq<u8>) -> bool {
    match packbits_expand(data.skip(ci), length - ci) {
        Ok(rest) => packbits_expand(data, length) == Ok::<Seq<u8>, SegmentError>(buf + rest),
        Err(e) => packbits_expand(data, length) == Err::<Seq<u8>, SegmentError>(e),
    }
}

/// A PackBits stream expanded up front, handed out as a byte cursor.
#[derive(Debug)]
pub struct PackBitsReader {
    buffer: Vec<u8>,
    pos: usize,
}

impl View for PackBitsReader {
    type V = Seq<u8>;

    /// The bytes not yet read out.
    closed spec fn view(&self) -> Seq<u8> {
        self.buffer@.skip(self.pos as int)
    }
}

impl PackBitsReader {
    /// The cursor lies within the buffer.
    pub closed spec fn wf(&self) -> bool {
        self.pos <= self.buffer@.len()
    }

    /// Expand the PackBits stream in the first `length` bytes of `data`.
    ///
    /// Returns the expanded byte count and a reader over the expansion.
    /// A literal run beginning before the length boundary may consume
    /// bytes beyond it, as the stream dictates.
    pub fn new(data: &[u8], length: usize) -> (r: Result<(usize, PackBitsReader), SegmentError>)
        ensures
            match r {
                Ok((n, reader)) => reader.wf() && packbits_expand(data@, length as int) == Ok::<
                    Seq<u8>,
                    SegmentError,
                >(reader@) && n == reader@.len(),
                Err(e) => packbits_expand(data@, length as int) == Err::<Seq<u8>, SegmentError>(e),
            },
    {
        let mut buffer: Vec<u8> = Vec::new();
        let mut ci: usize = 0;
        proof {
            assert(data@.skip(0) =~= data@);
            match packbits_expand(data@, length as int) {
                Ok(rest) => {
                    assert(Seq::<u8>::empty() + rest =~= rest);
                },
                Err(e) => {},
            }
            assert(packbits_loop_inv(data@, length as int, 0, buffer@));
        }
        while ci < length
            invariant
                ci <= data@.len() || ci >= length,
                ci <= data@.len(),
                packbits_loop_inv(data@, length as int, ci as int, buffer@),
            decreases data@.len() - ci,
        {
            let ghost srem = data@.skip(ci as int);
            let ghost b0 = buffer@;
            if ci >= data.len() {
                assert(srem.len() == 0);
                return Err(SegmentError::UnexpectedEndOfInput);
            }
            let h = data[ci];
            assert(srem[0] == data@[ci as int]);
            if h == 128 {
                ci = ci + 1;
                proof {
                    assert(data@.skip(ci as int) =~= srem.skip(1));
                    assert(packbits_loop_inv(data@, length as int, ci as int, buffer@));
                }
            } else if h <= 127 {
                let cnt = h as usize + 1;
                if data.len() - ci < 1 + cnt {
                    assert(srem.len() < 1 + cnt);
                    return Err(SegmentError::UnexpectedEndOfInput);
                }
                let mut q: usize = 0;
                while q < cnt
                    invariant
                        0 <= q <= cnt,
                        ci + 1 + cnt <= data@.len() <= usize::MAX,
                        buffer@ == b0 + data@.subrange((ci + 1) as int, ci + 1 + q),
                    decreases cnt - q,
                {
                    proof {
                        assert(b0 + data@.subrange((ci + 1) as int, ci + 1 + q + 1) =~= (b0
                            + data@.subrange((ci + 1) as int, ci + 1 + q)).push(
                            data@[ci + 1 + q],
                        ));
                    }
                    let b = data[ci + 1 + q];
                    buffer.push(b);
                    q = q + 1;
                }
                ci = ci + 1 + cnt;
                proof {
                    assert(data@.skip(ci as int) =~= srem.skip(1 + cnt as int));
                    assert(data@.subrange((ci - cnt) as int, ci as int) =~= srem.subrange(
                        1,
                        1 + cnt as int,
                    ));
                    match packbits_expand(data@.skip(ci as int), length - ci) {
                        Ok(rest) => {
                            assert(packbits_expand(srem, length - (ci - 1 - cnt)) == Ok::<
                                Seq<u8>,
                                SegmentError,
                            >(srem.subrange(1, 1 + cnt as int) + rest));
                            assert(b0 + (srem.subrange(1, 1 + cnt as int) + rest) =~= (b0
                                + srem.subrange(1, 1 + cnt as int)) + rest);
                            assert((b0 + srem.subrange(1, 1 + cnt as int)) + rest =~= buffer@
                                + rest);
                        },
                        Err(e) => {
                            assert(packbits_expand(srem, length - (ci - 1 - cnt)) == Err::<
                                Seq<u8>,
                                SegmentError,
                            >(e));
                        },
                    }
                    assert(packbits_loop_inv(data@, length as int, ci as int, buffer@));
                }
            } else {
                let cnt = 257 - h as usize;
                if data.len() - ci < 2 {
                    assert(srem.len() < 2);
                    return Err(SegmentError::UnexpectedEndOfInput);
                }
                let d = data[ci + 1];
                assert(srem[1] == data@[ci + 1]);
                let mut q: usize = 0;
                while q < cnt
                    invariant
                        0 <= q <= cnt,
                        buffer@ == b0 + Seq::new(q as nat, |k: int| d),
                    decreases cnt - q,
                {
                    proof {
                        assert(b0 + Seq::new((q + 1) as nat, |k: int| d) =~= (b0 + Seq::new(
                            q as nat,
                            |k: int| d,
                        )).push(d));
                    }
                    buffer.push(d);
                    q = q + 1;
                }
                ci = ci + 2;
                proof {
                    assert(data@.skip(ci as int) =~= srem.skip(2));
                    assert(Seq::new(cnt as nat, |k: int| srem[1]) =~= Seq::new(
                        cnt as nat,
                        |k: int| d,
                    ));
                    match packbits_expand(data@.skip(ci as int), length - ci) {
                        Ok(rest) => {
                            assert(packbits_expand(srem, length - (ci - 2)) == Ok::<
                                Seq<u8>,
                                SegmentError,
                            >(Seq::new(cnt as nat, |k: int| srem[1]) + rest));
                            assert(b0 + (Seq::new(cnt as nat, |k: int| d) + rest) =~= (b0
                                + Seq::new(cnt as nat, |k: int| d)) + rest);
                            assert((b0 + Seq::new(cnt as nat, |k: int| d)) + rest =~= buffer@
                                + rest);
                        },
                        Err(e) => {
                            assert(packbits_expand(srem, length - (ci - 2)) == Err::<
                                Seq<u8>,
                                SegmentError,
                            >(e));
                        },
                    }
                    assert(packbits_loop_inv(data@, length as int, ci as int, buffer@));
                }
            }
        }
        proof {
            match packbits_expand(data@, length as int) {
                Ok(rest) => {
                    assert(buffer@ + Seq::<u8>::empty() =~= buffer@);
                },
                Err(e) => {},
            }
        }
        let n = buffer.len();
        let reader = PackBitsReader { buffer, pos: 0 };
        proof {
            assert(reader@ =~= reader.buffer@);
        }
        Ok((n, reader))
    }

    /// Move every remaining expanded byte into `out`, emptying the reader.
    /// Returns how many bytes were moved.
    pub fn read_to_end(&mut self, out: &mut Vec<u8>) -> (n: usize)
        requires
            old(self).wf(),
        ensures
            final(self).wf(),
            final(self)@.len() == 0,
            final(out)@ == old(out)@ + old(self)@,
            n == old(self)@.len(),
    {
        let mut n: usize = 0;
        proof {
            assert(old(self).buffer@.subrange(old(self).pos as int, old(self).pos as int)
                =~= Seq::<u8>::empty());
            assert(out@ + old(self).buffer@.subrange(old(self).pos as int, old(self).pos as int)
                =~= out@);
        }
        while self.pos < self.buffer.len()
            invariant
                old(self).pos <= self.pos <= self.buffer@.len(),
                self.buffer == old(self).buffer,
                n == self.pos - old(self).pos,
                out@ == old(out)@ + old(self).buffer@.subrange(
                    old(self).pos as int,
                    self.pos as int,
                ),
            decreases self.buffer@.len() - self.pos,
        {
            proof {
                assert(old(out)@ + self.buffer@.subrange(
                    old(self).pos as int,
                    self.pos + 1,
                ) =~= (old(out)@ + self.buffer@.subrange(old(self).pos as int, self.pos as int)).push(
                    self.buffer@[self.pos as int],
                ));
            }
            let b = self.buffer[self.pos];
            out.push(b);
            self.pos = self.pos + 1;
            n = n + 1;
        }
        proof {
            assert(old(self).buffer@.subrange(old(self).pos as int, self.pos as int)
                =~= old(self)@);
            assert(self@.len() == 0);
        }
        n
    }
}

/// A required pixel-data attribute, named in errors.
#[derive(Debug, Clone, Copy, PartialEq, Eq, Structural)]
pub enum AttributeName {
    Columns,
    Rows,
    SamplesPerPixel,
    BitsAllocated,
}

/// Failure to decode RLE Lossless pixel data.
#[derive(Debug, Clone, Copy, PartialEq, Eq, Structural)]
pub enum RleError {
    /// The pixel data object lacks the named attribute.
    MissingAttribute { name: AttributeName },
    /// Only 8 and 16 bits per sample are supported.
    UnsupportedBitDepth { bits_allocated: u16 },
    /// The fragment count is absent, or a fragment is.
    MissingPixelData,
    /// A fragment is too short for its header, its segment count is
    /// outside 1..=15 or below the needed plane count, or its offsets
    /// do not lie increasing within the fragment.
    InvalidFragmentHeader,
    /// The decoded pixel data would not fit in memory.
    OutputTooLarge,
    /// One segment failed to decode to a full plane.
    SegmentDecodeFailure { kind: SegmentError },
}

/// The number of segments a fragment declares: the first little-endian
/// word of its header.
pub open spec fn seg_count(f: Seq<u8>) -> int {
    crate::basic::le_u32(f.subrange(0, 4))
}

/// The start of segment `j` within fragment `f`, from the header; one
/// past the declared segments, the fragment length closes the last one.
pub open spec fn seg_offset(f: Seq<u8>, j: int) -> int {
    if j == seg_count(f) {
        f.len() as int
    } else {
        crate::basic::le_u32(f.subrange(4 * (j + 1), 4 * (j + 1) + 4))
    }
}

/// Whether fragment `f` carries a usable header for `nsegs` planes:
/// the 64-byte header is present, the declared count lies in 1..=15 and
/// covers the planes, and each needed segment lies within the fragment.
pub open spec fn frame_header_ok(f: Seq<u8>, nsegs: int) -> bool {
    &&& f.len() >= 64
    &&& 1 <= seg_count(f) <= 15
    &&& nsegs <= seg_count(f)
    &&& forall|j: int|
        0 <= j < nsegs ==> #[trigger] seg_offset(f, j) <= seg_offset(f, j + 1) <= f.len()
}

/// `dst` with `scratch` scattered over it: byte `k` of `scratch` lands
/// at `start + k * stride`; all other positions keep their value.
pub open spec fn write_strided(dst: Seq<u8>, scratch: Seq<u8>, start: int, stride: int) -> Seq<
    u8,
> {
    Seq::new(
        dst.len(),
        |p: int|
            if start <= p && (p - start) % stride == 0 && (p - start) / stride < scratch.len() {
                scratch[(p - start) / stride]
            } else {
                dst[p]
            },
    )
}

/// The frame byte sequence after the planes from `t` onward of fragment
/// `f` are decoded and scattered into `acc`. Planes are visited sample
/// by sample, most significant byte first; plane `t` reads the segment
/// its header slot names and scatters it at the little-endian byte
/// position of its sample.
pub open spec fn spec_frame_segs(
    f: Seq<u8>,
    spp: int,
    bps: int,
    npix: nat,
    t: int,
    base: int,
    acc: Seq<u8>,
) -> Result<Seq<u8>, RleError>
    decreases spp * bps - t,
{
    if t >= spp * bps || bps <= 0 {
        Ok(acc)
    } else {
        let s = t / bps;
        let j = t % bps;
        let ii = s * bps + (bps - 1 - j);
        match rle_decode_spec(f.subrange(seg_offset(f, ii), seg_offset(f, ii + 1)), npix) {
            Err(k) => Err(RleError::SegmentDecodeFailure { kind: k }),
            Ok(seg) => spec_frame_segs(
                f,
                spp,
                bps,
                npix,
                t + 1,
                base,
                write_strided(acc, seg, base + s * bps + j, spp * bps),
            ),
        }
    }
}

/// The output after the frames from `i` onward are decoded into `acc`,
/// one fragment per frame, each checked against its header first.
pub open spec fn spec_frames_loop(
    frags: Seq<Seq<u8>>,
    i: int,
    spp: int,
    bps: int,
    npix: nat,
    acc: Seq<u8>,
) -> Result<Seq<u8>, RleError>
    decreases frags.len() - i,
{
    if i >= frags.len() {
        Ok(acc)
    } else if !frame_header_ok(frags[i], spp * bps) {
        Err(RleError::InvalidFragmentHeader)
    } else {
        match spec_frame_segs(frags[i], spp, bps, npix, 0, i * (spp * bps * npix as int), acc) {
            Err(e) => Err(e),
            Ok(acc2) => spec_frames_loop(frags, i + 1, spp, bps, npix, acc2),
        }
    }
}

/// A sequence of `n` zero bytes.
pub open spec fn zero_seq(n: nat) -> Seq<u8> {
    Seq::new(n, |i: int| 0u8)
}

/// What `decode_frames` produces from the image attributes and the
/// pixel-data fragments: with a supported bit depth and an output that
/// fits in memory, every fragment decoded into a zero-initialized
/// buffer of one frame size per fragment.
pub open spec fn spec_decode_frames(
    cols: u16,
    rows: u16,
    samples_per_pixel: u16,
    bits_allocated: u16,
    frags: Seq<Seq<u8>>,
) -> Result<Seq<u8>, RleError> {
    if !(bits_allocated == 8 || bits_allocated == 16) {
        Err(RleError::UnsupportedBitDepth { bits_allocated })
    } else {
        let bps = bits_allocated as int / 8;
        let npix = rows as int * cols as int;
        let frame_size = samples_per_pixel as int * bps * npix;
        if frame_size * frags.len() > usize::MAX as int {
            Err(RleError::OutputTooLarge)
        } else {
            spec_frames_loop(
                frags,
                0,
                samples_per_pixel as int,
                bps,
                (rows as int * cols as int) as nat,
                zero_seq((frame_size * frags.len()) as nat),
            )
        }
    }
}

/// A vector of `n` zero bytes.
fn zero_vec(n: usize) -> (v: Vec<u8>)
    ensures
        v@ == zero_seq(n as nat),
{
    let mut v: Vec<u8> = Vec::new();
    let mut p: usize = 0;
    while p < n
        invariant
            0 <= p <= n,
            v@ == zero_seq(p as nat),
        decreases n - p,
    {
        proof {
            assert(zero_seq((p + 1) as nat) =~= zero_seq(p as nat).push(0u8));
        }
        v.push(0u8);
        p = p + 1;
    }
    v
}

/// Read the little-endian word at byte offset `at` of `v`.
fn read_u32_le_at(v: &Vec<u8>, at: usize) -> (r: u32)
    requires
        at + 4 <= v@.len(),
    ensures
        r == crate::basic::le_u32(v@.subrange(at as int, at + 4)),
{
    let len = v.len();
    assert(at + 4 <= len);
    let ghost w = v@.subrange(at as int, at + 4);
    assert(w[0] == v@[at as int] && w[1] == v@[at + 1] && w[2] == v@[at + 2] && w[3] == v@[at
        + 3]);
    v[at] as u32 + v[at + 1] as u32 * 0x100 + v[at + 2] as u32 * 0x10000 + v[at + 3] as u32
        * 0x1000000
}

/// Read the segment offsets of a fragment header and close them with
/// the fragment length, checking the header fits `nsegs` planes.
fn read_rle_header(fragment: &Vec<u8>, nsegs: usize) -> (r: Result<Vec<usize>, RleError>)
    ensures
        match r {
            Ok(offs) => frame_header_ok(fragment@, nsegs as int) && offs@.len() == seg_count(
                fragment@,
            ) + 1 && forall|j: int|
                0 <= j <= seg_count(fragment@) ==> #[trigger] offs@[j] == seg_offset(
                    fragment@,
                    j,
                ),
            Err(e) => !frame_header_ok(fragment@, nsegs as int) && e
                == RleError::InvalidFragmentHeader,
        },
{
    if fragment.len() < 64 {
        return Err(RleError::InvalidFragmentHeader);
    }
    let n = read_u32_le_at(fragment, 0);
    assert(n == seg_count(fragment@));
    if n < 1 || n > 15 {
        return Err(RleError::InvalidFragmentHeader);
    }
    if nsegs > n as usize {
        return Err(RleError::InvalidFragmentHeader);
    }
    let mut offs: Vec<usize> = Vec::new();
    let mut k: usize = 0;
    while k < n as usize
        invariant
            0 <= k <= n <= 15,
            n == seg_count(fragment@),
            fragment@.len() >= 64,
            offs@.len() == k,
            forall|j: int| 0 <= j < k ==> #[trigger] offs@[j] == seg_offset(fragment@, j),
        decreases n - k,
    {
        let o = read_u32_le_at(fragment, 4 * (k + 1));
        offs.push(o as usize);
        k = k + 1;
    }
    offs.push(fragment.len());
    assert(offs@[n as int] == seg_offset(fragment@, n as int));
    let mut j: usize = 0;
    while j < nsegs
        invariant
            0 <= j <= nsegs,
            nsegs <= n == seg_count(fragment@) <= 15,
            fragment@.len() >= 64,
            offs@.len() == n + 1,
            forall|i: int| 0 <= i <= n ==> #[trigger] offs@[i] == seg_offset(fragment@, i),
            forall|i: int|
                0 <= i < j ==> #[trigger] seg_offset(fragment@, i) <= seg_offset(fragment@, i + 1)
                    <= fragment@.len(),
        decreases nsegs - j,
    {
        let o1 = offs[j];
        let o2 = offs[j + 1];
        if !(o1 <= o2 && o2 <= fragment.len()) {
            return Err(RleError::InvalidFragmentHeader);
        }
        j = j + 1;
    }
    Ok(offs)
}

/// Whether `cur` is `d0` with the first `k` bytes of `scratch`
/// scattered in at stride `stride` from `start`.
spec fn strided_upto(
    d0: Seq<u8>,
    scratch: Seq<u8>,
    start: int,
    stride: int,
    k: int,
    cur: Seq<u8>,
) -> bool {
    &&& cur.len() == d0.len()
    &&& forall|p: int|
        0 <= p < cur.len() ==> #[trigger] cur[p] == (if (start <= p && (p - start) % stride == 0
            && (p - start) / stride < k) {
            scratch[(p - start) / stride]
        } else {
            d0[p]
        })
}

/// Scatter `scratch` over `dst` with the given stride: byte `k` of
/// `scratch` is written to `start + k * stride`.
fn interleave_segment(dst: &mut Vec<u8>, scratch: &Vec<u8>, start: usize, stride: usize)
    requires
        stride >= 1,
        scratch@.len() >= 1 ==> start + (scratch@.len() - 1) * stride < old(dst)@.len(),
    ensures
        final(dst)@ == write_strided(old(dst)@, scratch@, start as int, stride as int),
{
    let ghost d0 = dst@;
    let dlen = dst.len();
    assert(d0.len() == dlen);
    let count = scratch.len();
    let mut k: usize = 0;
    while k < count
        invariant
            0 <= k <= count == scratch@.len(),
            stride >= 1,
            count >= 1 ==> start + (count - 1) * stride < d0.len(),
            dst@.len() == d0.len() <= usize::MAX,
            strided_upto(d0, scratch@, start as int, stride as int, k as int, dst@),
        decreases count - k,
    {
        proof {
            vstd::arithmetic::mul::lemma_mul_inequality(k as int, count - 1, stride as int);
        }
        let idx = start + k * stride;
        let ghost dpre = dst@;
        let b = scratch[k];
        dst[idx] = b;
        proof {
            let st = stride as int;
            let lo = start as int;
            vstd::arithmetic::div_mod::lemma_fundamental_div_mod_converse(
                idx - lo,
                st,
                k as int,
                0,
            );
            assert((idx - lo) % st == 0 && (idx - lo) / st == k as int);
            assert(dst@ == dpre.update(idx as int, b));
            assert forall|p: int| 0 <= p < dst@.len() implies #[trigger] dst@[p] == (if (lo <= p
                && (p - lo) % st == 0 && (p - lo) / st < k + 1) {
                scratch@[(p - lo) / st]
            } else {
                d0[p]
            }) by {
                if p == idx {
                    assert(dst@[p] == b);
                } else {
                    assert(dst@[p] == dpre[p]);
                    if lo <= p && (p - lo) % st == 0 && (p - lo) / st < k + 1 {
                        vstd::arithmetic::div_mod::lemma_fundamental_div_mod(p - lo, st);
                        assert(p == st * ((p - lo) / st) + lo);
                        let q = (p - lo) / st;
                        if q == k as int {
                            assert(st * q == q * st) by (nonlinear_arith);
                            assert(p == idx);
                            assert(false);
                        }
                        assert((p - lo) / st < k as int);
                        assert(dpre[p] == scratch@[(p - lo) / st]);
                    } else {
                        assert(dpre[p] == d0[p]);
                    }
                }
            }
            assert(strided_upto(d0, scratch@, start as int, stride as int, k + 1, dst@));
        }
        k = k + 1;
    }
    proof {
        assert(dst@ =~= write_strided(d0, scratch@, start as int, stride as int));
    }
}

/// Facts about the plane at visit position `t`: its sample `s`, its
/// little-endian byte position `j`, and the header slot
/// `s * bps + (bps - 1 - j)` it reads, all within their ranges.
proof fn lemma_plane_index(t: int, bps: int, spp: int)
    requires
        0 < bps,
        0 <= spp,
        0 <= t < spp * bps,
    ensures
        0 <= t % bps < bps,
        0 <= t / bps < spp,
        (t / bps) * bps + t % bps == t,
        0 <= (t / bps) * bps + (bps - 1 - t % bps) < spp * bps,
{
    vstd::arithmetic::div_mod::lemma_fundamental_div_mod(t, bps);
    vstd::arithmetic::div_mod::lemma_mod_bound(t, bps);
    vstd::arithmetic::div_mod::lemma_div_pos_is_pos(t, bps);
    assert(bps * spp == spp * bps) by (nonlinear_arith);
    vstd::arithmetic::div_mod::lemma_multiply_divide_lt(t, bps, spp);
    let s = t / bps;
    let j = t % bps;
    assert(bps * s == s * bps) by (nonlinear_arith);
    vstd::arithmetic::mul::lemma_mul_is_distributive_add(bps, s, 1);
    assert(bps * (s + 1) == (s + 1) * bps) by (nonlinear_arith);
    vstd::arithmetic::mul::lemma_mul_inequality(s + 1, spp, bps);
}

/// Decode RLE Lossless pixel data from its fragments, one per frame.
///
/// `dst` is replaced by the decoded image: per frame, one plane of
/// rows x cols bytes per sample byte, interleaved pixel by pixel with
/// multi-byte samples little-endian. The exact output and each failure
/// are those of `spec_decode_frames` on the same values.
#[verifier::rlimit(80)]
pub fn decode_frames(
    cols: u16,
    rows: u16,
    samples_per_pixel: u16,
    bits_allocated: u16,
    fragments: &Vec<Vec<u8>>,
    dst: &mut Vec<u8>,
) -> (r: Result<(), RleError>)
    ensures
        match r {
            Ok(()) => spec_decode_frames(
                cols,
                rows,
                samples_per_pixel,
                bits_allocated,
                fragments.deep_view(),
            ) == Ok::<Seq<u8>, RleError>(final(dst)@),
            Err(e) => spec_decode_frames(
                cols,
                rows,
                samples_per_pixel,
                bits_allocated,
                fragments.deep_view(),
            ) == Err::<Seq<u8>, RleError>(e),
        },
        r matches Ok(()) ==> final(dst)@.len() == (samples_per_pixel as int * (
        bits_allocated as int / 8) * (rows as int * cols as int)) * fragments@.len(),
{
    let ghost dv = fragments.deep_view();
    let ghost goal = spec_decode_frames(cols, rows, samples_per_pixel, bits_allocated, dv);
    if bits_allocated != 8 && bits_allocated != 16 {
        return Err(RleError::UnsupportedBitDepth { bits_allocated });
    }
    let bps: usize = (bits_allocated / 8) as usize;
    let ghost gspp = samples_per_pixel as int;
    let ghost gbps = bps as int;
    let ghost gnpix = (rows as int * cols as int) as nat;
    let ghost gfs = gspp * gbps * (gnpix as int);
    proof {
        vstd::arithmetic::mul::lemma_mul_upper_bound(rows as int, 0xFFFF, cols as int, 0xFFFF);
        vstd::arithmetic::mul::lemma_mul_upper_bound(gspp, 0xFFFF, gbps, 2);
        vstd::arithmetic::mul::lemma_mul_upper_bound(
            gspp * gbps,
            0x1FFFE,
            gnpix as int,
            0xFFFE0001,
        );
    }
    let npix_u64: u64 = rows as u64 * cols as u64;
    let frame_size_u64: u64 = samples_per_pixel as u64 * bps as u64 * npix_u64;
    let nframes = fragments.len();
    assert(frame_size_u64 == gfs);
    let total_u64: u64 = match frame_size_u64.checked_mul(nframes as u64) {
        None => {
            proof {
                vstd::arithmetic::mul::lemma_mul_upper_bound(
                    gfs,
                    gfs,
                    nframes as int,
                    nframes as int,
                );
            }
            return Err(RleError::OutputTooLarge);
        },
        Some(t) => t,
    };
    if total_u64 > usize::MAX as u64 {
        return Err(RleError::OutputTooLarge);
    }
    let total: usize = total_u64 as usize;
    assert(total == gfs * nframes);
    let zeros = zero_vec(total);
    *dst = zeros;
    let npix: usize = rows as usize * cols as usize;
    let nsegs: usize = samples_per_pixel as usize * bps;
    assert(nsegs == gspp * gbps);
    assert(npix == gnpix);
    proof {
        assert(goal == spec_frames_loop(dv, 0, gspp, gbps, gnpix, zero_seq(total as nat)));
    }
    let mut i: usize = 0;
    while i < nframes
        invariant
            0 <= i <= nframes == fragments@.len(),
            dv == fragments.deep_view(),
            gspp == samples_per_pixel as int,
            gbps == bps as int,
            bps == 1 || bps == 2,
            gnpix == (rows as int * cols as int) as nat,
            npix == gnpix,
            nsegs == gspp * gbps,
            nsegs <= 0x1FFFE,
            gfs == gspp * gbps * (gnpix as int),
            total == gfs * nframes,
            dst@.len() == total <= usize::MAX,
            goal == spec_decode_frames(cols, rows, samples_per_pixel, bits_allocated, dv),
            goal == spec_frames_loop(dv, i as int, gspp, gbps, gnpix, dst@),
        decreases nframes - i,
    {
        let fragment = &fragments[i];
        let ghost f = dv[i as int];
        proof {
            assert(f =~= fragment@);
        }
        let offs = match read_rle_header(fragment, nsegs) {
            Err(e) => {
                proof {
                    assert(spec_frames_loop(dv, i as int, gspp, gbps, gnpix, dst@) == Err::<
                        Seq<u8>,
                        RleError,
                    >(RleError::InvalidFragmentHeader));
                }
                return Err(e);
            },
            Ok(offs) => offs,
        };
        let ghost base = i as int * (gspp * gbps * (gnpix as int));
        proof {
            assert(goal == (match spec_frame_segs(f, gspp, gbps, gnpix, 0, base, dst@) {
                Err(e) => Err::<Seq<u8>, RleError>(e),
                Ok(a2) => spec_frames_loop(dv, i + 1, gspp, gbps, gnpix, a2),
            }));
        }
        let mut t: usize = 0;
        while t < nsegs
            invariant
                0 <= t <= nsegs,
                i < nframes == fragments@.len(),
                dv == fragments.deep_view(),
                f == dv[i as int],
                f == fragment@,
                gspp == samples_per_pixel as int,
                gbps == bps as int,
                bps == 1 || bps == 2,
                gnpix == (rows as int * cols as int) as nat,
                npix == gnpix,
                nsegs == gspp * gbps,
                nsegs <= 0x1FFFE,
                gfs == gspp * gbps * (gnpix as int),
                total == gfs * nframes,
                dst@.len() == total <= usize::MAX,
                base == i as int * gfs,
                goal == spec_decode_frames(cols, rows, samples_per_pixel, bits_allocated, dv),
                frame_header_ok(f, nsegs as int),
                offs@.len() == seg_count(f) + 1,
                forall|j: int| 0 <= j <= seg_count(f) ==> #[trigger] offs@[j] == seg_offset(f, j),
                goal == (match spec_frame_segs(f, gspp, gbps, gnpix, t as int, base, dst@) {
                    Err(e) => Err::<Seq<u8>, RleError>(e),
                    Ok(a2) => spec_frames_loop(dv, i + 1, gspp, gbps, gnpix, a2),
                }),
            decreases nsegs - t,
        {
            proof {
                lemma_plane_index(t as int, gbps, gspp);
            }
            let s = t / bps;
            let j = t % bps;
            let ii = s * bps + (bps - 1 - j);
            assert(ii < nsegs);
            assert(ii + 1 <= seg_count(f));
            let o1 = offs[ii];
            let o2 = offs[ii + 1];
            assert(o1 == seg_offset(f, ii as int) && o2 == seg_offset(f, ii + 1));
            assert(o1 <= o2 <= fragment@.len());
            let seg = vstd::slice::slice_subrange(fragment.as_slice(), o1, o2);
            assert(seg@ == f.subrange(seg_offset(f, ii as int), seg_offset(f, ii + 1)));
            let mut scratch = zero_vec(npix);
            assert(scratch@.len() == gnpix);
            match decode_rle_segment(seg, &mut scratch) {
                Err(k) => {
                    proof {
                        assert(spec_frame_segs(f, gspp, gbps, gnpix, t as int, base, dst@)
                            == Err::<Seq<u8>, RleError>(
                            RleError::SegmentDecodeFailure { kind: k },
                        ));
                    }
                    return Err(RleError::SegmentDecodeFailure { kind: k });
                },
                Ok(_) => {},
            }
            // scratch now holds the decoded plane
            proof {
                if gfs >= 1 {
                    vstd::arithmetic::mul::lemma_mul_left_inequality(gfs, 1, nframes as int);
                } else {
                    vstd::arithmetic::mul::lemma_mul_by_zero_is_zero(nframes as int);
                    assert(gfs * (nframes as int) == 0) by (nonlinear_arith)
                        requires
                            gfs == 0,
                    ;
                }
                assert(gfs <= total);
                assert(gfs == nsegs * npix) by (nonlinear_arith)
                    requires
                        gfs == gspp * gbps * (gnpix as int),
                        nsegs == gspp * gbps,
                        npix == gnpix,
                ;
            }
            let fs = nsegs * npix;
            proof {
                vstd::arithmetic::mul::lemma_mul_inequality(i as int + 1, nframes as int, gfs);
                vstd::arithmetic::mul::lemma_mul_is_distributive_add(gfs, i as int, 1);
                assert(gfs * (i as int + 1) == (i as int + 1) * gfs) by (nonlinear_arith);
                assert(gfs * (i as int) == (i as int) * gfs) by (nonlinear_arith);
                assert(i as int * gfs + gfs <= total);
                if npix >= 1 {
                    vstd::arithmetic::mul::lemma_mul_left_inequality(
                        nsegs as int,
                        1,
                        npix as int,
                    );
                    assert(nsegs <= fs);
                } else {
                    assert(fs == 0 && gfs == 0) by (nonlinear_arith)
                        requires
                            fs == nsegs * npix,
                            gfs == nsegs * npix,
                            npix == 0,
                    ;
                }
            }
            let start = i * fs + (s * bps + j);
            assert(s * bps + j == t);
            proof {
                if npix >= 1 {
                    assert(start + (npix - 1) * nsegs < total) by (nonlinear_arith)
                        requires
                            start == i as int * fs + t as int,
                            fs == nsegs * npix,
                            i as int * gfs + gfs <= total,
                            fs == gfs,
                            t < nsegs,
                            npix >= 1,
                            nsegs >= 1,
                    ;
                }
            }
            let ghost dpre = dst@;
            interleave_segment(dst, &scratch, start, nsegs);
            proof {
                assert(dst@ == write_strided(
                    dpre,
                    scratch@,
                    base + (s * bps + j) as int,
                    gspp * gbps,
                ));
                assert(goal == (match spec_frame_segs(f, gspp, gbps, gnpix, t + 1, base, dst@) {
                    Err(e) => Err::<Seq<u8>, RleError>(e),
                    Ok(a2) => spec_frames_loop(dv, i + 1, gspp, gbps, gnpix, a2),
                }));
            }
            t = t + 1;
        }
        proof {
            assert(spec_frame_segs(f, gspp, gbps, gnpix, nsegs as int, base, dst@) == Ok::<
                Seq<u8>,
                RleError,
            >(dst@));
            assert(goal == spec_frames_loop(dv, i + 1, gspp, gbps, gnpix, dst@));
        }
        i = i + 1;
    }
    proof {
        assert(goal == Ok::<Seq<u8>, RleError>(dst@));
        lemma_decode_frames_output_size(cols, rows, samples_per_pixel, bits_allocated, dv);
        assert(dv.len() == fragments@.len());
    }
    Ok(())
}

/// A source of encapsulated pixel data and its image attributes, for the
/// caller to implement over its own storage. Each accessor returns `None`
/// where the attribute is absent.
pub trait PixelDataObject {
    /// The Columns attribute.
    fn cols(&self) -> Option<u16>;

    /// The Rows attribute.
    fn rows(&self) -> Option<u16>;

    /// The Samples per Pixel attribute.
    fn samples_per_pixel(&self) -> Option<u16>;

    /// The Bits Allocated attribute.
    fn bits_allocated(&self) -> Option<u16>;

    /// How many pixel-data fragments there are; for RLE Lossless, one
    /// per frame.
    fn number_of_fragments(&self) -> Option<u32>;

    /// The bytes of fragment `i`, for `i` below the fragment count.
    fn fragment(&self, i: usize) -> Option<Vec<u8>>;
}

/// Decoder for the RLE Lossless transfer syntax (1.2.840.10008.1.2.5).
#[derive(Debug, Clone, Copy, PartialEq, Eq, Hash, PartialOrd, Ord, Structural)]
pub struct RLELosslessAdapter;

impl RLELosslessAdapter {
    /// Decode the pixel data of `src` completely into `dst`.
    ///
    /// The attributes and fragments are taken from `src`, whatever it
    /// answers; a missing attribute or fragment is an error. On success
    /// the output is the full RLE decode of the fragments handed out,
    /// under the attributes handed out, as `spec_decode_frames` fixes it.
    pub fn decode<S: PixelDataObject>(&self, src: &S, dst: &mut Vec<u8>) -> (r: Result<
        (),
        RleError,
    >)
        ensures
            r matches Ok(()) ==> exists|cols: u16, rows: u16, spp: u16, bits: u16, frags: Seq<
                Seq<u8>,
            >| spec_decode_frames(cols, rows, spp, bits, frags) == Ok::<Seq<u8>, RleError>(
                final(dst)@,
            ),
    {
        let cols = match src.cols() {
            Some(v) => v,
            None => return Err(RleError::MissingAttribute { name: AttributeName::Columns }),
        };
        let rows = match src.rows() {
            Some(v) => v,
            None => return Err(RleError::MissingAttribute { name: AttributeName::Rows }),
        };
        let samples_per_pixel = match src.samples_per_pixel() {
            Some(v) => v,
            None => return Err(
                RleError::MissingAttribute { name: AttributeName::SamplesPerPixel },
            ),
        };
        let bits_allocated = match src.bits_allocated() {
            Some(v) => v,
            None => return Err(RleError::MissingAttribute { name: AttributeName::BitsAllocated }),
        };
        if bits_allocated != 8 && bits_allocated != 16 {
            return Err(RleError::UnsupportedBitDepth { bits_allocated });
        }
        // For RLE Lossless the fragment count is the frame count, so the
        // fragments can be fetched one by one.
        let nr_frames = match src.number_of_fragments() {
            Some(v) => v as usize,
            None => return Err(RleError::MissingPixelData),
        };
        let mut fragments: Vec<Vec<u8>> = Vec::new();
        let mut i: usize = 0;
        while i < nr_frames
            invariant
                0 <= i <= nr_frames,
                fragments@.len() == i,
            decreases nr_frames - i,
        {
            match src.fragment(i) {
                Some(fragment) => fragments.push(fragment),
                None => return Err(RleError::MissingPixelData),
            }
            i = i + 1;
        }
        let r = decode_frames(cols, rows, samples_per_pixel, bits_allocated, &fragments, dst);
        proof {
            if r is Ok {
                assert(spec_decode_frames(
                    cols,
                    rows,
                    samples_per_pixel,
                    bits_allocated,
                    fragments.deep_view(),
                ) == Ok::<Seq<u8>, RleError>(dst@));
            }
        }
        r
    }
}

/// A canonical RLE encoding of `b`: literal runs of up to 128 bytes,
/// each under a control byte of one less than its length.
pub open spec fn rle_encode_spec(b: Seq<u8>) -> Seq<u8>
    decreases b.len(),
{
    if b.len() == 0 {
        Seq::empty()
    } else {
        let cnt = if b.len() < 128 {
            b.len() as int
        } else {
            128
        };
        seq![(cnt - 1) as u8] + b.take(cnt) + rle_encode_spec(b.skip(cnt))
    }
}

/// Decoding the canonical encoding of any byte sequence gives the
/// sequence back.
pub proof fn lemma_rle_round_trip(b: Seq<u8>)
    ensures
        rle_decode_spec(rle_encode_spec(b), b.len()) == Ok::<Seq<u8>, SegmentError>(b),
    decreases b.len(),
{
    if b.len() == 0 {
        assert(rle_encode_spec(b) =~= Seq::<u8>::empty());
        assert(rle_decode_spec(rle_encode_spec(b), b.len()) == Ok::<Seq<u8>, SegmentError>(
            Seq::<u8>::empty(),
        ));
        assert(Seq::<u8>::empty() =~= b);
    } else {
        let cnt = if b.len() < 128 {
            b.len() as int
        } else {
            128
        };
        let e = rle_encode_spec(b);
        let tail = rle_encode_spec(b.skip(cnt));
        assert(e == seq![(cnt - 1) as u8] + b.take(cnt) + tail);
        assert(e.len() == 1 + cnt + tail.len());
        assert(e[0] == (cnt - 1) as u8);
        lemma_rle_round_trip(b.skip(cnt));
        assert(e.skip(1 + cnt) =~= tail);
        assert(e.subrange(1, 1 + cnt) =~= b.take(cnt));
        assert(b.skip(cnt).len() == b.len() - cnt);
        assert(rle_decode_spec(e.skip(1 + cnt), (b.len() - cnt) as nat) == Ok::<
            Seq<u8>,
            SegmentError,
        >(b.skip(cnt)));
        assert(b.take(cnt) + b.skip(cnt) =~= b);
    }
}

/// Scattering keeps the length of the buffer.
proof fn lemma_write_strided_len(dst: Seq<u8>, scratch: Seq<u8>, start: int, stride: int)
    ensures
        write_strided(dst, scratch, start, stride).len() == dst.len(),
{
}

/// Decoding the planes of a frame keeps the length of the buffer.
proof fn lemma_frame_segs_len(
    f: Seq<u8>,
    spp: int,
    bps: int,
    npix: nat,
    t: int,
    base: int,
    acc: Seq<u8>,
)
    requires
        spec_frame_segs(f, spp, bps, npix, t, base, acc) matches Ok(_),
    ensures
        spec_frame_segs(f, spp, bps, npix, t, base, acc) matches Ok(out) && out.len()
            == acc.len(),
    decreases spp * bps - t,
{
    if t >= spp * bps || bps <= 0 {
    } else {
        let s = t / bps;
        let j = t % bps;
        let ii = s * bps + (bps - 1 - j);
        match rle_decode_spec(f.subrange(seg_offset(f, ii), seg_offset(f, ii + 1)), npix) {
            Err(k) => {},
            Ok(seg) => {
                let acc2 = write_strided(acc, seg, base + s * bps + j, spp * bps);
                lemma_write_strided_len(acc, seg, base + s * bps + j, spp * bps);
                lemma_frame_segs_len(f, spp, bps, npix, t + 1, base, acc2);
            },
        }
    }
}

/// Decoding any number of frames keeps the length of the buffer.
proof fn lemma_frames_loop_len(
    frags: Seq<Seq<u8>>,
    i: int,
    spp: int,
    bps: int,
    npix: nat,
    acc: Seq<u8>,
)
    requires
        spec_frames_loop(frags, i, spp, bps, npix, acc) matches Ok(_),
    ensures
        spec_frames_loop(frags, i, spp, bps, npix, acc) matches Ok(out) && out.len()
            == acc.len(),
    decreases frags.len() - i,
{
    if i >= frags.len() {
    } else {
        match spec_frame_segs(frags[i], spp, bps, npix, 0, i * (spp * bps * npix as int), acc) {
            Err(e) => {},
            Ok(acc2) => {
                lemma_frame_segs_len(
                    frags[i],
                    spp,
                    bps,
                    npix,
                    0,
                    i * (spp * bps * npix as int),
                    acc,
                );
                lemma_frames_loop_len(frags, i + 1, spp, bps, npix, acc2);
            },
        }
    }
}

/// A successful decode writes exactly one frame size per fragment:
/// samples x bytes-per-sample x rows x cols bytes for each frame,
/// and no more.
pub proof fn lemma_decode_frames_output_size(
    cols: u16,
    rows: u16,
    samples_per_pixel: u16,
    bits_allocated: u16,
    frags: Seq<Seq<u8>>,
)
    requires
        spec_decode_frames(cols, rows, samples_per_pixel, bits_allocated, frags) matches Ok(_),
    ensures
        spec_decode_frames(cols, rows, samples_per_pixel, bits_allocated, frags) matches Ok(out)
            && out.len() == (samples_per_pixel as int * (bits_allocated as int / 8) * (
        rows as int * cols as int)) * frags.len(),
{
    let bps = bits_allocated as int / 8;
    let npix = rows as int * cols as int;
    let frame_size = samples_per_pixel as int * bps * npix;
    lemma_frames_loop_len(
        frags,
        0,
        samples_per_pixel as int,
        bps,
        (rows as int * cols as int) as nat,
        zero_seq((frame_size * frags.len()) as nat),
    );
}

} // verus!
