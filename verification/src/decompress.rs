//! The block decompressor and the framing stream reader: a strict decoder
//! for the element stream with full bounds checking, proved to return
//! exactly what the reference decoder `decode_elems` describes.
use vstd::prelude::*;

use crate::compress::append_range;
use crate::definitions::block_decode;
use crate::definitions::decode_chunks;
use crate::definitions::magic_body;
use crate::definitions::next_data;
use crate::definitions::prepend_decoded;
use crate::definitions::step_next;
use crate::definitions::lemma_prepend_empty;
use crate::definitions::NextData;
use crate::definitions::CHUNK_TYPE_COMPRESSED_DATA;
use crate::definitions::CHUNK_TYPE_STREAM_IDENTIFIER;
use crate::definitions::CHUNK_TYPE_UNCOMPRESSED_DATA;
use crate::definitions::MAX_UNCOMPRESSED_CHUNK_LEN;
use crate::primitives::checksum_ieee;
use crate::definitions::decode_elems;
use crate::definitions::extend_copy;
use crate::definitions::le_value;
use crate::definitions::lemma_decode_elems_mono;
use crate::definitions::lemma_extend_copy_len;
use crate::definitions::lemma_extend_copy_snoc;
use crate::definitions::lemma_le_value_small;
use crate::definitions::SnappyError;
use crate::primitives::read_u64_le;

verus! {

/// Returns the length that a block declares in its 8-byte little-endian
/// header.
pub fn decompressed_len(src: &Vec<u8>) -> (r: u64)
    requires
        src.len() >= 8,
    ensures
        r as nat == le_value(src@.subrange(0, 8)),
{
    read_u64_le(src, 0)
}

/// Copies `src[from..from + len]` to `dst[d..d + len]`.
fn copy_literal(dst: &mut Vec<u8>, d: usize, src: &Vec<u8>, from: usize, len: usize)
    requires
        from + len <= src.len(),
        d + len <= old(dst).len(),
    ensures
        final(dst).len() == old(dst).len(),
        final(dst)@.subrange(0, d + len as int) == old(dst)@.subrange(0, d as int) + src@.subrange(
            from as int,
            from + len as int,
        ),
        final(dst)@.subrange(d + len as int, old(dst).len() as int) == old(dst)@.subrange(
            d + len as int,
            old(dst).len() as int,
        ),
{
    let ghost pre = dst@;
    let mut k: usize = 0;
    while k < len
        invariant
            from + len <= src.len(),
            d + len <= dst.len(),
            dst.len() == pre.len(),
            k <= len,
            forall|x: int| 0 <= x < d ==> #[trigger] dst@[x] == pre[x],
            forall|x: int| d <= x < d + k ==> #[trigger] dst@[x] == src@[from + x - d],
            forall|x: int| d + k <= x < dst.len() ==> #[trigger] dst@[x] == pre[x],
        decreases len - k,
    {
        dst[d + k] = src[from + k];
        k += 1;
    }
    proof {
        assert(dst@.subrange(0, d + len as int) =~= pre.subrange(0, d as int) + src@.subrange(
            from as int,
            from + len as int,
        ));
        assert(dst@.subrange(d + len as int, pre.len() as int) =~= pre.subrange(
            d + len as int,
            pre.len() as int,
        ));
    }
}

/// Replays `len` bytes starting `off` bytes before the current end of the
/// decoded output, byte by byte, so that overlapping references repeat the
/// already-written tail, exactly as `extend_copy` describes.
fn replay_copy(dst: &mut Vec<u8>, d: usize, off: usize, len: usize)
    requires
        1 <= off <= d,
        d + len <= old(dst).len(),
    ensures
        final(dst).len() == old(dst).len(),
        final(dst)@.subrange(0, d + len as int) == extend_copy(
            old(dst)@.subrange(0, d as int),
            off as int,
            len as int,
        ),
        final(dst)@.subrange(d + len as int, old(dst).len() as int) == old(dst)@.subrange(
            d + len as int,
            old(dst).len() as int,
        ),
{
    let ghost pre = dst@;
    let ghost acc0 = pre.subrange(0, d as int);
    let mut k: usize = 0;
    proof {
        lemma_extend_copy_len(acc0, off as int, 0);
        assert(dst@.subrange(0, d as int + 0) =~= acc0);
    }
    while k < len
        invariant
            1 <= off <= d,
            d + len <= dst.len(),
            dst.len() == pre.len(),
            k <= len,
            dst@.subrange(0, d + k as int) == extend_copy(acc0, off as int, k as int),
            forall|x: int| d + k <= x < dst.len() ==> #[trigger] dst@[x] == pre[x],
        decreases len - k,
    {
        proof {
            lemma_extend_copy_len(acc0, off as int, k as int);
            lemma_extend_copy_snoc(acc0, off as int, k as int);
        }
        let b = dst[d + k - off];
        dst[d + k] = b;
        k += 1;
        proof {
            lemma_extend_copy_len(acc0, off as int, k as int);
            assert(dst@.subrange(0, d + k as int) =~= extend_copy(acc0, off as int, k - 1).push(
                extend_copy(acc0, off as int, k - 1)[d + k - 1 - off],
            ));
        }
    }
    proof {
        assert(dst@.subrange(d + len as int, pre.len() as int) =~= pre.subrange(
            d + len as int,
            pre.len() as int,
        ));
    }
}

/// Decompresses the block `src` into `dst[0..n]` and returns `n`. Fails with
/// `InvalidInput` exactly when `dst` is shorter than the length the block
/// declares, and with `CorruptInput` exactly when the block is malformed:
/// a truncated header or element, a back-reference out of range, the legacy
/// copy tag, or a decoded length other than the declared one.
#[verifier::rlimit(100)]
#[verifier::spinoff_prover]
pub fn decompress(dst: &mut Vec<u8>, src: &Vec<u8>) -> (r: Result<usize, SnappyError>)
    ensures
        final(dst).len() == old(dst).len(),
        match r {
            Ok(n) => {
                &&& n <= final(dst).len()
                &&& src@.len() >= 8
                &&& n as nat == le_value(src@.subrange(0, 8))
                &&& block_decode(src@) == Some(final(dst)@.subrange(0, n as int))
            },
            Err(e) => {
                &&& (e == SnappyError::InvalidInput || e == SnappyError::CorruptInput)
                &&& (e == SnappyError::InvalidInput <==> src@.len() >= 8 && old(dst).len()
                    < le_value(src@.subrange(0, 8)))
                &&& (e == SnappyError::CorruptInput ==> (src@.len() < 8 || block_decode(src@)
                    is None))
                &&& (e == SnappyError::InvalidInput ==> final(dst)@ == old(dst)@)
                &&& (src@.len() < 8 ==> final(dst)@ == old(dst)@)
            },
        },
        match block_decode(src@) {
            Some(out) => out.len() <= old(dst).len() ==> r is Ok,
            None => true,
        },
{
    if src.len() < 8 {
        return Err(SnappyError::CorruptInput);
    }
    let dlen64: u64 = read_u64_le(src, 0);
    if (dst.len() as u64) < dlen64 {
        return Err(SnappyError::InvalidInput);
    }
    let dlen: usize = dlen64 as usize;
    let ghost dlen_g = le_value(src@.subrange(0, 8));

    let mut s: usize = 8;
    let mut d: usize = 0;
    proof {
        assert(dst@.subrange(0, 0) =~= Seq::<u8>::empty());
    }
    while s < src.len()
        invariant
            8 <= s <= src.len(),
            d <= dst.len(),
            src.len() >= 8,
            dlen == dlen_g,
            dlen <= dst.len(),
            dlen_g == le_value(src@.subrange(0, 8)),
            dst.len() == old(dst).len(),
            decode_elems(src@.skip(s as int), dst@.subrange(0, d as int)) == decode_elems(
                src@.skip(8),
                Seq::<u8>::empty(),
            ),
        decreases src.len() - s,
    {
        let ghost srest = src@.skip(s as int);
        let ghost cur = dst@.subrange(0, d as int);
        proof {
            assert(srest[0] == src@[s as int]);
        }
        let tag = src[s];
        let tagmod = tag % 4;
        if tagmod == 0 {
            // a literal element
            let m: usize = (tag / 4) as usize;
            let len64: u64;
            let hdr: usize;
            if m < 60 {
                len64 = (m + 1) as u64;
                hdr = 1;
            } else {
                let extra: usize = m - 59;
                if src.len() - s < 1 + extra {
                    proof {
                        assert(decode_elems(srest, cur) is None);
                    }
                    return Err(SnappyError::CorruptInput);
                }
                let mut v: u64 = src[s + 1] as u64;
                if extra >= 2 {
                    v = v + (src[s + 2] as u64) * 256;
                }
                if extra >= 3 {
                    v = v + (src[s + 3] as u64) * 65536;
                }
                if extra >= 4 {
                    v = v + (src[s + 4] as u64) * 16777216;
                }
                proof {
                    let b = srest.subrange(1, 1 + extra as int);
                    lemma_le_value_small(b);
                    assert(b[0] == src@[s + 1]);
                    if extra >= 2 {
                        assert(b[1] == src@[s + 2]);
                    }
                    if extra >= 3 {
                        assert(b[2] == src@[s + 3]);
                    }
                    if extra >= 4 {
                        assert(b[3] == src@[s + 4]);
                    }
                    assert(v as nat == le_value(b));
                }
                len64 = v + 1;
                hdr = 1 + extra;
            }
            // the element must fit in what is left of src and dst
            if len64 > (src.len() - (s + hdr)) as u64 {
                proof {
                    assert(decode_elems(srest, cur) is None);
                }
                return Err(SnappyError::CorruptInput);
            }
            let len: usize = len64 as usize;
            if len > dst.len() - d {
                proof {
                    assert(srest.subrange(1 + (hdr - 1) as int, hdr + len as int) =~= src@.subrange(
                        s + hdr as int,
                        s + hdr + len as int,
                    ));
                    assert(decode_elems(srest, cur) == decode_elems(
                        srest.skip(hdr + len as int),
                        cur + srest.subrange(hdr as int, hdr + len as int),
                    ));
                    lemma_decode_elems_mono(
                        srest.skip(hdr + len as int),
                        cur + srest.subrange(hdr as int, hdr + len as int),
                    );
                }
                return Err(SnappyError::CorruptInput);
            }
            copy_literal(dst, d, src, s + hdr, len);
            proof {
                assert(srest.subrange(hdr as int, hdr + len as int) =~= src@.subrange(
                    s + hdr as int,
                    s + hdr + len as int,
                ));
                assert(srest.skip(hdr + len as int) =~= src@.skip(s + hdr + len as int));
                assert(dst@.subrange(0, d + len as int) == cur + srest.subrange(
                    hdr as int,
                    hdr + len as int,
                ));
                assert(decode_elems(srest, cur) == decode_elems(
                    srest.skip(hdr + len as int),
                    cur + srest.subrange(hdr as int, hdr + len as int),
                ));
            }
            s += hdr + len;
            d += len;
        } else if tagmod == 3 {
            // the legacy copy-4 tag: always a decode error
            proof {
                assert(decode_elems(srest, cur) is None);
            }
            return Err(SnappyError::CorruptInput);
        } else {
            // a copy element
            let len: usize;
            let off: usize;
            let adv: usize;
            if tagmod == 1 {
                if src.len() - s < 2 {
                    proof {
                        assert(decode_elems(srest, cur) is None);
                    }
                    return Err(SnappyError::CorruptInput);
                }
                len = 4 + ((tag / 4) % 8) as usize;
                off = ((tag / 32) as usize) * 256 + src[s + 1] as usize;
                adv = 2;
                proof {
                    assert(srest[1] == src@[s + 1]);
                }
            } else {
                if src.len() - s < 3 {
                    proof {
                        assert(decode_elems(srest, cur) is None);
                    }
                    return Err(SnappyError::CorruptInput);
                }
                len = 1 + (tag / 4) as usize;
                off = src[s + 1] as usize + 256 * (src[s + 2] as usize);
                adv = 3;
                proof {
                    assert(srest[1] == src@[s + 1]);
                    assert(srest[2] == src@[s + 2]);
                }
            }
            if off == 0 || off > d {
                proof {
                    assert(decode_elems(srest, cur) is None);
                }
                return Err(SnappyError::CorruptInput);
            }
            if len > dst.len() - d {
                proof {
                    assert(decode_elems(srest, cur) == decode_elems(
                        srest.skip(adv as int),
                        extend_copy(cur, off as int, len as int),
                    ));
                    lemma_extend_copy_len(cur, off as int, len as int);
                    lemma_decode_elems_mono(
                        srest.skip(adv as int),
                        extend_copy(cur, off as int, len as int),
                    );
                }
                return Err(SnappyError::CorruptInput);
            }
            replay_copy(dst, d, off, len);
            proof {
                assert(srest.skip(adv as int) =~= src@.skip(s + adv as int));
                assert(dst@.subrange(0, d + len as int) == extend_copy(
                    cur,
                    off as int,
                    len as int,
                ));
                assert(decode_elems(srest, cur) == decode_elems(
                    srest.skip(adv as int),
                    extend_copy(cur, off as int, len as int),
                ));
            }
            s += adv;
            d += len;
        }
    }
    proof {
        assert(src@.skip(s as int) =~= Seq::<u8>::empty());
        assert(decode_elems(src@.skip(s as int), dst@.subrange(0, d as int)) == Some(
            dst@.subrange(0, d as int),
        ));
    }
    if d != dlen {
        return Err(SnappyError::CorruptInput);
    }
    Ok(d)
}


/// The stream reader. It owns the remaining transport bytes, a cursor into
/// them, the bytes of the last data chunk not yet handed to the caller, and
/// the flag that says whether the stream-identifier chunk was seen.
pub struct Decompressor {
    pub src: Vec<u8>,
    pub pos: usize,
    pub decoded: Vec<u8>,
    pub i: usize,
    pub read_header: bool,
}

impl Decompressor {
    /// The cursors stay inside their buffers, and the decode buffer never
    /// holds more than one chunk's worth of bytes.
    pub open spec fn wf(self) -> bool {
        self.i <= self.decoded@.len() && self.pos <= self.src@.len() && self.decoded@.len()
            <= MAX_UNCOMPRESSED_CHUNK_LEN
    }

    /// Decoded bytes not yet delivered to the caller.
    pub open spec fn window(self) -> Seq<u8> {
        self.decoded@.skip(self.i as int)
    }

    /// Stream bytes not yet consumed.
    pub open spec fn rest(self) -> Seq<u8> {
        self.src@.skip(self.pos as int)
    }

    /// A reader over a whole stream, before anything was consumed.
    pub fn new(inner: Vec<u8>) -> (d: Decompressor)
        ensures
            d.wf(),
            d.src@ == inner@,
            d.pos == 0,
            d.window().len() == 0,
            !d.read_header,
            d.rest() == inner@,
    {
        let d = Decompressor { src: inner, pos: 0, decoded: Vec::new(), i: 0, read_header: false };
        proof {
            assert(d.rest() =~= d.src@);
            assert(d.window() =~= Seq::<u8>::empty());
        }
        d
    }

    /// Consumes the next chunk of the stream. `Ok(false)` means the stream
    /// is exhausted; `Ok(true)` that one chunk was consumed, its bytes (none,
    /// for chunks that carry none) now being the window; an error mirrors
    /// exactly the first failure that `decode_chunks` and `next_data` find.
    #[verifier::rlimit(100)]
    #[verifier::spinoff_prover]
    fn pull_chunk(&mut self) -> (r: Result<bool, SnappyError>)
        requires
            old(self).wf(),
            old(self).window().len() == 0,
        ensures
            final(self).wf(),
            final(self).src@ == old(self).src@,
            match r {
                Ok(false) => {
                    &&& old(self).rest().len() == 0
                    &&& final(self).pos == old(self).pos
                    &&& final(self).window().len() == 0
                    &&& final(self).read_header == old(self).read_header
                },
                Ok(true) => {
                    &&& final(self).read_header
                    &&& old(self).pos < final(self).pos <= final(self).src@.len()
                    &&& decode_chunks(old(self).rest(), old(self).read_header) == prepend_decoded(
                        final(self).window(),
                        decode_chunks(final(self).rest(), true),
                    )
                    &&& (final(self).window().len() > 0 ==> next_data(
                        old(self).rest(),
                        old(self).read_header,
                    ) == (NextData::Bytes {
                        payload: final(self).window(),
                        consumed: final(self).pos - old(self).pos,
                    }))
                    &&& (final(self).window().len() == 0 ==> next_data(
                        old(self).rest(),
                        old(self).read_header,
                    ) == step_next(
                        next_data(final(self).rest(), true),
                        final(self).pos - old(self).pos,
                    ))
                },
                Err(e) => {
                    &&& decode_chunks(old(self).rest(), old(self).read_header) == Err::<
                        Seq<u8>,
                        SnappyError,
                    >(e)
                    &&& next_data(old(self).rest(), old(self).read_header) == (NextData::Fail {
                        err: e,
                    })
                    &&& final(self).pos == old(self).pos
                    &&& final(self).window().len() == 0
                    &&& final(self).read_header == old(self).read_header
                },
            },
    {
        let ghost srest = self.src@.skip(self.pos as int);
        let rem: usize = self.src.len() - self.pos;
        if rem == 0 {
            return Ok(false);
        }
        if rem < 4 {
            return Err(SnappyError::CorruptInput);
        }
        let p0 = self.pos;
        let ty = self.src[p0];
        let clen: usize = (self.src[p0 + 1] as usize) + 256 * (self.src[p0 + 2] as usize) + 65536
            * (self.src[p0 + 3] as usize);
        proof {
            assert(srest[0] == self.src@[p0 as int]);
            assert(srest.subrange(1, 4) =~= seq![
                self.src@[p0 + 1],
                self.src@[p0 + 2],
                self.src@[p0 + 3],
            ]);
            lemma_le_value_small(srest.subrange(1, 4));
            assert(le_value(srest.subrange(1, 4)) == clen);
        }
        if !self.read_header && ty != CHUNK_TYPE_STREAM_IDENTIFIER {
            return Err(SnappyError::CorruptInput);
        }
        if rem - 4 < clen {
            return Err(SnappyError::CorruptInput);
        }
        let bs = p0 + 4;
        let ghost body = srest.subrange(4, 4 + clen as int);
        let ghost chunk_rest = srest.skip(4 + clen as int);
        proof {
            assert(chunk_rest =~= self.src@.skip(bs + clen as int));
            assert(forall|x: int|
                0 <= x < clen ==> #[trigger] body[x] == self.src@[bs + x]);
        }
        if ty == CHUNK_TYPE_STREAM_IDENTIFIER {
            if clen != 6 {
                proof {
                    assert(body.len() != magic_body().len());
                }
                return Err(SnappyError::CorruptInput);
            }
            if !(self.src[bs] == 0x73 && self.src[bs + 1] == 0x4e && self.src[bs + 2] == 0x61
                && self.src[bs + 3] == 0x50 && self.src[bs + 4] == 0x70 && self.src[bs + 5]
                == 0x59) {
                proof {
                    if body == magic_body() {
                        assert(body[0] == 0x73u8 && body[1] == 0x4eu8 && body[2] == 0x61u8
                            && body[3] == 0x50u8 && body[4] == 0x70u8 && body[5] == 0x59u8);
                    }
                }
                return Err(SnappyError::CorruptInput);
            }
            proof {
                assert(body =~= magic_body());
            }
            self.read_header = true;
            self.pos = bs + clen;
            proof {
                assert(self.window().len() == 0);
                lemma_prepend_empty(decode_chunks(self.rest(), true));
                assert(self.rest() == chunk_rest);
            }
            return Ok(true);
        }
        if ty == CHUNK_TYPE_COMPRESSED_DATA {
            if clen < 4 {
                return Err(SnappyError::CorruptInput);
            }
            let stored: u32 = (self.src[bs] as u32) + 256 * (self.src[bs + 1] as u32) + 65536 * (
            self.src[bs + 2] as u32) + 16777216 * (self.src[bs + 3] as u32);
            proof {
                assert(body.subrange(0, 4) =~= seq![
                    self.src@[bs as int],
                    self.src@[bs + 1],
                    self.src@[bs + 2],
                    self.src@[bs + 3],
                ]);
                lemma_le_value_small(body.subrange(0, 4));
                assert(le_value(body.subrange(0, 4)) == stored);
            }
            let plen = clen - 4;
            let mut payload: Vec<u8> = Vec::new();
            append_range(&mut payload, &self.src, bs + 4, bs + 4 + plen);
            proof {
                assert(payload@ =~= body.skip(4));
            }
            if payload.len() < 8 {
                return Err(SnappyError::CorruptInput);
            }
            let n64 = decompressed_len(&payload);
            if n64 > MAX_UNCOMPRESSED_CHUNK_LEN as u64 {
                return Err(SnappyError::UnsupportedInput);
            }
            let mut buf: Vec<u8> = Vec::new();
            while buf.len() < MAX_UNCOMPRESSED_CHUNK_LEN
                invariant
                    buf.len() <= MAX_UNCOMPRESSED_CHUNK_LEN,
                decreases MAX_UNCOMPRESSED_CHUNK_LEN - buf.len(),
            {
                buf.push(0u8);
            }
            let nn: usize = match decompress(&mut buf, &payload) {
                Ok(nn) => nn,
                Err(_) => {
                    return Err(SnappyError::CorruptInput);
                },
            };
            let actual = checksum_ieee(&buf, 0, nn);
            let ghost out = buf@.subrange(0, nn as int);
            if actual != stored {
                return Err(SnappyError::CorruptInput);
            }
            buf.truncate(nn);
            proof {
                assert(buf@ == out);
            }
            self.decoded = buf;
            self.i = 0;
            self.read_header = true;
            self.pos = bs + clen;
            proof {
                assert(self.window() =~= out);
                assert(self.rest() == chunk_rest);
            }
            return Ok(true);
        }
        if ty == CHUNK_TYPE_UNCOMPRESSED_DATA {
            if clen < 4 {
                return Err(SnappyError::CorruptInput);
            }
            let stored: u32 = (self.src[bs] as u32) + 256 * (self.src[bs + 1] as u32) + 65536 * (
            self.src[bs + 2] as u32) + 16777216 * (self.src[bs + 3] as u32);
            proof {
                assert(body.subrange(0, 4) =~= seq![
                    self.src@[bs as int],
                    self.src@[bs + 1],
                    self.src@[bs + 2],
                    self.src@[bs + 3],
                ]);
                lemma_le_value_small(body.subrange(0, 4));
                assert(le_value(body.subrange(0, 4)) == stored);
            }
            let plen = clen - 4;
            if plen > MAX_UNCOMPRESSED_CHUNK_LEN {
                proof {
                    assert(body.skip(4).len() > MAX_UNCOMPRESSED_CHUNK_LEN as nat);
                }
                return Err(SnappyError::UnsupportedInput);
            }
            let mut payload: Vec<u8> = Vec::new();
            append_range(&mut payload, &self.src, bs + 4, bs + 4 + plen);
            proof {
                assert(payload@ =~= body.skip(4));
            }
            let actual = checksum_ieee(&payload, 0, plen);
            proof {
                assert(payload@.subrange(0, plen as int) =~= payload@);
            }
            if actual != stored {
                return Err(SnappyError::CorruptInput);
            }
            self.decoded = payload;
            self.i = 0;
            self.read_header = true;
            self.pos = bs + clen;
            proof {
                assert(self.window() =~= body.skip(4));
                assert(self.rest() == chunk_rest);
            }
            return Ok(true);
        }
        if 0x02 <= ty && ty <= 0x7f {
            return Err(SnappyError::UnsupportedInput);
        }
        // padding and reserved skippable chunks deliver nothing
        self.read_header = true;
        self.pos = bs + clen;
        proof {
            assert(self.window().len() == 0);
            lemma_prepend_empty(decode_chunks(self.rest(), true));
            assert(self.rest() == chunk_rest);
        }
        Ok(true)
    }

    /// Hands out up to `dst.len()` bytes from the window into `dst[0..k]`.
    fn take_from_window(&mut self, dst: &mut Vec<u8>) -> (k: usize)
        requires
            old(self).wf(),
        ensures
            final(self).wf(),
            final(dst).len() == old(dst).len(),
            final(self).src@ == old(self).src@,
            final(self).pos == old(self).pos,
            final(self).read_header == old(self).read_header,
            k == if old(dst).len() < old(self).window().len() {
                old(dst).len() as int
            } else {
                old(self).window().len() as int
            },
            final(dst)@.subrange(0, k as int) == old(self).window().take(k as int),
            final(dst)@.subrange(k as int, old(dst).len() as int) == old(dst)@.subrange(
                k as int,
                old(dst).len() as int,
            ),
            final(self).window() == old(self).window().skip(k as int),
    {
        let avail: usize = self.decoded.len() - self.i;
        let k: usize = if dst.len() < avail {
            dst.len()
        } else {
            avail
        };
        let ghost w0 = self.window();
        let ghost pre = dst@;
        let mut q: usize = 0;
        while q < k
            invariant
                q <= k,
                k <= dst.len(),
                self.i + k <= self.decoded.len(),
                dst.len() == pre.len(),
                w0 == self.decoded@.skip(self.i as int),
                self.i + k <= self.decoded@.len(),
                forall|x: int| 0 <= x < q ==> #[trigger] dst@[x] == self.decoded@[self.i + x],
                forall|x: int| q <= x < dst.len() ==> #[trigger] dst@[x] == pre[x],
            decreases k - q,
        {
            let b = self.decoded[self.i + q];
            dst[q] = b;
            q += 1;
        }
        self.i = self.i + k;
        proof {
            assert(dst@.subrange(0, k as int) =~= w0.take(k as int));
            assert(dst@.subrange(k as int, pre.len() as int) =~= pre.subrange(
                k as int,
                pre.len() as int,
            ));
            assert(self.window() =~= w0.skip(k as int));
        }
        k
    }

    /// Reads decoded bytes into `dst[0..k]` and returns `k`. Bytes still in
    /// the window are delivered first; otherwise chunks are consumed up to
    /// the next one that carries bytes, exactly as `next_data` describes:
    /// its payload is delivered (`k` is the smaller of `dst.len()` and the
    /// payload length, the remainder staying in the window), the clean end
    /// of the stream gives `Ok(0)`, and the first framing error gives `Err`
    /// with nothing delivered.
    pub fn read(&mut self, dst: &mut Vec<u8>) -> (r: Result<usize, SnappyError>)
        requires
            old(self).wf(),
        ensures
            final(self).wf(),
            final(self).src@ == old(self).src@,
            final(dst).len() == old(dst).len(),
            old(self).window().len() > 0 ==> ({
                let k = if old(dst).len() < old(self).window().len() {
                    old(dst).len() as int
                } else {
                    old(self).window().len() as int
                };
                &&& r == Ok::<usize, SnappyError>(k as usize)
                &&& final(dst)@.subrange(0, k) == old(self).window().take(k)
                &&& final(self).window() == old(self).window().skip(k)
                &&& final(self).pos == old(self).pos
                &&& final(self).read_header == old(self).read_header
            }),
            old(self).window().len() == 0 ==> match next_data(
                old(self).rest(),
                old(self).read_header,
            ) {
                NextData::Finished => {
                    &&& r == Ok::<usize, SnappyError>(0)
                    &&& final(self).pos == final(self).src@.len()
                    &&& final(self).window().len() == 0
                    &&& final(dst)@ == old(dst)@
                    &&& (old(self).rest().len() > 0 ==> final(self).read_header)
                    &&& (old(self).rest().len() == 0 ==> final(self).read_header == old(
                        self,
                    ).read_header)
                },
                NextData::Bytes { payload, consumed } => ({
                    let k = if old(dst).len() < payload.len() {
                        old(dst).len() as int
                    } else {
                        payload.len() as int
                    };
                    &&& r == Ok::<usize, SnappyError>(k as usize)
                    &&& final(dst)@.subrange(0, k) == payload.take(k)
                    &&& final(self).window() == payload.skip(k)
                    &&& final(self).pos == old(self).pos + consumed
                    &&& final(self).read_header
                }),
                NextData::Fail { err } => {
                    &&& r == Err::<usize, SnappyError>(err)
                    &&& final(self).window().len() == 0
                    &&& final(dst)@ == old(dst)@
                },
            },
    {
        if self.i < self.decoded.len() {
            let k = self.take_from_window(dst);
            return Ok(k);
        }
        let ghost pos0 = self.pos;
        let ghost rest0 = self.rest();
        let ghost h0 = self.read_header;
        proof {
            assert(self.window().len() == 0);
        }
        loop
            invariant
                self.wf(),
                self.window().len() == 0,
                self.src@ == old(self).src@,
                pos0 <= self.pos <= self.src@.len(),
                dst.len() == old(dst).len(),
                old(self).window().len() == 0,
                pos0 == old(self).pos,
                rest0 == old(self).rest(),
                h0 == old(self).read_header,
                rest0 == self.src@.skip(pos0 as int),
                h0 ==> self.read_header,
                dst@ == old(dst)@,
                self.pos > pos0 ==> self.read_header,
                self.pos == pos0 ==> self.read_header == h0,
                next_data(rest0, h0) == step_next(
                    next_data(self.rest(), self.read_header),
                    self.pos - pos0,
                ),
            decreases self.src@.len() - self.pos,
        {
            let ghost pos_b = self.pos;
            let ghost rest_b = self.rest();
            let ghost h_b = self.read_header;
            match self.pull_chunk() {
                Err(e) => {
                    return Err(e);
                },
                Ok(false) => {
                    proof {
                        assert(rest_b.len() == 0);
                        assert(next_data(rest_b, h_b) == NextData::Finished);
                        assert(self.pos == self.src@.len());
                    }
                    return Ok(0);
                },
                Ok(true) => {
                    if self.i < self.decoded.len() {
                        let ghost p = self.window();
                        proof {
                            assert(next_data(rest0, h0) == (NextData::Bytes {
                                payload: p,
                                consumed: self.pos - pos0,
                            }));
                        }
                        let k = self.take_from_window(dst);
                        return Ok(k);
                    }
                },
            }
        }
    }

    /// Reads and returns everything that remains: the window, then the
    /// bytes of every remaining chunk, exactly as `decode_chunks` describes;
    /// or the first framing error.
    pub fn read_all(&mut self) -> (r: Result<Vec<u8>, SnappyError>)
        requires
            old(self).wf(),
        ensures
            final(self).wf(),
            final(self).src@ == old(self).src@,
            match r {
                Ok(v) => prepend_decoded(
                    old(self).window(),
                    decode_chunks(old(self).rest(), old(self).read_header),
                ) == Ok::<Seq<u8>, SnappyError>(v@),
                Err(e) => decode_chunks(old(self).rest(), old(self).read_header) == Err::<
                    Seq<u8>,
                    SnappyError,
                >(e),
            },
    {
        let ghost w0 = self.window();
        let ghost rest0 = self.rest();
        let ghost h0 = self.read_header;
        let mut out: Vec<u8> = Vec::new();
        let di = self.i;
        append_range(&mut out, &self.decoded, di, self.decoded.len());
        self.i = self.decoded.len();
        proof {
            assert(out@ =~= w0);
            assert(self.window().len() == 0);
        }
        loop
            invariant
                self.wf(),
                self.window().len() == 0,
                self.src@ == old(self).src@,
                self.pos <= self.src@.len(),
                w0 == old(self).window(),
                rest0 == old(self).rest(),
                h0 == old(self).read_header,
                prepend_decoded(w0, decode_chunks(rest0, h0)) == prepend_decoded(
                    out@,
                    decode_chunks(self.rest(), self.read_header),
                ),
            decreases self.src@.len() - self.pos,
        {
            let ghost out_pre = out@;
            let ghost rest_b = self.rest();
            let ghost h_b = self.read_header;
            match self.pull_chunk() {
                Err(e) => {
                    proof {
                        assert(decode_chunks(rest_b, h_b) == Err::<Seq<u8>, SnappyError>(e));
                    }
                    return Err(e);
                },
                Ok(false) => {
                    proof {
                        assert(rest_b =~= Seq::<u8>::empty());
                        assert(decode_chunks(rest_b, h_b) == Ok::<Seq<u8>, SnappyError>(
                            Seq::empty(),
                        ));
                        assert(out_pre + Seq::<u8>::empty() =~= out_pre);
                    }
                    return Ok(out);
                },
                Ok(true) => {
                    let ghost p = self.window();
                    let di2 = self.i;
                    append_range(&mut out, &self.decoded, di2, self.decoded.len());
                    self.i = self.decoded.len();
                    proof {
                        assert(out@ == out_pre + p);
                        assert(self.window().len() == 0);
                        crate::definitions::lemma_prepend_assoc(
                            out_pre,
                            p,
                            decode_chunks(self.rest(), self.read_header),
                        );
                    }
                },
            }
        }
    }
}

/// Decodes the complete framed stream held in `input` and returns every
/// decoded byte, or the first framing error, exactly as `decode_chunks`
/// describes.
pub fn decompress_stream(input: Vec<u8>) -> (r: Result<Vec<u8>, SnappyError>)
    ensures
        match r {
            Ok(v) => decode_chunks(input@, false) == Ok::<Seq<u8>, SnappyError>(v@),
            Err(e) => decode_chunks(input@, false) == Err::<Seq<u8>, SnappyError>(e),
        },
{
    let mut d = Decompressor::new(input);
    let r = d.read_all();
    proof {
        lemma_prepend_empty(decode_chunks(d.src@, false));
    }
    r
}

} // verus!
