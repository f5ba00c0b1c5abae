//! Wire-format model shared by the compressor and the decompressor: the tag
//! and chunk-type codes, little-endian number helpers, and the reference
//! decoders for a block's element stream, written as spec functions.
use vstd::prelude::*;

use crate::primitives::crc32_ieee;

verus! {

// Low two bits of an element's tag byte.
pub const TAG_LITERAL: u8 = 0x00;
pub const TAG_COPY_1: u8 = 0x01;
pub const TAG_COPY_2: u8 = 0x02;
pub const TAG_COPY_4: u8 = 0x03;

// Chunk type codes of the framing layer.
pub const CHUNK_TYPE_COMPRESSED_DATA: u8 = 0x00;
pub const CHUNK_TYPE_UNCOMPRESSED_DATA: u8 = 0x01;
pub const CHUNK_TYPE_PADDING: u8 = 0xfe;
pub const CHUNK_TYPE_STREAM_IDENTIFIER: u8 = 0xff;

pub const CHECK_SUM_SIZE: usize = 4;
pub const CHUNK_HEADER_SIZE: usize = 4;

/// The uncompressed data carried by one chunk is at most this long.
pub const MAX_UNCOMPRESSED_CHUNK_LEN: usize = 65536;

/// Copy back-references never reach further back than this.
pub const MAX_OFFSET: usize = 32768;

/// Inputs longer than this are rejected by the block compressor: a literal
/// run of `n` bytes stores `n - 1` in at most four extension bytes, so runs
/// above `0xffff_ffff + 1` bytes have no encoding.
pub const MAX_BLOCK_INPUT_LEN: usize = 0xffff_ffff;

/// Errors surfaced by the codec.
#[derive(Clone, Copy, Debug, PartialEq, Eq, Structural)]
pub enum SnappyError {
    /// Caller-side misuse: a destination buffer smaller than the guaranteed
    /// worst case, or a source too long for the literal-length encoding.
    InvalidInput,
    /// Malformed input: bad checksum, bad framing, out-of-bounds lengths, or
    /// the legacy copy tag.
    CorruptInput,
    /// Input that is well-formed but beyond this codec: a chunk larger than
    /// the decode buffer, or a reserved unskippable chunk type.
    UnsupportedInput,
}

/// `256 ^ n`.
pub open spec fn pow256(n: nat) -> int
    decreases n,
{
    if n == 0 {
        1
    } else {
        256 * pow256((n - 1) as nat)
    }
}

/// The value of a little-endian byte string.
pub open spec fn le_value(s: Seq<u8>) -> nat
    decreases s.len(),
{
    if s.len() == 0 {
        0nat
    } else {
        (s[0] + 256 * le_value(s.skip(1))) as nat
    }
}

/// The `w`-byte little-endian encoding of `v`.
pub open spec fn le_bytes(v: nat, w: nat) -> Seq<u8>
    decreases w,
{
    if w == 0 {
        Seq::empty()
    } else {
        seq![(v % 256) as u8] + le_bytes(v / 256, (w - 1) as nat)
    }
}

pub proof fn lemma_pow256_pos(n: nat)
    ensures
        pow256(n) >= 1,
    decreases n,
{
    if n > 0 {
        lemma_pow256_pos((n - 1) as nat);
    }
}

/// Byte `j` of the little-endian encoding of `v` is `(v / 256^j) % 256`.
pub proof fn lemma_le_bytes_index(v: nat, w: nat, j: int)
    requires
        0 <= j < w,
    ensures
        le_bytes(v, w).len() == w,
        le_bytes(v, w)[j] == (((v as int) / pow256(j as nat)) % 256) as u8,
    decreases w,
{
    lemma_le_bytes_len(v, w);
    if j == 0 {
        assert(pow256(0) == 1);
    } else {
        lemma_le_bytes_index(v / 256, (w - 1) as nat, j - 1);
        lemma_pow256_pos((j - 1) as nat);
        vstd::arithmetic::div_mod::lemma_div_denominator(
            v as int,
            256,
            pow256((j - 1) as nat),
        );
        assert(pow256(j as nat) == 256 * pow256((j - 1) as nat));
        assert(le_bytes(v, w)[j] == le_bytes(v / 256, (w - 1) as nat)[j - 1]);
    }
}

pub proof fn lemma_le_bytes_len(v: nat, w: nat)
    ensures
        le_bytes(v, w).len() == w,
    decreases w,
{
    if w > 0 {
        lemma_le_bytes_len(v / 256, (w - 1) as nat);
    }
}

/// Writing `v` in `w` little-endian bytes and reading it back returns `v`,
/// for values that fit.
pub proof fn lemma_le_bytes_value(v: nat, w: nat)
    requires
        v < pow256(w),
    ensures
        le_value(le_bytes(v, w)) == v,
    decreases w,
{
    if w > 0 {
        let s = le_bytes(v, w);
        let tail = le_bytes(v / 256, (w - 1) as nat);
        assert(v / 256 < pow256((w - 1) as nat)) by {
            assert(v < 256 * pow256((w - 1) as nat));
        };
        lemma_le_bytes_value(v / 256, (w - 1) as nat);
        assert(s.skip(1) =~= tail);
        assert(le_value(s) == (v % 256) + 256 * (v / 256));
    }
}

/// Appends to `acc` the next `len` bytes of the back-reference that starts
/// `off` bytes before the end of `acc`. Replays byte by byte, so a reference
/// with `off < len` repeats the tail of `acc`, exactly as the decoder does.
/// Out-of-range arguments leave `acc` unchanged; every use guards them.
pub open spec fn extend_copy(acc: Seq<u8>, off: int, len: int) -> Seq<u8>
    decreases len,
{
    if len <= 0 || off <= 0 || off > acc.len() {
        acc
    } else {
        extend_copy(acc.push(acc[acc.len() - off]), off, len - 1)
    }
}

pub proof fn lemma_extend_copy_len(acc: Seq<u8>, off: int, len: int)
    requires
        1 <= off <= acc.len(),
        0 <= len,
    ensures
        extend_copy(acc, off, len).len() == acc.len() + len,
    decreases len,
{
    if len > 0 {
        lemma_extend_copy_len(acc.push(acc[acc.len() - off]), off, len - 1);
    }
}

/// One step of `extend_copy` taken at the back rather than at the front: the
/// replay of `len + 1` bytes is the replay of `len` bytes plus one more byte
/// read `off` positions back from the end produced so far.
pub proof fn lemma_extend_copy_snoc(acc: Seq<u8>, off: int, len: int)
    requires
        1 <= off <= acc.len(),
        0 <= len,
    ensures
        extend_copy(acc, off, len + 1) == extend_copy(acc, off, len).push(
            extend_copy(acc, off, len)[acc.len() + len - off],
        ),
    decreases len,
{
    lemma_extend_copy_len(acc, off, len);
    if len == 0 {
        assert(extend_copy(acc, off, 1) == extend_copy(acc.push(acc[acc.len() - off]), off, 0));
    } else {
        let acc1 = acc.push(acc[acc.len() - off]);
        lemma_extend_copy_snoc(acc1, off, len - 1);
        assert(extend_copy(acc, off, len + 1) == extend_copy(acc1, off, len));
        assert(extend_copy(acc, off, len) == extend_copy(acc1, off, len - 1));
    }
}

/// Splitting one long back-reference into two consecutive shorter ones with
/// the same offset replays the same bytes.
pub proof fn lemma_extend_copy_split(acc: Seq<u8>, off: int, a: int, b: int)
    requires
        1 <= off <= acc.len(),
        0 <= a,
        0 <= b,
    ensures
        extend_copy(extend_copy(acc, off, a), off, b) == extend_copy(acc, off, a + b),
    decreases a,
{
    if a > 0 {
        let acc1 = acc.push(acc[acc.len() - off]);
        lemma_extend_copy_split(acc1, off, a - 1, b);
    }
}

/// A back-reference whose source bytes agree with `s` reproduces `s` itself:
/// if every byte of `s` in `[p, p + len)` equals the byte `off` places before
/// it, then replaying `len` bytes at offset `off` after `s[..p]` yields
/// `s[..p + len)`.
pub proof fn lemma_extend_copy_matches(s: Seq<u8>, p: int, off: int, len: int)
    requires
        1 <= off <= p,
        0 <= len,
        p + len <= s.len(),
        forall|x: int| p <= x < p + len ==> #[trigger] s[x] == s[x - off],
    ensures
        extend_copy(s.subrange(0, p), off, len) == s.subrange(0, p + len),
    decreases len,
{
    if len == 0 {
        assert(s.subrange(0, p) =~= s.subrange(0, p + 0));
    } else {
        lemma_extend_copy_matches(s, p, off, len - 1);
        lemma_extend_copy_snoc(s.subrange(0, p), off, len - 1);
        let prev = extend_copy(s.subrange(0, p), off, len - 1);
        assert(prev == s.subrange(0, p + len - 1));
        assert(prev[p + len - 1 - off] == s[p + len - 1 - off]);
        assert(s[p + len - 1] == s[p + len - 1 - off]);
        assert(s.subrange(0, p + len - 1).push(s[p + len - 1]) =~= s.subrange(0, p + len));
    }
}

/// The reference decoder for a block's element stream. `src` holds encoded
/// elements; `acc` holds the bytes decoded so far. Returns the decoded bytes,
/// or `None` when the stream is malformed: a truncated element, a
/// back-reference reaching before the start (or of offset zero), or the
/// unsupported legacy copy tag.
pub open spec fn decode_elems(src: Seq<u8>, acc: Seq<u8>) -> Option<Seq<u8>>
    decreases src.len(),
{
    if src.len() == 0 {
        Some(acc)
    } else {
        let tag = src[0] as int;
        if tag % 4 == TAG_LITERAL as int {
            let m = tag / 4;
            if m < 60 {
                let len = m + 1;
                if 1 + len <= src.len() {
                    decode_elems(src.skip(1 + len), acc + src.subrange(1, 1 + len))
                } else {
                    None
                }
            } else {
                let extra = m - 59;
                if 1 + extra <= src.len() {
                    let len = le_value(src.subrange(1, 1 + extra)) + 1;
                    if 1 + extra + len <= src.len() {
                        decode_elems(
                            src.skip(1 + extra + len as int),
                            acc + src.subrange(1 + extra, 1 + extra + len as int),
                        )
                    } else {
                        None
                    }
                } else {
                    None
                }
            }
        } else if tag % 4 == TAG_COPY_1 as int {
            if 2 <= src.len() {
                let len = 4 + (tag / 4) % 8;
                let off = (tag / 32) * 256 + src[1];
                if 1 <= off <= acc.len() {
                    decode_elems(src.skip(2), extend_copy(acc, off, len))
                } else {
                    None
                }
            } else {
                None
            }
        } else if tag % 4 == TAG_COPY_2 as int {
            if 3 <= src.len() {
                let len = 1 + tag / 4;
                let off = src[1] + 256 * (src[2] as int);
                if 1 <= off <= acc.len() {
                    decode_elems(src.skip(3), extend_copy(acc, off, len))
                } else {
                    None
                }
            } else {
                None
            }
        } else {
            None
        }
    }
}

/// Every copy element of the stream keeps its back-reference within `w`
/// bytes. Walks the elements like `decode_elems` but looks only at the
/// offsets; truncated streams pass vacuously, since `decode_elems` already
/// rejects them.
pub open spec fn copies_within(src: Seq<u8>, w: int) -> bool
    decreases src.len(),
{
    if src.len() == 0 {
        true
    } else {
        let tag = src[0] as int;
        if tag % 4 == TAG_LITERAL as int {
            let m = tag / 4;
            if m < 60 {
                let len = m + 1;
                if 1 + len <= src.len() {
                    copies_within(src.skip(1 + len), w)
                } else {
                    true
                }
            } else {
                let extra = m - 59;
                if 1 + extra <= src.len() {
                    let len = le_value(src.subrange(1, 1 + extra)) + 1;
                    if 1 + extra + len <= src.len() {
                        copies_within(src.skip(1 + extra + len as int), w)
                    } else {
                        true
                    }
                } else {
                    true
                }
            }
        } else if tag % 4 == TAG_COPY_1 as int {
            if 2 <= src.len() {
                (tag / 32) * 256 + src[1] < w && copies_within(src.skip(2), w)
            } else {
                true
            }
        } else if tag % 4 == TAG_COPY_2 as int {
            if 3 <= src.len() {
                src[1] + 256 * (src[2] as int) < w && copies_within(src.skip(3), w)
            } else {
                true
            }
        } else {
            true
        }
    }
}

/// Decoding only ever appends: a successful decode is at least as long as
/// the bytes already accumulated, whatever the element stream holds.
pub proof fn lemma_decode_elems_mono(src: Seq<u8>, acc: Seq<u8>)
    ensures
        match decode_elems(src, acc) {
            Some(out) => out.len() >= acc.len(),
            None => true,
        },
    decreases src.len(),
{
    if src.len() > 0 {
        let tag = src[0] as int;
        if tag % 4 == TAG_LITERAL as int {
            let m = tag / 4;
            if m < 60 {
                let len = m + 1;
                if 1 + len <= src.len() {
                    lemma_decode_elems_mono(src.skip(1 + len), acc + src.subrange(1, 1 + len));
                }
            } else {
                let extra = m - 59;
                if 1 + extra <= src.len() {
                    let len = le_value(src.subrange(1, 1 + extra)) + 1;
                    if 1 + extra + len <= src.len() {
                        lemma_decode_elems_mono(
                            src.skip(1 + extra + len as int),
                            acc + src.subrange(1 + extra, 1 + extra + len as int),
                        );
                    }
                }
            }
        } else if tag % 4 == TAG_COPY_1 as int {
            if 2 <= src.len() {
                let len = 4 + (tag / 4) % 8;
                let off = (tag / 32) * 256 + src[1];
                if 1 <= off <= acc.len() {
                    lemma_extend_copy_len(acc, off, len);
                    lemma_decode_elems_mono(src.skip(2), extend_copy(acc, off, len));
                }
            }
        } else if tag % 4 == TAG_COPY_2 as int {
            if 3 <= src.len() {
                let len = 1 + tag / 4;
                let off = src[1] + 256 * (src[2] as int);
                if 1 <= off <= acc.len() {
                    lemma_extend_copy_len(acc, off, len);
                    lemma_decode_elems_mono(src.skip(3), extend_copy(acc, off, len));
                }
            }
        }
    }
}

/// `le_value` of at most four bytes, written out.
pub proof fn lemma_le_value_small(b: Seq<u8>)
    requires
        b.len() <= 4,
    ensures
        b.len() == 0 ==> le_value(b) == 0,
        b.len() == 1 ==> le_value(b) == b[0],
        b.len() == 2 ==> le_value(b) == b[0] + 256 * b[1],
        b.len() == 3 ==> le_value(b) == b[0] + 256 * b[1] + 65536 * b[2],
        b.len() == 4 ==> le_value(b) == b[0] + 256 * b[1] + 65536 * b[2] + 16777216 * b[3],
    decreases b.len(),
{
    if b.len() > 0 {
        lemma_le_value_small(b.skip(1));
        assert(b.skip(1).len() == b.len() - 1);
        if b.len() >= 2 {
            assert(b.skip(1)[0] == b[1]);
        }
        if b.len() >= 3 {
            assert(b.skip(1)[1] == b[2]);
        }
        if b.len() == 4 {
            assert(b.skip(1)[2] == b[3]);
        }
    }
}

/// The reference decoder for a whole block: an 8-byte little-endian length
/// header followed by the element stream, which must decode to exactly the
/// declared number of bytes.
pub open spec fn block_decode(src: Seq<u8>) -> Option<Seq<u8>> {
    if src.len() < 8 {
        None
    } else {
        match decode_elems(src.skip(8), Seq::empty()) {
            Some(out) => {
                if out.len() == le_value(src.subrange(0, 8)) {
                    Some(out)
                } else {
                    None
                }
            },
            None => None,
        }
    }
}

/// The six magic bytes `"sNaPpY"` carried by a stream-identifier chunk.
pub open spec fn magic_body() -> Seq<u8> {
    seq![0x73u8, 0x4eu8, 0x61u8, 0x50u8, 0x70u8, 0x59u8]
}

/// The full ten-byte stream-identifier chunk that opens every stream.
pub open spec fn magic_chunk_bytes() -> Seq<u8> {
    seq![0xffu8, 0x06u8, 0x00u8, 0x00u8] + magic_body()
}

/// Prefixes already-decoded bytes onto the outcome of decoding the rest of a
/// stream.
pub open spec fn prepend_decoded(p: Seq<u8>, r: Result<Seq<u8>, SnappyError>) -> Result<
    Seq<u8>,
    SnappyError,
> {
    match r {
        Ok(t) => Ok(p + t),
        Err(e) => Err(e),
    }
}

pub proof fn lemma_prepend_empty(r: Result<Seq<u8>, SnappyError>)
    ensures
        prepend_decoded(Seq::empty(), r) == r,
{
    match r {
        Ok(t) => {
            assert(Seq::empty() + t =~= t);
        },
        Err(_) => {},
    }
}

pub proof fn lemma_prepend_assoc(a: Seq<u8>, b: Seq<u8>, r: Result<Seq<u8>, SnappyError>)
    ensures
        prepend_decoded(a, prepend_decoded(b, r)) == prepend_decoded(a + b, r),
{
    match r {
        Ok(t) => {
            assert(a + (b + t) =~= (a + b) + t);
        },
        Err(_) => {},
    }
}

/// The reference decoder for a whole framed stream: the concatenation of
/// every data chunk's uncompressed bytes, or the kind of the first error.
/// `header_seen` says whether a stream-identifier chunk was already read;
/// until one was, any other chunk type is corruption.
pub open spec fn decode_chunks(s: Seq<u8>, header_seen: bool) -> Result<Seq<u8>, SnappyError>
    decreases s.len(),
{
    if s.len() == 0 {
        Ok(Seq::empty())
    } else if s.len() < 4 {
        Err(SnappyError::CorruptInput)
    } else {
        let ty = s[0];
        let clen = le_value(s.subrange(1, 4)) as int;
        if !header_seen && ty != CHUNK_TYPE_STREAM_IDENTIFIER {
            Err(SnappyError::CorruptInput)
        } else if s.len() < 4 + clen {
            Err(SnappyError::CorruptInput)
        } else {
            let body = s.subrange(4, 4 + clen);
            let rest = s.skip(4 + clen);
            if ty == CHUNK_TYPE_STREAM_IDENTIFIER {
                if body == magic_body() {
                    decode_chunks(rest, true)
                } else {
                    Err(SnappyError::CorruptInput)
                }
            } else if ty == CHUNK_TYPE_COMPRESSED_DATA {
                if clen < 4 {
                    Err(SnappyError::CorruptInput)
                } else {
                    let stored = le_value(body.subrange(0, 4));
                    let payload = body.skip(4);
                    if payload.len() < 8 {
                        Err(SnappyError::CorruptInput)
                    } else if le_value(payload.subrange(0, 8)) > MAX_UNCOMPRESSED_CHUNK_LEN as nat {
                        Err(SnappyError::UnsupportedInput)
                    } else {
                        match block_decode(payload) {
                            Some(out) => {
                                if crc32_ieee(out) == stored {
                                    prepend_decoded(out, decode_chunks(rest, true))
                                } else {
                                    Err(SnappyError::CorruptInput)
                                }
                            },
                            None => Err(SnappyError::CorruptInput),
                        }
                    }
                }
            } else if ty == CHUNK_TYPE_UNCOMPRESSED_DATA {
                if clen < 4 {
                    Err(SnappyError::CorruptInput)
                } else {
                    let stored = le_value(body.subrange(0, 4));
                    let payload = body.skip(4);
                    if payload.len() > MAX_UNCOMPRESSED_CHUNK_LEN as nat {
                        Err(SnappyError::UnsupportedInput)
                    } else if crc32_ieee(payload) == stored {
                        prepend_decoded(payload, decode_chunks(rest, true))
                    } else {
                        Err(SnappyError::CorruptInput)
                    }
                }
            } else if 0x02 <= ty && ty <= 0x7f {
                // reserved unskippable chunk types
                Err(SnappyError::UnsupportedInput)
            } else {
                // padding and reserved skippable chunk types
                decode_chunks(rest, true)
            }
        }
    }
}

/// Adds `k` to a chunk count that may have failed.
pub open spec fn bump_count(k: int, r: Option<int>) -> Option<int> {
    match r {
        Some(c) => Some(k + c),
        None => None,
    }
}

/// The number of data chunks (compressed or uncompressed) in a stream whose
/// framing is intact, counted without validating the chunk bodies.
pub open spec fn count_data_chunks(s: Seq<u8>) -> Option<int>
    decreases s.len(),
{
    if s.len() == 0 {
        Some(0)
    } else if s.len() < 4 {
        None
    } else {
        let ty = s[0];
        let clen = le_value(s.subrange(1, 4)) as int;
        if s.len() < 4 + clen {
            None
        } else {
            let rest = s.skip(4 + clen);
            if ty == CHUNK_TYPE_COMPRESSED_DATA || ty == CHUNK_TYPE_UNCOMPRESSED_DATA {
                bump_count(1, count_data_chunks(rest))
            } else {
                count_data_chunks(rest)
            }
        }
    }
}

/// What the stream reader finds when it scans forward for bytes to deliver:
/// the clean end of the stream, the next data chunk's bytes together with
/// how much input it consumed to get past them, or the first error.
pub enum NextData {
    Finished,
    Bytes { payload: Seq<u8>, consumed: int },
    Fail { err: SnappyError },
}

/// Accounts `c` more consumed bytes onto a `NextData` outcome.
pub open spec fn step_next(n: NextData, c: int) -> NextData {
    match n {
        NextData::Bytes { payload, consumed } => NextData::Bytes {
            payload,
            consumed: consumed + c,
        },
        _ => n,
    }
}

/// Scans to the next data chunk with a nonempty payload, passing over the
/// chunks that deliver nothing: identifier chunks, skippable chunks, and
/// data chunks of zero length. Mirrors `decode_chunks` check for check.
pub open spec fn next_data(s: Seq<u8>, header_seen: bool) -> NextData
    decreases s.len(),
{
    if s.len() == 0 {
        NextData::Finished
    } else if s.len() < 4 {
        NextData::Fail { err: SnappyError::CorruptInput }
    } else {
        let ty = s[0];
        let clen = le_value(s.subrange(1, 4)) as int;
        if !header_seen && ty != CHUNK_TYPE_STREAM_IDENTIFIER {
            NextData::Fail { err: SnappyError::CorruptInput }
        } else if s.len() < 4 + clen {
            NextData::Fail { err: SnappyError::CorruptInput }
        } else {
            let body = s.subrange(4, 4 + clen);
            let rest = s.skip(4 + clen);
            if ty == CHUNK_TYPE_STREAM_IDENTIFIER {
                if body == magic_body() {
                    step_next(next_data(rest, true), 4 + clen)
                } else {
                    NextData::Fail { err: SnappyError::CorruptInput }
                }
            } else if ty == CHUNK_TYPE_COMPRESSED_DATA {
                if clen < 4 {
                    NextData::Fail { err: SnappyError::CorruptInput }
                } else {
                    let stored = le_value(body.subrange(0, 4));
                    let payload = body.skip(4);
                    if payload.len() < 8 {
                        NextData::Fail { err: SnappyError::CorruptInput }
                    } else if le_value(payload.subrange(0, 8)) > MAX_UNCOMPRESSED_CHUNK_LEN as nat {
                        NextData::Fail { err: SnappyError::UnsupportedInput }
                    } else {
                        match block_decode(payload) {
                            Some(out) => {
                                if crc32_ieee(out) == stored {
                                    if out.len() == 0 {
                                        step_next(next_data(rest, true), 4 + clen)
                                    } else {
                                        NextData::Bytes { payload: out, consumed: 4 + clen }
                                    }
                                } else {
                                    NextData::Fail { err: SnappyError::CorruptInput }
                                }
                            },
                            None => NextData::Fail { err: SnappyError::CorruptInput },
                        }
                    }
                }
            } else if ty == CHUNK_TYPE_UNCOMPRESSED_DATA {
                if clen < 4 {
                    NextData::Fail { err: SnappyError::CorruptInput }
                } else {
                    let stored = le_value(body.subrange(0, 4));
                    let payload = body.skip(4);
                    if payload.len() > MAX_UNCOMPRESSED_CHUNK_LEN as nat {
                        NextData::Fail { err: SnappyError::UnsupportedInput }
                    } else if crc32_ieee(payload) == stored {
                        if payload.len() == 0 {
                            step_next(next_data(rest, true), 4 + clen)
                        } else {
                            NextData::Bytes { payload, consumed: 4 + clen }
                        }
                    } else {
                        NextData::Fail { err: SnappyError::CorruptInput }
                    }
                }
            } else if 0x02 <= ty && ty <= 0x7f {
                NextData::Fail { err: SnappyError::UnsupportedInput }
            } else {
                step_next(next_data(rest, true), 4 + clen)
            }
        }
    }
}

} // verus!
