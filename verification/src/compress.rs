//! The block compressor: a greedy LZ77 matcher over a rolling hash table,
//! with the literal/copy tag encoders, and the framing stream writer on top.
//!
//! Every emitting function carries two kinds of contract. A decode clause:
//! the bytes it appends, followed by anything at all, decode (under
//! `decode_elems`) to whatever the rest decodes to once the covered source
//! bytes are appended to the accumulator - chained, these prove that a whole
//! compressed block decodes back to its source. And an image clause: the
//! bytes appended are exactly the ones the spec-level encoder
//! (`spec_literal_enc`, `spec_copy_enc`, `spec_scan`, `spec_compress`,
//! `spec_frame`, `spec_stream_frames`) names, which pins the emitted output,
//! the discard policy and the chunk boundaries byte for byte and makes the
//! whole encoder a function of its input alone.
use vstd::prelude::*;

use crate::definitions::block_decode;
use crate::definitions::bump_count;
use crate::definitions::copies_within;
use crate::definitions::count_data_chunks;
use crate::definitions::decode_chunks;
use crate::definitions::magic_body;
use crate::definitions::magic_chunk_bytes;
use crate::definitions::prepend_decoded;
use crate::definitions::lemma_le_value_small;
use crate::definitions::CHUNK_TYPE_COMPRESSED_DATA;
use crate::definitions::CHUNK_TYPE_UNCOMPRESSED_DATA;
use crate::definitions::MAX_UNCOMPRESSED_CHUNK_LEN;
use crate::primitives::checksum_ieee;
use crate::primitives::crc32_ieee;
use crate::definitions::decode_elems;
use crate::definitions::extend_copy;
use crate::definitions::le_bytes;
use crate::definitions::le_value;
use crate::definitions::lemma_extend_copy_matches;
use crate::definitions::lemma_le_bytes_index;
use crate::definitions::lemma_le_bytes_len;
use crate::definitions::lemma_le_bytes_value;
use crate::definitions::pow256;
use crate::definitions::SnappyError;
use crate::definitions::MAX_BLOCK_INPUT_LEN;
use crate::definitions::MAX_OFFSET;
use crate::primitives::write_u64_le;

verus! {

/// Worst-case length of a compressed block for `n` source bytes.
pub open spec fn spec_max_compressed_len(n: nat) -> nat {
    (32 + n + n / 6) as nat
}

/// Returns the largest possible length of a compressed block, given the
/// uncompressed length of its source.
pub fn max_compressed_len(src_len: usize) -> (r: usize)
    requires
        32 + src_len + src_len / 6 <= usize::MAX,
    ensures
        r == spec_max_compressed_len(src_len as nat),
{
    32 + src_len + src_len / 6
}


/// The exact byte image of one literal element covering `lit`: the tag byte
/// of the smallest length class that fits, the explicit little-endian
/// length bytes of that class, then the literal bytes themselves.
pub open spec fn spec_literal_enc(lit: Seq<u8>) -> Seq<u8> {
    let n = lit.len() as int - 1;
    if n < 60 {
        seq![(n * 4) as u8] + lit
    } else if n < 256 {
        seq![240u8] + le_bytes(n as nat, 1) + lit
    } else if n < 65536 {
        seq![244u8] + le_bytes(n as nat, 2) + lit
    } else if n < 16777216 {
        seq![248u8] + le_bytes(n as nat, 3) + lit
    } else {
        seq![252u8] + le_bytes(n as nat, 4) + lit
    }
}

/// Writes at `dst[d..]` one literal element covering `src[from..to]` and
/// returns the number of bytes written: a tag byte, up to four explicit
/// little-endian length bytes, then the literal bytes themselves.
#[verifier::rlimit(100)]
#[verifier::spinoff_prover]
fn emit_literal(dst: &mut Vec<u8>, d: usize, src: &Vec<u8>, from: usize, to: usize) -> (i: usize)
    requires
        from < to <= src.len(),
        to - from <= 0x1_0000_0000,
        d + (to - from) + 5 <= old(dst).len(),
    ensures
        final(dst).len() == old(dst).len(),
        final(dst)@.subrange(0, d as int) == old(dst)@.subrange(0, d as int),
        final(dst)@.subrange(d + i, old(dst).len() as int) == old(dst)@.subrange(
            d + i,
            old(dst).len() as int,
        ),
        to - from + 1 <= i <= to - from + 5,
        60 * i <= 61 * (to - from) + 60,
        final(dst)@.subrange(d as int, d + i) == spec_literal_enc(
            src@.subrange(from as int, to as int),
        ),
        forall|rest: Seq<u8>, acc: Seq<u8>|
            #![trigger decode_elems(final(dst)@.subrange(d as int, d + i) + rest, acc)]
            decode_elems(final(dst)@.subrange(d as int, d + i) + rest, acc) == decode_elems(
                rest,
                acc + src@.subrange(from as int, to as int),
            ),
{
    let len_m1: usize = to - from - 1;
    let ghost pre = dst@;
    let t: usize;
    if len_m1 < 60 {
        dst[d] = (len_m1 * 4) as u8;
        t = 1;
    } else if len_m1 < 256 {
        dst[d] = 240u8;
        dst[d + 1] = (len_m1 % 256) as u8;
        t = 2;
    } else if len_m1 < 65536 {
        dst[d] = 244u8;
        dst[d + 1] = (len_m1 % 256) as u8;
        dst[d + 2] = ((len_m1 / 256) % 256) as u8;
        t = 3;
    } else if len_m1 < 16777216 {
        dst[d] = 248u8;
        dst[d + 1] = (len_m1 % 256) as u8;
        dst[d + 2] = ((len_m1 / 256) % 256) as u8;
        dst[d + 3] = ((len_m1 / 65536) % 256) as u8;
        t = 4;
    } else {
        dst[d] = 252u8;
        dst[d + 1] = (len_m1 % 256) as u8;
        dst[d + 2] = ((len_m1 / 256) % 256) as u8;
        dst[d + 3] = ((len_m1 / 65536) % 256) as u8;
        dst[d + 4] = ((len_m1 / 16777216) % 256) as u8;
        t = 5;
    }
    proof {
        assert(pow256(0) == 1);
        assert(pow256(1) == 256);
        assert(pow256(2) == 65536);
        assert(pow256(3) == 16777216);
        assert(pow256(4) == 0x1_0000_0000);
    }
    let ghost w = (t - 1) as nat;
    let ghost ext = le_bytes(len_m1 as nat, w);
    proof {
        lemma_le_bytes_len(len_m1 as nat, w);
        assert forall|j: int| 0 <= j < w implies ext[j] == dst@[d + 1 + j] by {
            lemma_le_bytes_index(len_m1 as nat, w, j);
        };
    }
    let base: usize = d + t;
    let ghost mid = dst@;
    let mut k: usize = 0;
    while k < to - from
        invariant
            from < to <= src.len(),
            base + (to - from) <= dst.len(),
            dst.len() == mid.len(),
            k <= to - from,
            forall|x: int| 0 <= x < base ==> #[trigger] dst@[x] == mid[x],
            forall|x: int| base <= x < base + k ==> #[trigger] dst@[x] == src@[from + x - base],
            forall|x: int| base + k <= x < dst.len() ==> #[trigger] dst@[x] == mid[x],
        decreases to - from - k,
    {
        dst[base + k] = src[from + k];
        k += 1;
    }
    let i: usize = t + (to - from);
    proof {
        let lit = src@.subrange(from as int, to as int);
        let enc = dst@.subrange(d as int, d as int + i);
        let n = len_m1 as int;
        assert(dst@.subrange(0, d as int) =~= pre.subrange(0, d as int));
        assert(dst@.subrange(d + i, pre.len() as int) =~= pre.subrange(d + i, pre.len() as int));
        assert(enc =~= seq![dst@[d as int]] + ext + lit);
        let m: int = if t == 1 {
            n
        } else {
            58 + t
        };
        assert(dst@[d as int] as int == m * 4);
        assert(enc == spec_literal_enc(lit)) by {
            if t == 1 {
                assert(enc =~= seq![dst@[d as int]] + lit);
                assert(spec_literal_enc(lit) == seq![(n * 4) as u8] + lit);
            } else {
                assert(spec_literal_enc(lit) == seq![dst@[d as int]] + ext + lit);
            }
        };
        assert forall|rest: Seq<u8>, acc: Seq<u8>|
            #![trigger decode_elems(dst@.subrange(d as int, d + i as int) + rest, acc)]
            decode_elems(dst@.subrange(d as int, d + i as int) + rest, acc) == decode_elems(
                rest,
                acc + lit,
            ) by {
            let s = enc + rest;
            let tag = s[0] as int;
            assert(tag == m * 4);
            assert(tag % 4 == 0 && tag / 4 == m) by (nonlinear_arith)
                requires
                    tag == m * 4,
                    0 <= m < 64,
            ;
            if t == 1 {
                let len = m + 1;
                assert(len == to - from);
                assert(s.subrange(1, 1 + len) =~= lit);
                assert(s.skip(1 + len) =~= rest);
            } else {
                let extra = m - 59;
                assert(extra == w);
                assert(s.subrange(1, 1 + extra) =~= ext);
                lemma_le_bytes_value(len_m1 as nat, w);
                let len = crate::definitions::le_value(s.subrange(1, 1 + extra)) + 1;
                assert(len == to - from);
                assert(s.subrange(1 + extra, 1 + extra + len as int) =~= lit);
                assert(s.skip(1 + extra + len as int) =~= rest);
            }
        };
    }
    i
}

/// Upper bound on the bytes `emit_copy` writes for a copy of `len` bytes:
/// three bytes for each batch of at most 64.
pub open spec fn spec_copy_room(len: int) -> int {
    3 * ((len + 63) / 64)
}

/// A copy element always saves space: it covers at least `len` source bytes
/// and takes at most `len - 1` encoded bytes.
proof fn lemma_copy_room(len: int)
    requires
        4 <= len,
    ensures
        spec_copy_room(len) <= len - 1,
{
    vstd::arithmetic::div_mod::lemma_fundamental_div_mod(len + 63, 64);
    vstd::arithmetic::div_mod::lemma_mod_bound(len + 63, 64);
}


/// The exact byte image of the copy elements replaying `len` bytes from
/// `off` back: the two-byte copy-1 form when the whole remainder fits it
/// and the offset is near, else three-byte copy-2 batches of at most 64.
pub open spec fn spec_copy_enc(off: int, len: int) -> Seq<u8>
    decreases len,
{
    if len <= 0 {
        Seq::empty()
    } else if off < 2048 && 4 <= len && len < 12 {
        seq![((off / 256) * 32 + (len - 4) * 4 + 1) as u8, (off % 256) as u8]
    } else {
        let x = if len > 64 {
            64int
        } else {
            len
        };
        seq![((x - 1) * 4 + 2) as u8, (off % 256) as u8, (off / 256) as u8] + spec_copy_enc(
            off,
            len - x,
        )
    }
}

/// Writes at `dst[d..]` one or more copy elements that together replay
/// `length` bytes from `offset` bytes back, and returns the number of bytes
/// written. Copies longer than 64 bytes are split into batches; a batch of
/// 4 to 11 bytes with a near offset uses the two-byte copy-1 form, every
/// other batch the three-byte copy-2 form.
#[verifier::rlimit(100)]
#[verifier::spinoff_prover]
fn emit_copy(dst: &mut Vec<u8>, d: usize, offset: usize, length: usize) -> (i: usize)
    requires
        1 <= offset < 65536,
        4 <= length,
        d + spec_copy_room(length as int) <= old(dst).len(),
    ensures
        final(dst).len() == old(dst).len(),
        final(dst)@.subrange(0, d as int) == old(dst)@.subrange(0, d as int),
        final(dst)@.subrange(d + i, old(dst).len() as int) == old(dst)@.subrange(
            d + i,
            old(dst).len() as int,
        ),
        i <= spec_copy_room(length as int),
        final(dst)@.subrange(d as int, d + i) == spec_copy_enc(offset as int, length as int),
        forall|rest: Seq<u8>, acc: Seq<u8>|
            offset <= acc.len() ==> #[trigger] decode_elems(
                final(dst)@.subrange(d as int, d + i) + rest,
                acc,
            ) == decode_elems(rest, crate::definitions::extend_copy(acc, offset as int, length as int)),
{
    let ghost pre = dst@;
    let mut rem: usize = length;
    let mut i: usize = 0;
    proof {
        vstd::arithmetic::div_mod::lemma_fundamental_div_mod(length as int + 63, 64);
        vstd::arithmetic::div_mod::lemma_mod_bound(length as int + 63, 64);
        assert(dst@.subrange(d as int, d as int) + spec_copy_enc(offset as int, length as int)
            =~= spec_copy_enc(offset as int, length as int));
    }
    while rem > 0
        invariant
            1 <= offset < 65536,
            rem <= length,
            4 <= length,
            dst.len() == pre.len(),
            d + spec_copy_room(length as int) <= dst.len(),
            rem > 0 ==> 64 * i == 3 * (length - rem) && (length - rem) % 64 == 0 && i + 3
                <= spec_copy_room(length as int),
            i <= spec_copy_room(length as int),
            forall|x: int| 0 <= x < d ==> #[trigger] dst@[x] == pre[x],
            forall|x: int| d + i <= x < dst.len() ==> #[trigger] dst@[x] == pre[x],
            spec_copy_enc(offset as int, length as int) == dst@.subrange(d as int, d + i)
                + spec_copy_enc(offset as int, rem as int),
            forall|rest: Seq<u8>, acc: Seq<u8>|
                offset <= acc.len() ==> #[trigger] decode_elems(
                    dst@.subrange(d as int, d + i) + rest,
                    acc,
                ) == decode_elems(
                    rest,
                    crate::definitions::extend_copy(acc, offset as int, length - rem),
                ),
        decreases rem,
    {
        proof {
            vstd::arithmetic::div_mod::lemma_fundamental_div_mod(length as int + 63, 64);
            vstd::arithmetic::div_mod::lemma_mod_bound(length as int + 63, 64);
            vstd::arithmetic::div_mod::lemma_fundamental_div_mod((length - rem) as int + 63, 64);
            vstd::arithmetic::div_mod::lemma_mod_bound((length - rem) as int + 63, 64);
            vstd::arithmetic::div_mod::lemma_fundamental_div_mod((length - rem) as int, 64);
        }
        let ghost emitted = dst@.subrange(d as int, d + i);
        let ghost covered = length - rem;
        let c: usize;
        let e: usize;
        if offset < 2048 && 4 <= rem && rem < 12 {
            let tag: usize = (offset / 256) * 32 + (rem - 4) * 4 + 1;
            dst[d + i] = tag as u8;
            dst[d + i + 1] = (offset % 256) as u8;
            c = rem;
            e = 2;
        } else {
            let x: usize = if rem > 64 {
                64
            } else {
                rem
            };
            dst[d + i] = ((x - 1) * 4 + 2) as u8;
            dst[d + i + 1] = (offset % 256) as u8;
            dst[d + i + 2] = (offset / 256) as u8;
            c = x;
            e = 3;
        }
        proof {
            vstd::arithmetic::div_mod::lemma_fundamental_div_mod(offset as int, 256);
            vstd::arithmetic::div_mod::lemma_mod_bound(offset as int, 256);
            let newbytes = dst@.subrange(d + i, d + i + e);
            assert(dst@.subrange(d as int, d + i) =~= emitted);
            let tagv = dst@[d + i] as int;
            assert forall|rest: Seq<u8>, acc: Seq<u8>|
                offset <= acc.len() implies #[trigger] decode_elems(
                dst@.subrange(d as int, d + i + e) + rest,
                acc,
            ) == decode_elems(
                rest,
                crate::definitions::extend_copy(acc, offset as int, covered + c),
            ) by {
                let acc1 = crate::definitions::extend_copy(acc, offset as int, covered as int);
                crate::definitions::lemma_extend_copy_len(acc, offset as int, covered as int);
                crate::definitions::lemma_extend_copy_split(
                    acc,
                    offset as int,
                    covered as int,
                    c as int,
                );
                assert(dst@.subrange(d as int, d + i + e) =~= emitted + newbytes);
                assert((emitted + newbytes) + rest =~= emitted + (newbytes + rest));
                // the invariant steps the decode past the bytes emitted so far
                assert(decode_elems(emitted + (newbytes + rest), acc) == decode_elems(
                    newbytes + rest,
                    acc1,
                ));
                let s = newbytes + rest;
                assert(s[0] as int == tagv);
                if e == 2 {
                    let a = offset as int / 256;
                    let b = c as int - 4;
                    assert(tagv == a * 32 + b * 4 + 1);
                    assert(tagv % 4 == 1 && (tagv / 4) % 8 == b && tagv / 32 == a)
                        by (nonlinear_arith)
                        requires
                            tagv == a * 32 + b * 4 + 1,
                            0 <= a < 8,
                            0 <= b < 8,
                    ;
                    assert((tagv / 32) * 256 + s[1] == offset);
                    assert(s.skip(2) =~= rest);
                } else {
                    assert(tagv == (c - 1) * 4 + 2);
                    assert(tagv % 4 == 2 && tagv / 4 == c - 1) by (nonlinear_arith)
                        requires
                            tagv == (c - 1) * 4 + 2,
                            1 <= c <= 64,
                    ;
                    assert(s[1] + 256 * (s[2] as int) == offset);
                    assert(s.skip(3) =~= rest);
                }
            };
            // the bytes just written are the next batch of the copy image
            if e == 2 {
                assert(newbytes =~= seq![
                    ((offset as int / 256) * 32 + (c - 4) * 4 + 1) as u8,
                    (offset as int % 256) as u8,
                ]);
                assert(spec_copy_enc(offset as int, rem as int) == newbytes);
            } else {
                assert(newbytes =~= seq![
                    ((c - 1) * 4 + 2) as u8,
                    (offset as int % 256) as u8,
                    (offset as int / 256) as u8,
                ]);
                assert(spec_copy_enc(offset as int, rem as int) == newbytes + spec_copy_enc(
                    offset as int,
                    rem - c,
                ));
            }
            assert(dst@.subrange(d as int, d + i + e) =~= dst@.subrange(d as int, d + i)
                + newbytes);
            assert((dst@.subrange(d as int, d + i) + newbytes) + spec_copy_enc(
                offset as int,
                rem - c,
            ) =~= dst@.subrange(d as int, d + i) + (newbytes + spec_copy_enc(
                offset as int,
                rem - c,
            )));
            if e == 2 {
                assert(newbytes + spec_copy_enc(offset as int, rem - c) =~= newbytes);
            }
        }
        i += e;
        rem -= c;
        proof {
            if rem > 0 {
                // only a full 64-byte copy-2 batch leaves the loop running
                let k = (covered as int) / 64;
                vstd::arithmetic::div_mod::lemma_fundamental_div_mod(covered as int, 64);
                vstd::arithmetic::div_mod::lemma_fundamental_div_mod_converse(
                    covered as int + 64,
                    64,
                    k + 1,
                    0,
                );
                vstd::arithmetic::div_mod::lemma_fundamental_div_mod(length as int + 63, 64);
                vstd::arithmetic::div_mod::lemma_mod_bound(length as int + 63, 64);
            }
        }
    }
    proof {
        assert(dst@.subrange(0, d as int) =~= pre.subrange(0, d as int));
        assert(dst@.subrange(d + i, pre.len() as int) =~= pre.subrange(d + i, pre.len() as int));
    }
    i
}


/// Flushes the pending literal run `src[lit..s0]` at `dst[d..]`, keeping the
/// decode-composition and byte-budget facts of the surrounding scan.
#[verifier::rlimit(100)]
#[verifier::spinoff_prover]
fn flush_literal(dst: &mut Vec<u8>, d: usize, src: &Vec<u8>, lit: usize, s0: usize) -> (w: usize)
    requires
        lit < s0 <= src.len(),
        src.len() <= MAX_BLOCK_INPUT_LEN,
        8 <= d <= old(dst).len(),
        old(dst).len() >= spec_max_compressed_len(src@.len()),
        60 * d <= 540 + 61 * lit,
        forall|rest: Seq<u8>|
            #![trigger decode_elems(old(dst)@.subrange(8, d as int) + rest, Seq::<u8>::empty())]
            decode_elems(old(dst)@.subrange(8, d as int) + rest, Seq::<u8>::empty())
                == decode_elems(rest, src@.subrange(0, lit as int)),
    ensures
        final(dst).len() == old(dst).len(),
        final(dst)@.subrange(0, 8) == old(dst)@.subrange(0, 8),
        final(dst)@.subrange(0, d as int) == old(dst)@.subrange(0, d as int),
        d + w <= final(dst).len(),
        60 * (d + w) <= 600 + 61 * s0,
        final(dst)@.subrange(d as int, d + w) == spec_literal_enc(
            src@.subrange(lit as int, s0 as int),
        ),
        forall|rest: Seq<u8>|
            #![trigger decode_elems(final(dst)@.subrange(8, d + w as int) + rest, Seq::<u8>::empty())]
            decode_elems(final(dst)@.subrange(8, d + w as int) + rest, Seq::<u8>::empty())
                == decode_elems(rest, src@.subrange(0, s0 as int)),
{
    let ghost dst_a = dst@;
    proof {
        vstd::arithmetic::div_mod::lemma_fundamental_div_mod(src@.len() as int, 6);
        vstd::arithmetic::div_mod::lemma_mod_bound(src@.len() as int, 6);
    }
    let w1 = emit_literal(dst, d, src, lit, s0);
    proof {
        let written = dst@.subrange(d as int, d + w1 as int);
        assert forall|x: int| 0 <= x < d implies dst@[x] == dst_a[x] by {
            assert(dst@.subrange(0, d as int)[x] == dst_a.subrange(0, d as int)[x]);
        };
        assert(dst@.subrange(8, d as int) =~= dst_a.subrange(8, d as int));
        assert(dst@.subrange(0, 8) =~= dst_a.subrange(0, 8));
        assert forall|rest: Seq<u8>|
            #![trigger decode_elems(dst@.subrange(8, d + w1 as int) + rest, Seq::<u8>::empty())]
            decode_elems(dst@.subrange(8, d + w1 as int) + rest, Seq::<u8>::empty())
                == decode_elems(rest, src@.subrange(0, s0 as int)) by {
            assert(dst@.subrange(8, d + w1 as int) =~= dst@.subrange(8, d as int) + written);
            assert((dst@.subrange(8, d as int) + written) + rest =~= dst_a.subrange(8, d as int)
                + (written + rest));
            assert(decode_elems(dst_a.subrange(8, d as int) + (written + rest), Seq::<
                u8,
            >::empty()) == decode_elems(written + rest, src@.subrange(0, lit as int)));
            assert(src@.subrange(0, lit as int) + src@.subrange(lit as int, s0 as int)
                =~= src@.subrange(0, s0 as int));
        };
    }
    w1
}

/// Flushes the pending literal run `src[lit..s0]` (if any) and then emits
/// copy elements replaying `src[s0..s0 + ml]` from `off` bytes back.
/// Returns the total number of bytes written at `dst[d..]`.
#[verifier::rlimit(100)]
#[verifier::spinoff_prover]
fn emit_match(dst: &mut Vec<u8>, d: usize, src: &Vec<u8>, lit: usize, s0: usize, off: usize, ml: usize) -> (w: usize)
    requires
        lit <= s0,
        s0 + ml <= src.len(),
        src.len() <= MAX_BLOCK_INPUT_LEN,
        4 <= ml,
        1 <= off <= s0,
        off < 65536,
        forall|x: int| s0 <= x < s0 + ml ==> #[trigger] src@[x] == src@[x - off],
        8 <= d <= old(dst).len(),
        old(dst).len() >= spec_max_compressed_len(src@.len()),
        60 * d <= 540 + 61 * lit,
        forall|rest: Seq<u8>|
            #![trigger decode_elems(old(dst)@.subrange(8, d as int) + rest, Seq::<u8>::empty())]
            decode_elems(old(dst)@.subrange(8, d as int) + rest, Seq::<u8>::empty())
                == decode_elems(rest, src@.subrange(0, lit as int)),
    ensures
        final(dst).len() == old(dst).len(),
        final(dst)@.subrange(0, 8) == old(dst)@.subrange(0, 8),
        final(dst)@.subrange(0, d as int) == old(dst)@.subrange(0, d as int),
        d + w <= final(dst).len(),
        60 * (d + w) <= 540 + 61 * (s0 + ml),
        final(dst)@.subrange(d as int, d + w) == (if lit != s0 {
            spec_literal_enc(src@.subrange(lit as int, s0 as int))
        } else {
            Seq::<u8>::empty()
        }) + spec_copy_enc(off as int, ml as int),
        forall|rest: Seq<u8>|
            #![trigger decode_elems(final(dst)@.subrange(8, d + w as int) + rest, Seq::<u8>::empty())]
            decode_elems(final(dst)@.subrange(8, d + w as int) + rest, Seq::<u8>::empty())
                == decode_elems(rest, src@.subrange(0, s0 + ml as int)),
{
    let ghost dst_a = dst@;
    let mut d1: usize = d;
    if lit != s0 {
        let w1 = flush_literal(dst, d, src, lit, s0);
        d1 = d + w1;
    }
    proof {
        lemma_copy_room(ml as int);
        vstd::arithmetic::div_mod::lemma_fundamental_div_mod(src@.len() as int, 6);
        vstd::arithmetic::div_mod::lemma_mod_bound(src@.len() as int, 6);
    }
    let ghost dst_b = dst@;
    let w2 = emit_copy(dst, d1, off, ml);
    proof {
        let written = dst@.subrange(d1 as int, d1 + w2 as int);
        let acc0 = src@.subrange(0, s0 as int);
        assert forall|x: int| 0 <= x < d1 implies dst@[x] == dst_b[x] by {
            assert(dst@.subrange(0, d1 as int)[x] == dst_b.subrange(0, d1 as int)[x]);
        };
        assert(dst@.subrange(8, d1 as int) =~= dst_b.subrange(8, d1 as int));
        if lit == s0 {
            // no literal run was flushed, so the buffer is still the old one
            assert(dst_b == dst_a);
        }
        lemma_extend_copy_matches(src@, s0 as int, off as int, ml as int);
        assert forall|rest: Seq<u8>|
            #![trigger decode_elems(dst@.subrange(8, d1 + w2 as int) + rest, Seq::<u8>::empty())]
            decode_elems(dst@.subrange(8, d1 + w2 as int) + rest, Seq::<u8>::empty())
                == decode_elems(rest, src@.subrange(0, s0 + ml as int)) by {
            assert(dst@.subrange(8, d1 + w2 as int) =~= dst@.subrange(8, d1 as int) + written);
            assert((dst@.subrange(8, d1 as int) + written) + rest =~= dst_b.subrange(8, d1 as int)
                + (written + rest));
            assert(decode_elems(dst_b.subrange(8, d1 as int) + (written + rest), Seq::<
                u8,
            >::empty()) == decode_elems(written + rest, acc0));
            assert(decode_elems(written + rest, acc0) == decode_elems(
                rest,
                extend_copy(acc0, off as int, ml as int),
            ));
            assert(extend_copy(acc0, off as int, ml as int) == src@.subrange(0, s0 + ml as int));
        };
        assert(dst@.subrange(0, 8) =~= dst_b.subrange(0, 8));
        // the bytes written are the flushed literal image plus the copy image
        let flushed = if lit != s0 {
            spec_literal_enc(src@.subrange(lit as int, s0 as int))
        } else {
            Seq::<u8>::empty()
        };
        assert(dst@.subrange(d as int, d1 as int) =~= dst_b.subrange(d as int, d1 as int));
        assert(dst_b.subrange(d as int, d1 as int) == flushed) by {
            if lit == s0 {
                assert(dst_b.subrange(d as int, d1 as int) =~= Seq::<u8>::empty());
            }
        };
        assert(dst@.subrange(d as int, d1 + w2 as int) =~= dst@.subrange(d as int, d1 as int)
            + dst@.subrange(d1 as int, d1 + w2 as int));
        assert(dst@.subrange(0, d as int) =~= dst_a.subrange(0, d as int));
    }
    d1 + w2 - d
}

/// `pow256(8)`, spelled out so that callers can relate the 64-bit length
/// header to `le_value` without unwinding `pow256` themselves.
proof fn lemma_pow256_values()
    ensures
        pow256(4) == 0x1_0000_0000,
        pow256(8) == 0x1_0000_0000_0000_0000,
{
    assert(pow256(0) == 1);
    assert(pow256(1) == 256);
    assert(pow256(2) == 0x1_0000);
    assert(pow256(3) == 0x100_0000);
    assert(pow256(4) == 0x1_0000_0000);
    assert(pow256(5) == 0x100_0000_0000);
    assert(pow256(6) == 0x1_0000_0000_0000);
    assert(pow256(7) == 0x100_0000_0000_0000);
    assert(pow256(8) == 0x1_0000_0000_0000_0000);
}


/// Appends `src[from..to]` to `out`.
pub(crate) fn append_range(out: &mut Vec<u8>, src: &Vec<u8>, from: usize, to: usize)
    requires
        from <= to <= src.len(),
    ensures
        final(out)@ == old(out)@ + src@.subrange(from as int, to as int),
{
    let ghost pre = out@;
    let mut k: usize = from;
    while k < to
        invariant
            from <= k <= to <= src.len(),
            out@ == pre + src@.subrange(from as int, k as int),
        decreases to - k,
    {
        proof {
            assert(pre + src@.subrange(from as int, k as int) + seq![src@[k as int]] =~= pre
                + src@.subrange(from as int, k + 1));
        }
        out.push(src[k]);
        k += 1;
    }
}

/// A value below `2^24` is rebuilt from its three little-endian bytes.
proof fn lemma_le3_reconstruct(v: int)
    requires
        0 <= v < 0x100_0000,
    ensures
        v % 256 + 256 * ((v / 256) % 256) + 65536 * (v / 65536) == v,
        0 <= v % 256 < 256,
        0 <= (v / 256) % 256 < 256,
        0 <= v / 65536 < 256,
{
    vstd::arithmetic::div_mod::lemma_fundamental_div_mod(v, 256);
    vstd::arithmetic::div_mod::lemma_mod_bound(v, 256);
    vstd::arithmetic::div_mod::lemma_fundamental_div_mod(v / 256, 256);
    vstd::arithmetic::div_mod::lemma_mod_bound(v / 256, 256);
    vstd::arithmetic::div_mod::lemma_div_denominator(v, 256, 256);
    vstd::arithmetic::div_mod::lemma_div_is_ordered(v, 0xffffff, 65536);
}

/// A value below `2^32` is rebuilt from its four little-endian bytes.
proof fn lemma_le4_reconstruct(v: int)
    requires
        0 <= v < 0x1_0000_0000,
    ensures
        v % 256 + 256 * ((v / 256) % 256) + 65536 * ((v / 65536) % 256) + 16777216 * (v / 16777216)
            == v,
        0 <= v % 256 < 256,
        0 <= (v / 256) % 256 < 256,
        0 <= (v / 65536) % 256 < 256,
        0 <= v / 16777216 < 256,
{
    vstd::arithmetic::div_mod::lemma_fundamental_div_mod(v, 256);
    vstd::arithmetic::div_mod::lemma_mod_bound(v, 256);
    vstd::arithmetic::div_mod::lemma_fundamental_div_mod(v / 256, 256);
    vstd::arithmetic::div_mod::lemma_mod_bound(v / 256, 256);
    vstd::arithmetic::div_mod::lemma_fundamental_div_mod(v / 65536, 256);
    vstd::arithmetic::div_mod::lemma_mod_bound(v / 65536, 256);
    vstd::arithmetic::div_mod::lemma_div_denominator(v, 256, 256);
    vstd::arithmetic::div_mod::lemma_div_denominator(v, 65536, 256);
    vstd::arithmetic::div_mod::lemma_div_is_ordered(v, 0xffffffff, 16777216);
}


/// Table slot probed for the four bytes at `s`: the little-endian 32-bit
/// word, multiplied by the fixed odd constant, keeping the top bits.
pub open spec fn spec_hash_at(src: Seq<u8>, s: int, shift: u32) -> int {
    let hv = (src[s] + 256 * (src[s + 1] as int) + 65536 * (src[s + 2] as int) + 16777216 * (src[s
        + 3] as int)) as u32;
    let hm = (((hv as int) * 0x1e35a7bd) % 0x1_0000_0000) as u32;
    (hm >> shift) as int
}

/// The hash shift for a source of `n` bytes. The table has `2^(32 - shift)`
/// slots: the smallest power of two between 256 and 16384 that reaches `n`.
pub open spec fn spec_table_shift(n: int) -> u32 {
    if n <= 256 {
        24u32
    } else if n <= 512 {
        23u32
    } else if n <= 1024 {
        22u32
    } else if n <= 2048 {
        21u32
    } else if n <= 4096 {
        20u32
    } else if n <= 8192 {
        19u32
    } else {
        18u32
    }
}

/// The number of hash-table slots that go with `shift`.
pub open spec fn spec_table_size(shift: u32) -> int {
    (1u32 << ((32 - shift) as u32)) as int
}

/// First position at or after `x` whose byte no longer equals the one `off`
/// places before it (or the end of `src`): where a greedy match stops.
pub open spec fn match_end(src: Seq<u8>, x: int, off: int) -> int
    decreases src.len() - x,
{
    if 0 <= x < src.len() && 0 <= x - off && src[x] == src[x - off] {
        match_end(src, x + 1, off)
    } else {
        x
    }
}

pub proof fn lemma_match_end(src: Seq<u8>, x: int, off: int)
    ensures
        x <= match_end(src, x, off),
        x <= src.len() ==> match_end(src, x, off) <= src.len(),
    decreases src.len() - x,
{
    if 0 <= x < src.len() && 0 <= x - off && src[x] == src[x - off] {
        lemma_match_end(src, x + 1, off);
    }
}

/// The exact byte image of the greedy scan from position `s`, with the
/// pending literal run starting at `lit` and the given hash-table state.
/// Mirrors the executable scan decision for decision: probe the table,
/// store `s + 1`, take a match only when it is near enough and its four
/// bytes agree, extend it as far as it goes.
pub open spec fn spec_scan(src: Seq<u8>, table: Seq<usize>, shift: u32, s: int, lit: int) -> Seq<
    u8,
>
    decreases src.len() - s,
    via spec_scan_dec
{
    if !(0 <= lit <= s && s + 3 < src.len()) {
        if lit != src.len() {
            spec_literal_enc(src.subrange(lit, src.len() as int))
        } else {
            Seq::empty()
        }
    } else {
        let idx = spec_hash_at(src, s, shift);
        let prev = if 0 <= idx < table.len() {
            table[idx] as int
        } else {
            0
        };
        let table2 = if 0 <= idx < table.len() {
            table.update(idx, (s + 1) as usize)
        } else {
            table
        };
        if prev == 0 || s - (prev - 1) >= MAX_OFFSET as int || src[prev - 1] != src[s] || src[prev]
            != src[s + 1] || src[prev + 1] != src[s + 2] || src[prev + 2] != src[s + 3] {
            spec_scan(src, table2, shift, s + 1, lit)
        } else {
            let t0 = prev - 1;
            let off = s - t0;
            let send = match_end(src, s + 4, off);
            (if lit != s {
                spec_literal_enc(src.subrange(lit, s))
            } else {
                Seq::empty()
            }) + spec_copy_enc(off, send - s) + spec_scan(src, table2, shift, send, send)
        }
    }
}

#[via_fn]
proof fn spec_scan_dec(src: Seq<u8>, table: Seq<usize>, shift: u32, s: int, lit: int) {
    if 0 <= lit <= s && s + 3 < src.len() {
        let idx = spec_hash_at(src, s, shift);
        let prev = if 0 <= idx < table.len() {
            table[idx] as int
        } else {
            0
        };
        lemma_match_end(src, s + 4, s - (prev - 1));
    }
}

/// The exact byte image of the block compressor: the 8-byte little-endian
/// length header, then a single literal for inputs of at most four bytes,
/// else the greedy scan over a zeroed table.
pub open spec fn spec_compress(src: Seq<u8>) -> Seq<u8> {
    let hdr = le_bytes(src.len(), 8);
    if src.len() == 0 {
        hdr
    } else if src.len() <= 4 {
        hdr + spec_literal_enc(src)
    } else {
        let shift = spec_table_shift(src.len() as int);
        hdr + spec_scan(
            src,
            Seq::new(spec_table_size(shift) as nat, |x: int| 0usize),
            shift,
            0,
            0,
        )
    }
}


/// A literal element contributes no back-reference: prefixing its image
/// leaves the window check of what follows unchanged.
#[verifier::rlimit(100)]
#[verifier::spinoff_prover]
proof fn lemma_literal_window(lit: Seq<u8>, rest: Seq<u8>)
    requires
        1 <= lit.len() <= 0x1_0000_0000,
    ensures
        copies_within(spec_literal_enc(lit) + rest, MAX_OFFSET as int) == copies_within(
            rest,
            MAX_OFFSET as int,
        ),
{
    let n = lit.len() as int - 1;
    let w: nat = if n < 60 {
        0
    } else if n < 256 {
        1
    } else if n < 65536 {
        2
    } else if n < 16777216 {
        3
    } else {
        4
    };
    let tagv: int = if n < 60 {
        n * 4
    } else {
        (59 + w as int) * 4
    };
    let enc = spec_literal_enc(lit);
    let s = enc + rest;
    assert(pow256(0) == 1);
    assert(pow256(1) == 256);
    assert(pow256(2) == 65536);
    assert(pow256(3) == 16777216);
    assert(pow256(4) == 0x1_0000_0000);
    lemma_le_bytes_len(n as nat, w);
    assert(enc =~= seq![(tagv) as u8] + le_bytes(n as nat, w) + lit);
    assert(s[0] == (tagv) as u8);
    let m: int = if n < 60 {
        n
    } else {
        59 + w as int
    };
    assert(tagv == m * 4);
    assert(s[0] as int % 4 == 0 && s[0] as int / 4 == m) by (nonlinear_arith)
        requires
            s[0] as int == m * 4,
            0 <= m < 64,
    ;
    if n < 60 {
        assert(s.skip(1 + (m + 1)) =~= rest);
    } else {
        let extra = m - 59;
        assert(extra == w);
        assert(s.subrange(1, 1 + extra) =~= le_bytes(n as nat, w));
        lemma_le_bytes_value(n as nat, w);
        let len = le_value(s.subrange(1, 1 + extra)) + 1;
        assert(len == lit.len());
        assert(s.skip(1 + extra + len as int) =~= rest);
    }
}

/// Copy elements emitted for an offset inside the window pass the window
/// check, whatever follows them.
#[verifier::rlimit(100)]
#[verifier::spinoff_prover]
proof fn lemma_copy_window(off: int, len: int, rest: Seq<u8>)
    requires
        0 <= off < MAX_OFFSET,
    ensures
        copies_within(spec_copy_enc(off, len) + rest, MAX_OFFSET as int) == copies_within(
            rest,
            MAX_OFFSET as int,
        ),
    decreases len,
{
    vstd::arithmetic::div_mod::lemma_fundamental_div_mod(off, 256);
    vstd::arithmetic::div_mod::lemma_mod_bound(off, 256);
    if len <= 0 {
        assert(spec_copy_enc(off, len) + rest =~= rest);
    } else if off < 2048 && 4 <= len && len < 12 {
        let a = off / 256;
        let b = len - 4;
        let tagv = a * 32 + b * 4 + 1;
        let s = spec_copy_enc(off, len) + rest;
        assert(s[0] == tagv as u8);
        assert(s[0] as int % 4 == 1 && (s[0] as int / 32) == a) by (nonlinear_arith)
            requires
                s[0] as int == a * 32 + b * 4 + 1,
                0 <= a < 8,
                0 <= b < 8,
        ;
        assert((s[0] as int / 32) * 256 + s[1] == off);
        assert(s.skip(2) =~= rest);
    } else {
        let x = if len > 64 {
            64int
        } else {
            len
        };
        let tagv = (x - 1) * 4 + 2;
        let s = spec_copy_enc(off, len) + rest;
        assert(s[0] == tagv as u8);
        assert(s[0] as int % 4 == 2) by (nonlinear_arith)
            requires
                s[0] as int == (x - 1) * 4 + 2,
                1 <= x <= 64,
        ;
        assert(s[1] + 256 * (s[2] as int) == off);
        lemma_copy_window(off, len - x, rest);
        assert(s.skip(3) =~= spec_copy_enc(off, len - x) + rest);
    }
}

/// Every back-reference the greedy scan emits stays within the window: the
/// scan only takes matches it found at most `MAX_OFFSET - 1` bytes back.
#[verifier::rlimit(100)]
#[verifier::spinoff_prover]
proof fn lemma_scan_window(src: Seq<u8>, table: Seq<usize>, shift: u32, s: int, lit: int, rest: Seq<u8>)
    requires
        0 <= lit <= s <= src.len(),
        src.len() <= 0x1_0000_0000,
        forall|e: int| 0 <= e < table.len() ==> #[trigger] table[e] <= s,
    ensures
        copies_within(spec_scan(src, table, shift, s, lit) + rest, MAX_OFFSET as int)
            == copies_within(rest, MAX_OFFSET as int),
    decreases src.len() - s,
{
    if !(0 <= lit <= s && s + 3 < src.len()) {
        if lit != src.len() {
            lemma_literal_window(src.subrange(lit, src.len() as int), rest);
        } else {
            assert(spec_scan(src, table, shift, s, lit) + rest =~= rest);
        }
    } else {
        let idx = spec_hash_at(src, s, shift);
        let prev = if 0 <= idx < table.len() {
            table[idx] as int
        } else {
            0
        };
        let table2 = if 0 <= idx < table.len() {
            table.update(idx, (s + 1) as usize)
        } else {
            table
        };
        assert(forall|e: int| 0 <= e < table2.len() ==> #[trigger] table2[e] <= s + 1);
        if prev == 0 || s - (prev - 1) >= MAX_OFFSET as int || src[prev - 1] != src[s] || src[prev]
            != src[s + 1] || src[prev + 1] != src[s + 2] || src[prev + 2] != src[s + 3] {
            lemma_scan_window(src, table2, shift, s + 1, lit, rest);
        } else {
            let t0 = prev - 1;
            let off = s - t0;
            let send = match_end(src, s + 4, off);
            lemma_match_end(src, s + 4, off);
            let flushed = if lit != s {
                spec_literal_enc(src.subrange(lit, s))
            } else {
                Seq::<u8>::empty()
            };
            let cp = spec_copy_enc(off, send - s);
            let sc = spec_scan(src, table2, shift, send, send);
            assert(forall|e: int| 0 <= e < table2.len() ==> #[trigger] table2[e] <= send);
            lemma_scan_window(src, table2, shift, send, send, rest);
            lemma_copy_window(off, send - s, sc + rest);
            assert((flushed + cp + sc) + rest =~= flushed + (cp + (sc + rest)));
            assert(cp + (sc + rest) =~= (cp + sc) + rest);
            if lit != s {
                lemma_literal_window(src.subrange(lit, s), cp + (sc + rest));
                assert((flushed + cp + sc) + rest =~= flushed + (cp + (sc + rest)));
            } else {
                assert(flushed + (cp + (sc + rest)) =~= cp + (sc + rest));
            }
        }
    }
}

/// Budget arithmetic of the scan: a block that kept `60 * d <= 600 + 61 * n`
/// never exceeds the declared worst case.
proof fn lemma_budget_bound(d: int, n: int)
    requires
        0 <= n,
        60 * d <= 600 + 61 * n,
    ensures
        d <= spec_max_compressed_len(n as nat),
{
    vstd::arithmetic::div_mod::lemma_fundamental_div_mod(n, 6);
    vstd::arithmetic::div_mod::lemma_mod_bound(n, 6);
}

/// Assembles the block-level statement: a length header that declares
/// `src.len()` plus an element stream that decodes to `src` form a block
/// that decodes to `src`.
proof fn lemma_block_assemble(whole: Seq<u8>, d: int, src: Seq<u8>)
    requires
        8 <= d <= whole.len(),
        whole.subrange(0, 8) == le_bytes(src.len(), 8),
        src.len() < pow256(8),
        decode_elems(whole.subrange(8, d), Seq::<u8>::empty()) == Some(src),
    ensures
        block_decode(whole.subrange(0, d)) == Some(src),
{
    let blk = whole.subrange(0, d);
    assert(blk.subrange(0, 8) =~= whole.subrange(0, 8));
    lemma_le_bytes_value(src.len(), 8);
    assert(le_value(blk.subrange(0, 8)) == src.len());
    assert(blk.skip(8) =~= whole.subrange(8, d));
}

/// Compresses all of `src` into `dst[0..n]` as one block and returns `n`.
/// Fails exactly when `dst` is shorter than the guaranteed worst case
/// `max_compressed_len(src.len())`, or `src` is too long for the
/// literal-length encoding; nothing is written then. On success the bytes
/// written decode back to `src` exactly, and never exceed the worst case.
pub fn compress(dst: &mut Vec<u8>, src: &Vec<u8>) -> (r: Result<usize, SnappyError>)
    ensures
        final(dst).len() == old(dst).len(),
        match r {
            Ok(n) => {
                &&& 8 <= n <= final(dst).len()
                &&& src@.len() <= MAX_BLOCK_INPUT_LEN
                &&& old(dst).len() >= spec_max_compressed_len(src@.len())
                &&& n <= spec_max_compressed_len(src@.len())
                &&& block_decode(final(dst)@.subrange(0, n as int)) == Some(src@)
                &&& final(dst)@.subrange(0, n as int) == spec_compress(src@)
                &&& copies_within(final(dst)@.subrange(0, n as int).skip(8), MAX_OFFSET as int)
            },
            Err(e) => {
                &&& e == SnappyError::InvalidInput
                &&& (src@.len() > MAX_BLOCK_INPUT_LEN || old(dst).len()
                    < spec_max_compressed_len(src@.len()))
                &&& final(dst)@ == old(dst)@
            },
        },
{
    if src.len() > MAX_BLOCK_INPUT_LEN {
        return Err(SnappyError::InvalidInput);
    }
    let need: u64 = 32 + (src.len() as u64) + (src.len() as u64) / 6;
    if (dst.len() as u64) < need {
        return Err(SnappyError::InvalidInput);
    }
    let ghost n_src = src@.len();
    // the 8-byte little-endian length header
    write_u64_le(dst, 0, src.len() as u64);
    proof {
        lemma_pow256_values();
        lemma_le_bytes_value(n_src, 8);
        assert(le_value(dst@.subrange(0, 8)) == n_src);
    }
    let mut d: usize = 8;

    // inputs of at most four bytes become a single literal element
    if src.len() <= 4 {
        if src.len() != 0 {
            let w = emit_literal(dst, 8, src, 0, src.len());
            proof {
                assert(decode_elems(
                    dst@.subrange(8, 8 + w as int) + Seq::<u8>::empty(),
                    Seq::<u8>::empty(),
                ) == decode_elems(Seq::<u8>::empty(), Seq::<u8>::empty() + src@.subrange(
                    0,
                    src@.len() as int,
                )));
            }
            d = 8 + w;
        }
        proof {
            if src@.len() == 0 {
                assert(dst@.subrange(8, d as int) =~= Seq::<u8>::empty());
                assert(decode_elems(dst@.subrange(8, d as int), Seq::<u8>::empty()) == Some(src@));
            } else {
                assert(dst@.subrange(8, d as int) + Seq::<u8>::empty() =~= dst@.subrange(
                    8,
                    d as int,
                ));
                assert(Seq::<u8>::empty() + src@.subrange(0, src@.len() as int) =~= src@);
                assert(decode_elems(dst@.subrange(8, d as int), Seq::<u8>::empty()) == Some(src@));
                assert(dst@.subrange(0, 8) =~= le_bytes(n_src, 8));
            }
            lemma_block_assemble(dst@, d as int, src@);
            if src@.len() == 0 {
                assert(dst@.subrange(0, d as int) =~= le_bytes(n_src, 8));
            } else {
                assert(src@.subrange(0, src@.len() as int) =~= src@);
                assert(dst@.subrange(0, d as int) =~= dst@.subrange(0, 8) + dst@.subrange(
                    8,
                    d as int,
                ));
                assert(dst@.subrange(0, 8) =~= le_bytes(n_src, 8));
            }
            assert(dst@.subrange(0, d as int) == spec_compress(src@));
            if src@.len() != 0 {
                lemma_literal_window(src@, Seq::<u8>::empty());
                assert(spec_literal_enc(src@) + Seq::<u8>::empty() =~= spec_literal_enc(src@));
            }
            lemma_le_bytes_len(n_src, 8);
            assert(dst@.subrange(0, d as int).skip(8) =~= dst@.subrange(8, d as int));
            assert(copies_within(dst@.subrange(0, d as int).skip(8), MAX_OFFSET as int));
        }
        return Ok(d);
    }

    // size the hash table: the smallest power of two between 256 and 16384
    // entries that reaches src.len()
    let mut shift: u32 = 24;
    let mut table_size: usize = 256;
    proof {
        assert(1u32 << ((32 - 24) as u32) == 256) by (bit_vector);
    }
    while table_size < 16384 && table_size < src.len()
        invariant
            18 <= shift <= 24,
            256 <= table_size <= 16384,
            table_size == (1u32 << ((32 - shift) as u32)) as usize,
            shift < 24 ==> table_size / 2 < src.len(),
        decreases shift,
    {
        proof {
            assert((1u32 << ((32 - shift) as u32)) < 16384 ==> shift >= 19) by (bit_vector)
                requires
                    18 <= shift <= 24,
            ;
            assert((1u32 << ((32 - shift) as u32)) * 2 == (1u32 << ((32 - (shift - 1)) as u32)) && (1u32 << ((32 - (shift - 1)) as u32)) <= 16384) by (bit_vector)
                requires
                    19 <= shift <= 24,
            ;
        }
        shift -= 1;
        table_size *= 2;
    }
    proof {
        // the loop stopped at exactly the shift the image definition names
        if shift == 24 {
            assert(1u32 << ((32 - 24u32) as u32) == 256) by (bit_vector);
        } else if shift == 23 {
            assert(1u32 << ((32 - 23u32) as u32) == 512) by (bit_vector);
        } else if shift == 22 {
            assert(1u32 << ((32 - 22u32) as u32) == 1024) by (bit_vector);
        } else if shift == 21 {
            assert(1u32 << ((32 - 21u32) as u32) == 2048) by (bit_vector);
        } else if shift == 20 {
            assert(1u32 << ((32 - 20u32) as u32) == 4096) by (bit_vector);
        } else if shift == 19 {
            assert(1u32 << ((32 - 19u32) as u32) == 8192) by (bit_vector);
        } else {
            assert(1u32 << ((32 - 18u32) as u32) == 16384) by (bit_vector);
        }
        assert(shift == spec_table_shift(src@.len() as int));
    }
    let mut table: Vec<usize> = Vec::new();
    while table.len() < table_size
        invariant
            table.len() <= table_size,
            forall|e: int| 0 <= e < table.len() ==> table@[e] == 0,
        decreases table_size - table.len(),
    {
        table.push(0);
    }

    proof {
        assert(table@ =~= Seq::new(spec_table_size(shift) as nat, |x: int| 0usize));
        assert(dst@.subrange(0, 8) + spec_scan(src@, table@, shift, 0, 0) =~= le_bytes(n_src, 8)
            + spec_scan(src@, table@, shift, 0, 0));
        assert(dst@.subrange(0, 8) =~= dst@.subrange(0, 8) + dst@.subrange(8, 8));
        assert(spec_compress(src@) == dst@.subrange(0, 8) + spec_scan(src@, table@, shift, 0, 0));
    }
    let ghost pre_len = dst.len() as int;
    let mut s: usize = 0;
    let mut lit: usize = 0;

    while s + 3 < src.len()
        invariant
            4 < src.len() <= MAX_BLOCK_INPUT_LEN,
            dst.len() == pre_len,
            dst.len() >= spec_max_compressed_len(src@.len()),
            8 <= d <= dst.len(),
            lit <= s <= src.len(),
            18 <= shift <= 24,
            table.len() == table_size,
            256 <= table_size <= 16384,
            table_size == (1u32 << ((32 - shift) as u32)) as usize,
            forall|e: int|
                0 <= e < table.len() ==> #[trigger] table@[e] <= s && (table@[e] > 0 ==> table@[e]
                    - 1 + 3 < src.len()),
            dst@.subrange(0, 8) == le_bytes(n_src, 8),
            60 * d <= 540 + 61 * lit,
            shift == spec_table_shift(src@.len() as int),
            spec_compress(src@) == dst@.subrange(0, d as int) + spec_scan(
                src@,
                table@,
                shift,
                s as int,
                lit as int,
            ),
            forall|rest: Seq<u8>|
                #![trigger decode_elems(dst@.subrange(8, d as int) + rest, Seq::<u8>::empty())]
                decode_elems(dst@.subrange(8, d as int) + rest, Seq::<u8>::empty()) == decode_elems(
                    rest,
                    src@.subrange(0, lit as int),
                ),
        decreases src.len() - s,
    {
        let b0 = src[s];
        let b1 = src[s + 1];
        let b2 = src[s + 2];
        let b3 = src[s + 3];
        let hv: u32 = (b0 as u32) + 256 * (b1 as u32) + 65536 * (b2 as u32) + 16777216 * (
        b3 as u32);
        let hm: u32 = hv.wrapping_mul(0x1e35a7bd);
        let idx: usize = (hm >> shift) as usize;
        proof {
            assert(hm >> shift < (1u32 << ((32 - shift) as u32))) by (bit_vector)
                requires
                    18 <= shift <= 24,
            ;
        }
        proof {
            assert(spec_hash_at(src@, s as int, shift) == idx as int);
        }
        // the table stores position + 1; zero means an empty slot
        let ghost table_prev = table@;
        let prev: usize = table[idx];
        table[idx] = s + 1;
        if prev == 0 || s - (prev - 1) >= MAX_OFFSET || !(src[prev - 1] == b0 && src[prev] == b1
            && src[prev + 1] == b2 && src[prev + 2] == b3) {
            // no usable match: the byte at s joins the pending literal run
            proof {
                assert(spec_scan(src@, table_prev, shift, s as int, lit as int) == spec_scan(
                    src@,
                    table@,
                    shift,
                    s + 1,
                    lit as int,
                ));
            }
            s += 1;
            continue;
        }
        // a match: remember where it starts, then extend it as far as it goes
        let s0 = s;
        let t0 = prev - 1;
        let off = s0 - t0;
        let mut tt = t0 + 4;
        s += 4;
        while s < src.len() && src[s] == src[tt]
            invariant
                s0 + 4 <= s <= src.len(),
                1 <= off <= s0,
                s0 + 4 <= src.len(),
                tt + off == s,
                match_end(src@, s as int, off as int) == match_end(src@, s0 + 4, off as int),
                forall|x: int| s0 <= x < s ==> #[trigger] src@[x] == src@[x - off],
            decreases src.len() - s,
        {
            s += 1;
            tt += 1;
        }
        let ml = s - s0;
        proof {
            assert(match_end(src@, s as int, off as int) == s as int);
            assert(s as int == match_end(src@, s0 + 4, off as int));
        }
        let ghost dst_pre_match = dst@;
        let w = emit_match(dst, d, src, lit, s0, off, ml);
        proof {
            let flushed = if lit != s0 {
                spec_literal_enc(src@.subrange(lit as int, s0 as int))
            } else {
                Seq::<u8>::empty()
            };
            assert(spec_scan(src@, table_prev, shift, s0 as int, lit as int) == flushed
                + spec_copy_enc(off as int, ml as int) + spec_scan(
                src@,
                table@,
                shift,
                s as int,
                s as int,
            ));
            assert(dst@.subrange(0, d as int) =~= dst_pre_match.subrange(0, d as int));
            assert(dst@.subrange(0, d + w as int) =~= dst@.subrange(0, d as int) + dst@.subrange(
                d as int,
                d + w as int,
            ));
            assert(spec_compress(src@) == dst@.subrange(0, d + w as int) + spec_scan(
                src@,
                table@,
                shift,
                s as int,
                s as int,
            )) by {
                assert((dst@.subrange(0, d as int) + (flushed + spec_copy_enc(
                    off as int,
                    ml as int,
                ))) + spec_scan(src@, table@, shift, s as int, s as int) =~= dst@.subrange(
                    0,
                    d as int,
                ) + (flushed + spec_copy_enc(off as int, ml as int) + spec_scan(
                    src@,
                    table@,
                    shift,
                    s as int,
                    s as int,
                )));
            };
        }
        d += w;
        lit = s;
    }

    // flush the last pending literal run
    let ghost d_scan = d as int;
    let ghost lit_scan = lit as int;
    let ghost dst_scan = dst@;
    if lit != src.len() {
        let w = flush_literal(dst, d, src, lit, src.len());
        proof {
            assert(dst@.subrange(0, d_scan) =~= dst_scan.subrange(0, d_scan));
            assert(dst@.subrange(0, d + w as int) =~= dst@.subrange(0, d as int) + dst@.subrange(
                d as int,
                d + w as int,
            ));
        }
        d += w;
    }

    proof {
        let init_table = Seq::new(spec_table_size(spec_table_shift(src@.len() as int)) as nat, |x: int| 0usize);
        assert(forall|e: int| 0 <= e < init_table.len() ==> #[trigger] init_table[e] <= 0);
        lemma_scan_window(src@, init_table, shift, 0, 0, Seq::<u8>::empty());
        lemma_le_bytes_len(n_src, 8);
        let scanimg = spec_scan(src@, init_table, shift, 0, 0);
        assert(scanimg + Seq::<u8>::empty() =~= scanimg);
        assert(spec_compress(src@).skip(8) =~= scanimg);
        assert(copies_within(spec_compress(src@).skip(8), MAX_OFFSET as int));
        assert(spec_compress(src@) == dst@.subrange(0, d as int)) by {
            if lit_scan == src@.len() {
                assert(spec_scan(src@, table@, shift, s as int, lit_scan) =~= Seq::<u8>::empty());
                assert(dst@.subrange(0, d as int) + Seq::<u8>::empty() =~= dst@.subrange(
                    0,
                    d as int,
                ));
            }
        };
    }

    proof {
        assert(dst@.subrange(8, d as int) + Seq::<u8>::empty() =~= dst@.subrange(8, d as int));
        assert(src@.subrange(0, src@.len() as int) =~= src@);
        assert(decode_elems(dst@.subrange(8, d as int), Seq::<u8>::empty()) == Some(src@));
        lemma_pow256_values();
        lemma_block_assemble(dst@, d as int, src@);
        lemma_budget_bound(d as int, src@.len() as int);
    }
    Ok(d)
}



/// The exact byte image of one framed data chunk: the type byte chosen by
/// the discard policy (raw storage unless the compressed element bytes
/// undercut 7/8 of the chunk), the 24-bit little-endian body length, the
/// CRC32 of the uncompressed bytes, then the stored body.
pub open spec fn spec_frame(chunk: Seq<u8>) -> Seq<u8> {
    let blk = spec_compress(chunk);
    let raw = 8 * (blk.len() as int - 8) >= 7 * chunk.len();
    let body = if raw {
        chunk
    } else {
        blk
    };
    let ty = if raw {
        CHUNK_TYPE_UNCOMPRESSED_DATA
    } else {
        CHUNK_TYPE_COMPRESSED_DATA
    };
    seq![ty] + le_bytes((body.len() + 4) as nat, 3) + le_bytes(crc32_ieee(chunk) as nat, 4) + body
}

/// Builds one framed data chunk for `chunk`: a four-byte header, the CRC32
/// of the uncompressed bytes, and either the compressed block or the bytes
/// themselves. The compressed form is kept only when its element stream is
/// more than 12.5% smaller than the chunk; otherwise the chunk is stored
/// raw, so incompressible data never grows by more than the framing.
#[verifier::rlimit(100)]
#[verifier::spinoff_prover]
pub fn frame_chunk(chunk: &Vec<u8>) -> (frame: Vec<u8>)
    requires
        1 <= chunk.len() <= MAX_UNCOMPRESSED_CHUNK_LEN,
    ensures
        8 <= frame@.len() <= 16 + chunk@.len(),
        frame@[0] == CHUNK_TYPE_COMPRESSED_DATA || frame@[0] == CHUNK_TYPE_UNCOMPRESSED_DATA,
        frame@[0] == CHUNK_TYPE_UNCOMPRESSED_DATA ==> frame@.skip(8) == chunk@ && frame@.len() == 8
            + chunk@.len(),
        frame@[0] == CHUNK_TYPE_COMPRESSED_DATA ==> 8 * (frame@.len() - 16) < 7 * chunk@.len(),
        frame@ == spec_frame(chunk@),
        forall|rest: Seq<u8>|
            #![trigger decode_chunks(frame@ + rest, true)]
            decode_chunks(frame@ + rest, true) == prepend_decoded(
                chunk@,
                decode_chunks(rest, true),
            ),
        forall|rest: Seq<u8>|
            #![trigger count_data_chunks(frame@ + rest)]
            count_data_chunks(frame@ + rest) == bump_count(1, count_data_chunks(rest)),
{
    let ck: u32 = checksum_ieee(chunk, 0, chunk.len());
    // scratch sized to the worst case for a full 65536-byte chunk
    let mut scratch: Vec<u8> = Vec::new();
    while scratch.len() < 76490
        invariant
            scratch.len() <= 76490,
        decreases 76490 - scratch.len(),
    {
        scratch.push(0u8);
    }
    proof {
        vstd::arithmetic::div_mod::lemma_div_is_ordered(chunk@.len() as int, 65536, 6);
    }
    let n: usize = match compress(&mut scratch, chunk) {
        Ok(n) => n,
        Err(_) => {
            // unreachable: the scratch buffer meets the worst case and the
            // chunk length respects the input ceiling
            proof {
                assert(false);
            }
            0
        },
    };
    // the discard policy: keep the compressed form only when its element
    // bytes (beyond the fixed block header) undercut 7/8 of the chunk
    let compressed_kept: bool = 8 * (n - 8) < 7 * chunk.len();
    let chunk_type: u8 = if compressed_kept {
        CHUNK_TYPE_COMPRESSED_DATA
    } else {
        CHUNK_TYPE_UNCOMPRESSED_DATA
    };
    let body_len: usize = if compressed_kept {
        n
    } else {
        chunk.len()
    };
    let chunk_len: usize = body_len + 4;
    let mut frame: Vec<u8> = Vec::new();
    frame.push(chunk_type);
    frame.push((chunk_len % 256) as u8);
    frame.push(((chunk_len / 256) % 256) as u8);
    frame.push((chunk_len / 65536) as u8);
    frame.push((ck % 256) as u8);
    frame.push((((ck as usize) / 256) % 256) as u8);
    frame.push((((ck as usize) / 65536) % 256) as u8);
    frame.push(((ck as usize) / 16777216) as u8);
    let ghost hdr = frame@;
    if compressed_kept {
        append_range(&mut frame, &scratch, 0, n);
    } else {
        append_range(&mut frame, chunk, 0, chunk.len());
    }
    proof {
        let bodyseq = if compressed_kept {
            scratch@.subrange(0, n as int)
        } else {
            chunk@
        };
        assert(chunk@.subrange(0, chunk@.len() as int) =~= chunk@);
        assert(hdr =~= seq![
            chunk_type,
            (chunk_len % 256) as u8,
            ((chunk_len / 256) % 256) as u8,
            (chunk_len / 65536) as u8,
            (ck % 256) as u8,
            (((ck as usize) / 256) % 256) as u8,
            (((ck as usize) / 65536) % 256) as u8,
            ((ck as usize) / 16777216) as u8,
        ]);
        assert(frame@ == hdr + bodyseq);
        assert(frame@.len() == 8 + body_len);
        lemma_le3_reconstruct(chunk_len as int);
        lemma_le4_reconstruct(ck as int);
        assert(frame@.skip(8) =~= bodyseq);
        assert(frame@ == spec_frame(chunk@)) by {
            assert(pow256(0) == 1);
            assert(pow256(1) == 256);
            assert(pow256(2) == 65536);
            assert(pow256(3) == 16777216);
            assert(scratch@.subrange(0, n as int) == spec_compress(chunk@));
            assert forall|j: int| 0 <= j < 3 implies le_bytes(chunk_len as nat, 3)[j] == hdr[1
                + j] by {
                lemma_le_bytes_index(chunk_len as nat, 3, j);
            };
            lemma_le_bytes_len(chunk_len as nat, 3);
            assert(le_bytes(chunk_len as nat, 3) =~= seq![hdr[1], hdr[2], hdr[3]]);
            assert forall|j: int| 0 <= j < 4 implies le_bytes(ck as nat, 4)[j] == hdr[4 + j] by {
                lemma_le_bytes_index(ck as nat, 4, j);
            };
            lemma_le_bytes_len(ck as nat, 4);
            assert(le_bytes(ck as nat, 4) =~= seq![hdr[4], hdr[5], hdr[6], hdr[7]]);
            assert(frame@ =~= seq![hdr[0]] + le_bytes(chunk_len as nat, 3) + le_bytes(
                ck as nat,
                4,
            ) + bodyseq);
        };
        assert forall|rest: Seq<u8>|
            #![trigger decode_chunks(frame@ + rest, true)]
            decode_chunks(frame@ + rest, true) == prepend_decoded(
                chunk@,
                decode_chunks(rest, true),
            ) by {
            let s = frame@ + rest;
            assert(s[0] == chunk_type);
            assert(s.subrange(1, 4) =~= seq![frame@[1], frame@[2], frame@[3]]);
            lemma_le_value_small(s.subrange(1, 4));
            assert(le_value(s.subrange(1, 4)) == chunk_len);
            let body = s.subrange(4, 4 + chunk_len as int);
            assert(body.subrange(0, 4) =~= seq![frame@[4], frame@[5], frame@[6], frame@[7]]);
            lemma_le_value_small(body.subrange(0, 4));
            assert(le_value(body.subrange(0, 4)) == ck);
            let payload = body.skip(4);
            assert(payload =~= bodyseq);
            assert(s.skip(4 + chunk_len as int) =~= rest);
            assert(crc32_ieee(chunk@) == ck);
            if compressed_kept {
                assert(block_decode(payload) == Some(chunk@));
                assert(le_value(payload.subrange(0, 8)) == chunk@.len());
                assert(decode_chunks(s, true) == prepend_decoded(
                    chunk@,
                    decode_chunks(rest, true),
                ));
            } else {
                assert(crc32_ieee(payload) == ck);
                assert(decode_chunks(s, true) == prepend_decoded(
                    chunk@,
                    decode_chunks(rest, true),
                ));
            }
        };
        assert forall|rest: Seq<u8>|
            #![trigger count_data_chunks(frame@ + rest)]
            count_data_chunks(frame@ + rest) == bump_count(1, count_data_chunks(rest)) by {
            let s = frame@ + rest;
            assert(s[0] == chunk_type);
            assert(s.subrange(1, 4) =~= seq![frame@[1], frame@[2], frame@[3]]);
            lemma_le_value_small(s.subrange(1, 4));
            assert(le_value(s.subrange(1, 4)) == chunk_len);
            assert(s.skip(4 + chunk_len as int) =~= rest);
        };
    }
    frame
}


/// The exact byte image of the data chunks for `src`, split at 65536-byte
/// boundaries from offset `o` on: chunk `i` covers `src[65536 * i ..]`.
pub open spec fn spec_stream_frames(src: Seq<u8>, o: int) -> Seq<u8>
    decreases src.len() - o,
{
    if !(0 <= o < src.len()) {
        Seq::empty()
    } else {
        let step = if src.len() - o > 65536 {
            65536int
        } else {
            src.len() - o
        };
        spec_frame(src.subrange(o, o + step)) + spec_stream_frames(src, o + step)
    }
}

/// The stream writer. It owns only the one-shot flag that says whether the
/// stream-identifier chunk went out; each `write` returns the frames to hand
/// to the transport.
pub struct Compressor {
    pub wrote_header: bool,
}

impl Compressor {
    /// A writer that has not yet framed anything.
    pub fn new() -> (c: Compressor)
        ensures
            !c.wrote_header,
    {
        Compressor { wrote_header: false }
    }

    /// Encodes `src` as framed chunks of at most 65536 uncompressed bytes
    /// each, preceded by the stream-identifier chunk on the first call, and
    /// returns the frame bytes. Decoding what is returned, followed by any
    /// later frames, yields `src` followed by what those frames hold; the
    /// frames never exceed `max_compressed_len(src.len())` in all.
    #[verifier::rlimit(100)]
    #[verifier::spinoff_prover]
    pub fn write(&mut self, src: &Vec<u8>) -> (out: Vec<u8>)
        ensures
            final(self).wrote_header,
            out@.len() <= 32 + src@.len() + src@.len() / 6,
            forall|rest: Seq<u8>|
                #![trigger decode_chunks(out@ + rest, old(self).wrote_header)]
                decode_chunks(out@ + rest, old(self).wrote_header) == prepend_decoded(
                    src@,
                    decode_chunks(rest, true),
                ),
            decode_chunks(out@, old(self).wrote_header) == Ok::<Seq<u8>, SnappyError>(src@),
            out@ == (if old(self).wrote_header {
                Seq::<u8>::empty()
            } else {
                magic_chunk_bytes()
            }) + spec_stream_frames(src@, 0),
            count_data_chunks(out@) == Some((src@.len() + 65535) as int / 65536),
            src@.len() > 65536 ==> (count_data_chunks(out@) matches Some(c) && c >= 2),
    {
        let ghost h0 = self.wrote_header;
        let mut out: Vec<u8> = Vec::new();
        if !self.wrote_header {
            out.push(0xffu8);
            out.push(0x06u8);
            out.push(0x00u8);
            out.push(0x00u8);
            out.push(0x73u8);
            out.push(0x4eu8);
            out.push(0x61u8);
            out.push(0x50u8);
            out.push(0x70u8);
            out.push(0x59u8);
            self.wrote_header = true;
            proof {
                assert(out@ =~= magic_chunk_bytes());
            }
        }
        proof {
            assert forall|rest: Seq<u8>|
                #![trigger decode_chunks(out@ + rest, h0)]
                decode_chunks(out@ + rest, h0) == decode_chunks(rest, true) by {
                if h0 {
                    assert(out@ + rest =~= rest);
                } else {
                    let s = out@ + rest;
                    assert(s[0] == 0xffu8);
                    assert(s.subrange(1, 4) =~= seq![0x06u8, 0x00u8, 0x00u8]);
                    lemma_le_value_small(s.subrange(1, 4));
                    assert(le_value(s.subrange(1, 4)) == 6);
                    assert(s.subrange(4, 10) =~= magic_body());
                    assert(s.skip(10) =~= rest);
                }
            };
            assert forall|rest: Seq<u8>|
                #![trigger count_data_chunks(out@ + rest)]
                count_data_chunks(out@ + rest) == count_data_chunks(rest) by {
                if h0 {
                    assert(out@ + rest =~= rest);
                } else {
                    let s = out@ + rest;
                    assert(s[0] == 0xffu8);
                    assert(s.subrange(1, 4) =~= seq![0x06u8, 0x00u8, 0x00u8]);
                    lemma_le_value_small(s.subrange(1, 4));
                    assert(le_value(s.subrange(1, 4)) == 6);
                    assert(s.skip(10) =~= rest);
                }
            };
        }
        let ghost base = if h0 {
            Seq::<u8>::empty()
        } else {
            magic_chunk_bytes()
        };
        proof {
            assert(out@ =~= base);
        }
        let mut o: usize = 0;
        while o < src.len()
            invariant
                o <= src.len(),
                o % 65536 == 0 || o == src.len(),
                self.wrote_header,
                base == (if h0 {
                    Seq::<u8>::empty()
                } else {
                    magic_chunk_bytes()
                }),
                out@ + spec_stream_frames(src@, o as int) == base + spec_stream_frames(src@, 0),
                out@.len() <= 10 + o + 16 * ((o + 65535) / 65536),
                forall|rest: Seq<u8>|
                    #![trigger decode_chunks(out@ + rest, h0)]
                    decode_chunks(out@ + rest, h0) == prepend_decoded(
                        src@.subrange(0, o as int),
                        decode_chunks(rest, true),
                    ),
                forall|rest: Seq<u8>|
                    #![trigger count_data_chunks(out@ + rest)]
                    count_data_chunks(out@ + rest) == bump_count(
                        (o + 65535) as int / 65536,
                        count_data_chunks(rest),
                    ),
            decreases src.len() - o,
        {
            proof {
                // inside the loop, o is still a whole number of full chunks
                assert(o % 65536 == 0);
            }
            let step: usize = if src.len() - o > 65536 {
                65536
            } else {
                src.len() - o
            };
            let mut chunkv: Vec<u8> = Vec::new();
            append_range(&mut chunkv, src, o, o + step);
            proof {
                assert(chunkv@ =~= src@.subrange(o as int, o + step as int));
            }
            let frame = frame_chunk(&chunkv);
            let ghost out_pre = out@;
            append_range(&mut out, &frame, 0, frame.len());
            proof {
                assert(frame@.subrange(0, frame@.len() as int) =~= frame@);
                assert(out@ == out_pre + frame@);
                assert(out@ + spec_stream_frames(src@, o + step as int) == base
                    + spec_stream_frames(src@, 0)) by {
                    assert(spec_stream_frames(src@, o as int) == frame@ + spec_stream_frames(
                        src@,
                        o + step as int,
                    ));
                    assert((out_pre + frame@) + spec_stream_frames(src@, o + step as int)
                        =~= out_pre + (frame@ + spec_stream_frames(src@, o + step as int)));
                };
                assert forall|rest: Seq<u8>|
                    #![trigger decode_chunks(out@ + rest, h0)]
                    decode_chunks(out@ + rest, h0) == prepend_decoded(
                        src@.subrange(0, o + step as int),
                        decode_chunks(rest, true),
                    ) by {
                    assert((out_pre + frame@) + rest =~= out_pre + (frame@ + rest));
                    assert(decode_chunks(out_pre + (frame@ + rest), h0) == prepend_decoded(
                        src@.subrange(0, o as int),
                        decode_chunks(frame@ + rest, true),
                    ));
                    assert(decode_chunks(frame@ + rest, true) == prepend_decoded(
                        chunkv@,
                        decode_chunks(rest, true),
                    ));
                    crate::definitions::lemma_prepend_assoc(
                        src@.subrange(0, o as int),
                        chunkv@,
                        decode_chunks(rest, true),
                    );
                    assert(src@.subrange(0, o as int) + chunkv@ =~= src@.subrange(
                        0,
                        o + step as int,
                    ));
                };
                assert forall|rest: Seq<u8>|
                    #![trigger count_data_chunks(out@ + rest)]
                    count_data_chunks(out@ + rest) == bump_count(
                        (o + 65535) as int / 65536 + 1,
                        count_data_chunks(rest),
                    ) by {
                    assert((out_pre + frame@) + rest =~= out_pre + (frame@ + rest));
                    assert(count_data_chunks(out_pre + (frame@ + rest)) == bump_count(
                        (o + 65535) as int / 65536,
                        count_data_chunks(frame@ + rest),
                    ));
                    assert(count_data_chunks(frame@ + rest) == bump_count(
                        1,
                        count_data_chunks(rest),
                    ));
                };
                // the frame count bound steps by one chunk of 16 overhead
                let q = (o as int) / 65536;
                vstd::arithmetic::div_mod::lemma_fundamental_div_mod(o as int, 65536);
                vstd::arithmetic::div_mod::lemma_fundamental_div_mod_converse(
                    o as int + 65535,
                    65536,
                    q,
                    65535,
                );
                vstd::arithmetic::div_mod::lemma_fundamental_div_mod_converse(
                    o + step as int + 65535,
                    65536,
                    q + 1,
                    step as int - 1,
                );
            }
            o += step;
        }
        proof {
            assert(src@.subrange(0, o as int) =~= src@);
            // instantiating the composition at an empty continuation
            assert(out@ + Seq::<u8>::empty() =~= out@);
            assert(decode_chunks(Seq::<u8>::empty(), true) == Ok::<Seq<u8>, SnappyError>(Seq::<u8>::empty()));
            assert(decode_chunks(out@, h0) == prepend_decoded(
                src@,
                Ok(Seq::<u8>::empty()),
            ));
            assert(src@ + Seq::<u8>::empty() =~= src@);
            assert(out@ == base + spec_stream_frames(src@, 0)) by {
                assert(spec_stream_frames(src@, o as int) =~= Seq::<u8>::empty());
                assert(out@ + Seq::<u8>::empty() =~= out@);
            };
            assert(count_data_chunks(Seq::<u8>::empty()) == Some(0int));
            assert(count_data_chunks(out@) == Some((src@.len() + 65535) as int / 65536));
            if src@.len() > 65536 {
                vstd::arithmetic::div_mod::lemma_fundamental_div_mod(src@.len() as int + 65535, 65536);
                vstd::arithmetic::div_mod::lemma_mod_bound(src@.len() as int + 65535, 65536);
            }
            // the total length never exceeds the worst case
            let nn = src@.len() as int;
            if nn > 0 {
                vstd::arithmetic::div_mod::lemma_fundamental_div_mod(nn + 65535, 65536);
                vstd::arithmetic::div_mod::lemma_mod_bound(nn + 65535, 65536);
                vstd::arithmetic::div_mod::lemma_fundamental_div_mod(nn, 65536);
                vstd::arithmetic::div_mod::lemma_mod_bound(nn, 65536);
                vstd::arithmetic::div_mod::lemma_fundamental_div_mod(nn, 4096);
                vstd::arithmetic::div_mod::lemma_mod_bound(nn, 4096);
                vstd::arithmetic::div_mod::lemma_fundamental_div_mod(nn, 6);
                vstd::arithmetic::div_mod::lemma_mod_bound(nn, 6);
                assert((nn + 65535) / 65536 <= nn / 65536 + 1);
                assert(16 * (nn / 65536) <= nn / 4096) by {
                    vstd::arithmetic::div_mod::lemma_fundamental_div_mod(nn, 65536);
                    assert(nn == 65536 * (nn / 65536) + nn % 65536);
                    vstd::arithmetic::div_mod::lemma_fundamental_div_mod(nn, 4096);
                };
                vstd::arithmetic::div_mod::lemma_div_is_ordered_by_denominator(nn, 6, 4096);
            }
        }
        out
    }
}

/// Encodes `src` as one complete stream: the stream-identifier chunk
/// followed by its data chunks. Decoding the result returns `src` exactly.
pub fn compress_stream(src: &Vec<u8>) -> (out: Vec<u8>)
    ensures
        decode_chunks(out@, false) == Ok::<Seq<u8>, SnappyError>(src@),
        out@ == magic_chunk_bytes() + spec_stream_frames(src@, 0),
        out@.len() <= 32 + src@.len() + src@.len() / 6,
        count_data_chunks(out@) == Some((src@.len() + 65535) as int / 65536),
        src@.len() > 65536 ==> (count_data_chunks(out@) matches Some(c) && c >= 2),
{
    let mut c = Compressor::new();
    c.write(src)
}

} // verus!
