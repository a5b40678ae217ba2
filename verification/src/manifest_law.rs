//! What patching a binary manifest does to its string pool: the pool of the
//! patched document reads back as the original pool with its strings
//! replaced by the table.

use vstd::prelude::*;
use crate::axml::{
    index_of, le16, le32, lemma_le32_round_trip, lemma_scan_found_wf, replaced_strings, spec_decode_pool_string,
    spec_decode_pool_strings, spec_encode_pool, spec_patch_attrs, spec_patch_chunk,
    spec_patch_flags, spec_patch_manifest, spec_patch_named, spec_patch_walk, spec_pool_at,
    spec_scan_pool, spec_swap_pool, splice, u16_at, u32_at, PatchOutcome, PoolScan, PoolView,
    WalkOutcome, RES_STRING_POOL_TYPE, RES_XML_START_ELEMENT_TYPE,
};

verus! {

/// Whether `b` and `c` hold the same bytes at the positions from `lo` up to `hi`.
pub open spec fn agree(b: Seq<u8>, c: Seq<u8>, lo: int, hi: int) -> bool {
    forall|k: int| lo <= k < hi ==> #[trigger] b[k] == c[k]
}

// ---------------------------------------------------------------------------
// Reading depends only on the bytes read
// ---------------------------------------------------------------------------

proof fn lemma_decode_local(
    b: Seq<u8>,
    c: Seq<u8>,
    offsets: Seq<int>,
    data_start: int,
    data_end: int,
    utf8: bool,
    n: nat,
)
    requires
        0 <= data_start,
        data_end <= b.len(),
        data_end <= c.len(),
        agree(b, c, data_start, data_end),
        forall|i: int| 0 <= i < n ==> offsets[i] >= 0,
    ensures
        spec_decode_pool_strings(b, offsets, data_start, data_end, utf8, n)
            == spec_decode_pool_strings(c, offsets, data_start, data_end, utf8, n),
    decreases n,
{
    if n > 0 {
        lemma_decode_local(b, c, offsets, data_start, data_end, utf8, (n - 1) as nat);
        let start = data_start + offsets[n - 1];
        if start < data_end {
            assert(b.subrange(start, data_end) =~= c.subrange(start, data_end));
        }
        assert(spec_decode_pool_string(b, offsets[n - 1], data_start, data_end, utf8)
            == spec_decode_pool_string(c, offsets[n - 1], data_start, data_end, utf8));
    }
}

/// Reading a pool chunk depends only on the bytes of the chunk.
proof fn lemma_pool_at_local(b: Seq<u8>, c: Seq<u8>, off: int, hs: int, cs: int)
    requires
        0 <= off,
        hs <= cs,
        off + cs <= b.len(),
        off + cs <= c.len(),
        agree(b, c, off, off + cs),
    ensures
        spec_pool_at(b, off, hs, cs) == spec_pool_at(c, off, hs, cs),
{
    reveal(spec_pool_at);
    if hs >= 28 {
        assert(u32_at(b, off + 8) == u32_at(c, off + 8));
        assert(u32_at(b, off + 12) == u32_at(c, off + 12));
        assert(u32_at(b, off + 16) == u32_at(c, off + 16));
        assert(u32_at(b, off + 20) == u32_at(c, off + 20));
        assert(u32_at(b, off + 24) == u32_at(c, off + 24));
        let sc = u32_at(b, off + 8);
        let stc = u32_at(b, off + 12);
        let flags = u32_at(b, off + 16) as u32;
        let ss = u32_at(b, off + 20);
        let sts = u32_at(b, off + 24);
        let os = off + hs;
        if (sc + stc) * 4 <= usize::MAX && os + (sc + stc) * 4 <= off + cs {
            let data_start = off + ss;
            let data_end = if sts == 0 {
                off + cs
            } else {
                off + sts
            };
            if data_start <= data_end && data_end <= off + cs {
                let ob = Seq::new(sc as nat, |i: int| u32_at(b, os + 4 * i));
                let oc = Seq::new(sc as nat, |i: int| u32_at(c, os + 4 * i));
                assert forall|i: int| 0 <= i < sc implies ob[i] == oc[i] by {
                    assert(b[os + 4 * i] == c[os + 4 * i]);
                    assert(b[os + 4 * i + 1] == c[os + 4 * i + 1]);
                    assert(b[os + 4 * i + 2] == c[os + 4 * i + 2]);
                    assert(b[os + 4 * i + 3] == c[os + 4 * i + 3]);
                }
                assert(ob =~= oc);
                lemma_decode_local(
                    b,
                    c,
                    ob,
                    data_start,
                    data_end,
                    flags & crate::axml::UTF8_FLAG != 0,
                    sc as nat,
                );
                let sb = Seq::new(stc as nat, |i: int| u32_at(b, os + 4 * (sc + i)) as u32);
                let sc2 = Seq::new(stc as nat, |i: int| u32_at(c, os + 4 * (sc + i)) as u32);
                assert forall|i: int| 0 <= i < stc implies sb[i] == sc2[i] by {
                    let at = os + 4 * (sc + i);
                    assert(b[at] == c[at]);
                    assert(b[at + 1] == c[at + 1]);
                    assert(b[at + 2] == c[at + 2]);
                    assert(b[at + 3] == c[at + 3]);
                }
                assert(sb =~= sc2);
                if sts != 0 {
                    assert(b.subrange(off + sts, off + cs) =~= c.subrange(off + sts, off + cs));
                }
            }
        }
    }
}

/// The walk over the chunks from `x` on reads only the bytes from `x` on.
proof fn lemma_scan_suffix(b: Seq<u8>, c: Seq<u8>, x: int)
    requires
        0 <= x,
        b.len() == c.len(),
        agree(b, c, x, b.len() as int),
    ensures
        spec_scan_pool(b, x) == spec_scan_pool(c, x),
    decreases b.len() - x,
{
    if x + 8 <= b.len() {
        let cs = u32_at(b, x + 4);
        let hs = u16_at(b, x + 2);
        assert(u16_at(b, x) == u16_at(c, x));
        assert(u16_at(b, x + 2) == u16_at(c, x + 2));
        assert(u32_at(b, x + 4) == u32_at(c, x + 4));
        if hs <= cs && x + cs <= b.len() {
            lemma_pool_at_local(b, c, x, hs, cs);
            if cs > 0 {
                lemma_scan_suffix(b, c, x + cs);
            }
        }
    }
}

// ---------------------------------------------------------------------------
// The attribute walks write inside start elements only
// ---------------------------------------------------------------------------

proof fn lemma_attrs_frame(
    b: Seq<u8>,
    pos: int,
    size: int,
    remaining: int,
    end: int,
    target: int,
    value: u32,
)
    requires
        0 <= pos,
        size >= 20,
        end <= b.len(),
    ensures
        match spec_patch_attrs(b, pos, size, remaining, end, target, value) {
            Ok(b2) => b2.len() == b.len() && agree(b, b2, 0, pos + 16) && agree(
                b,
                b2,
                end,
                b.len() as int,
            ),
            Err((b2, _)) => b2.len() == b.len(),
        },
    decreases remaining,
{
    if remaining > 0 && pos + 20 <= end {
        let b2 = if u32_at(b, pos + 4) == target {
            splice(b, pos + 16, le32(value as int))
        } else {
            b
        };
        assert(b2.len() == b.len());
        assert(agree(b, b2, 0, pos + 16));
        assert(agree(b, b2, pos + 20, b.len() as int));
        lemma_attrs_frame(b2, pos + size, size, remaining - 1, end, target, value);
        match spec_patch_attrs(b2, pos + size, size, remaining - 1, end, target, value) {
            Ok(b3) => {
                assert(agree(b, b3, 0, pos + 16));
                assert(agree(b, b3, end, b.len() as int));
            },
            Err(_) => {},
        }
    }
}

proof fn lemma_chunk_frame(
    b: Seq<u8>,
    off: int,
    kind: int,
    hs: int,
    cs: int,
    target: int,
    value: u32,
)
    requires
        0 <= off,
        off + cs <= b.len(),
    ensures
        spec_patch_chunk(b, off, kind, hs, cs, target, value) matches Ok(b2) ==> b2.len() == b.len()
            && agree(b, b2, 0, off + 16) && agree(b, b2, off + cs, b.len() as int),
        kind != RES_XML_START_ELEMENT_TYPE ==> spec_patch_chunk(
            b,
            off,
            kind,
            hs,
            cs,
            target,
            value,
        ) == Ok::<Seq<u8>, (Seq<u8>, crate::axml::AxmlError)>(b),
{
    if kind == RES_XML_START_ELEMENT_TYPE && hs >= 16 && cs >= hs + 20 {
        let ext = off + hs;
        let size = u16_at(b, ext + 10);
        if size >= 20 {
            lemma_attrs_frame(
                b,
                ext + u16_at(b, ext + 8),
                size,
                u16_at(b, ext + 12),
                off + cs,
                target,
                value,
            );
        }
    }
}

/// A finished walk from `y` leaves the length and every byte before `y + 16`.
proof fn lemma_walk_frame(b: Seq<u8>, y: int, target: int, value: u32)
    requires
        0 <= y,
    ensures
        spec_patch_walk(b, y, target, value) matches WalkOutcome::Done(b2) ==> b2.len() == b.len()
            && agree(b, b2, 0, y + 16),
    decreases b.len() - y,
{
    if y + 8 <= b.len() {
        let kind = u16_at(b, y);
        let hs = u16_at(b, y + 2);
        let cs = u32_at(b, y + 4);
        if hs <= cs && y + cs <= b.len() {
            lemma_chunk_frame(b, y, kind, hs, cs, target, value);
            match spec_patch_chunk(b, y, kind, hs, cs, target, value) {
                Ok(b_mid) => {
                    if cs > 0 {
                        lemma_walk_frame(b_mid, y + cs, target, value);
                        match spec_patch_walk(b_mid, y + cs, target, value) {
                            WalkOutcome::Done(b2) => {
                                assert(agree(b, b2, 0, y + 16));
                            },
                            _ => {},
                        }
                    }
                },
                Err(_) => {},
            }
        }
    }
}

/// A finished attribute walk from `y` leaves the result of the pool walk
/// from `y` as it was.
proof fn lemma_walk_keeps_scan(b: Seq<u8>, y: int, target: int, value: u32)
    requires
        0 <= y,
    ensures
        spec_patch_walk(b, y, target, value) matches WalkOutcome::Done(b2) ==> spec_scan_pool(b2, y)
            == spec_scan_pool(b, y),
    decreases b.len() - y,
{
    if y + 8 <= b.len() {
        let kind = u16_at(b, y);
        let hs = u16_at(b, y + 2);
        let cs = u32_at(b, y + 4);
        if hs <= cs && y + cs <= b.len() {
            lemma_chunk_frame(b, y, kind, hs, cs, target, value);
            match spec_patch_chunk(b, y, kind, hs, cs, target, value) {
                Ok(b_mid) => {
                    if cs > 0 {
                        lemma_walk_keeps_scan(b_mid, y + cs, target, value);
                        lemma_walk_frame(b_mid, y + cs, target, value);
                        lemma_scan_suffix(b_mid, b, y + cs);
                        match spec_patch_walk(b_mid, y + cs, target, value) {
                            WalkOutcome::Done(b2) => {
                                assert(u16_at(b2, y) == kind);
                                assert(u16_at(b2, y + 2) == hs);
                                assert(u32_at(b2, y + 4) == cs);
                                if kind == RES_STRING_POOL_TYPE {
                                    lemma_pool_at_local(b, b2, y, hs, cs);
                                }
                            },
                            _ => {},
                        }
                    }
                },
                Err(_) => {},
            }
        }
    }
}

// ---------------------------------------------------------------------------
// The chunks before the pool
// ---------------------------------------------------------------------------

/// Whether a chunk shorter than 4 bytes stands before the string pool in
/// the walk from `off`: its header would then reach into the pool's size field.
pub open spec fn short_chunk_before_pool(b: Seq<u8>, off: int) -> bool
    decreases b.len() - off,
{
    if off < 0 || off + 8 > b.len() {
        false
    } else {
        let kind = u16_at(b, off);
        let hs = u16_at(b, off + 2);
        let cs = u32_at(b, off + 4);
        if cs < hs || off + cs > b.len() {
            false
        } else if kind == RES_STRING_POOL_TYPE {
            false
        } else if cs == 0 {
            false
        } else {
            cs < 4 || short_chunk_before_pool(b, off + cs)
        }
    }
}

proof fn lemma_pool_at_offset(b: Seq<u8>, off: int, hs: int, cs: int)
    ensures
        spec_pool_at(b, off, hs, cs) matches PoolScan::Found(q) ==> q.offset == off && q.header_size
            == hs && q.chunk_size == cs,
{
    reveal(spec_pool_at);
}

/// The pool that the walk from `x` finds is a pool chunk at or after `x`.
proof fn lemma_found_offset(b: Seq<u8>, x: int)
    requires
        0 <= x,
    ensures
        spec_scan_pool(b, x) matches PoolScan::Found(p) ==> {
            &&& x <= p.offset
            &&& p.offset + 8 <= b.len()
            &&& u16_at(b, p.offset) == RES_STRING_POOL_TYPE
            &&& u16_at(b, p.offset + 2) == p.header_size
            &&& u32_at(b, p.offset + 4) == p.chunk_size
        },
    decreases b.len() - x,
{
    if x + 8 <= b.len() {
        let hs = u16_at(b, x + 2);
        let cs = u32_at(b, x + 4);
        lemma_pool_at_offset(b, x, hs, cs);
        if cs > 0 && x + cs <= b.len() {
            lemma_found_offset(b, x + cs);
        }
    }
}

/// A document that agrees with `b` on the chunks before `b`'s pool and on
/// the first four bytes of the pool is walked to the same place.
proof fn lemma_scan_prefix(b: Seq<u8>, c: Seq<u8>, x: int)
    requires
        0 <= x,
        spec_scan_pool(b, x) is Found,
        !short_chunk_before_pool(b, x),
        agree(b, c, x, spec_scan_pool(b, x)->Found_0.offset + 4),
        c.len() >= spec_scan_pool(b, x)->Found_0.offset + 8,
    ensures
        spec_scan_pool(c, x) == spec_scan_pool(c, spec_scan_pool(b, x)->Found_0.offset),
    decreases b.len() - x,
{
    let p = spec_scan_pool(b, x)->Found_0;
    lemma_found_offset(b, x);
    let kind = u16_at(b, x);
    let hs = u16_at(b, x + 2);
    let cs = u32_at(b, x + 4);
    lemma_pool_at_offset(b, x, hs, cs);
    if kind != RES_STRING_POOL_TYPE {
        lemma_found_offset(b, x + cs);
        assert(x + cs <= p.offset);
        assert(u16_at(c, x) == kind);
        assert(u16_at(c, x + 2) == hs);
        assert(u32_at(c, x + 4) == cs);
        lemma_scan_prefix(b, c, x + cs);
    }
}

// ---------------------------------------------------------------------------
// The law
// ---------------------------------------------------------------------------

/// A patched walk result leaves the pool walk from 8 as it was.
proof fn lemma_named_keeps_scan(b: Seq<u8>, index: Option<int>, value: u32)
    ensures
        spec_patch_named(b, index, value) matches WalkOutcome::Done(b2) ==> spec_scan_pool(b2, 8)
            == spec_scan_pool(b, 8) && b2.len() == b.len(),
{
    match index {
        None => {},
        Some(i) => {
            lemma_walk_keeps_scan(b, 8, i, value);
            lemma_walk_frame(b, 8, i, value);
        },
    }
}

/// Both attribute walks of the patch leave the pool walk from 8 and the length.
proof fn lemma_flags_keep_scan(b: Seq<u8>, strings: Seq<Seq<char>>, vc: u32, allow: bool)
    ensures
        spec_patch_flags(b, strings, vc, allow) matches PatchOutcome::Patched(out) ==> spec_scan_pool(
            out,
            8,
        ) == spec_scan_pool(b, 8) && out.len() == b.len(),
{
    let i1 = index_of(strings, "versionCode"@);
    let i2 = index_of(strings, "usesCleartextTraffic"@);
    lemma_named_keeps_scan(b, i1, vc);
    match spec_patch_named(b, i1, vc) {
        WalkOutcome::Done(out2) => {
            lemma_named_keeps_scan(out2, i2, if allow {
                1u32
            } else {
                0u32
            });
        },
        _ => {},
    }
}

/// The first four bytes of a pool chunk are its type and header size, which
/// the encoded pool repeats.
proof fn lemma_pool_head_kept(
    m: Seq<u8>,
    swapped: Seq<u8>,
    p: PoolView,
    pre: Seq<u8>,
    enc: Seq<u8>,
    post: Seq<u8>,
)
    requires
        8 <= p.offset,
        p.offset + 8 <= m.len(),
        p.header_size <= 0xffff,
        u16_at(m, p.offset) == RES_STRING_POOL_TYPE,
        u16_at(m, p.offset + 2) == p.header_size,
        pre.len() == p.offset,
        enc.len() >= 4,
        swapped == pre + enc + post,
        agree(m, pre, 8, p.offset),
        (pre + enc + post).subrange(p.offset, p.offset + 4) == le16(RES_STRING_POOL_TYPE as int)
            + le16(p.header_size),
    ensures
        agree(m, swapped, 8, p.offset + 4),
{
    let big_p = p.offset;
    let hs = p.header_size;
    assert forall|k: int| 8 <= k < big_p + 4 implies #[trigger] m[k] == swapped[k] by {
        if k >= big_p {
            assert(swapped.subrange(big_p, big_p + 4)[k - big_p] == swapped[k]);
            assert(m[big_p] as int + 256 * (m[big_p + 1] as int) == 1);
            assert(m[big_p + 2] as int + 256 * (m[big_p + 3] as int) == hs);
        } else {
            assert(swapped[k] == pre[k]);
        }
    }
}

/// The document with its pool swapped for `enc` is walked to the new pool.
#[verifier::rlimit(40)]
proof fn lemma_swap_reaches_pool(m: Seq<u8>, p: PoolView, strings: Seq<Seq<char>>)
    requires
        spec_scan_pool(m, 8) == PoolScan::Found(p),
        !short_chunk_before_pool(m, 8),
        m.len() <= usize::MAX,
        spec_encode_pool(p, strings) is Ok,
        spec_encode_pool(p, strings).unwrap().len() < 0x1_0000_0000,
    ensures
        ({
            let enc = spec_encode_pool(p, strings).unwrap();
            let swapped = spec_swap_pool(m, p, enc);
            &&& swapped == swapped.take(p.offset) + enc + m.skip(p.offset + p.chunk_size)
            &&& swapped.take(p.offset).len() == p.offset
            &&& spec_scan_pool(swapped, 8) == spec_pool_at(
                swapped,
                p.offset,
                p.header_size,
                enc.len() as int,
            )
        }),
{
    lemma_scan_found_wf(m, 8);
    lemma_found_offset(m, 8);
    let enc = spec_encode_pool(p, strings).unwrap();
    let big_p = p.offset;
    let t = m.take(big_p) + enc + m.skip(big_p + p.chunk_size);
    let swapped = spec_swap_pool(m, p, enc);
    let pre = swapped.take(big_p);
    let post = m.skip(big_p + p.chunk_size);
    assert(swapped =~= pre + enc + post);
    crate::pool_law::lemma_encoded_pool_header(p, strings, pre, post);
    assert(agree(m, pre, 8, big_p)) by {
        assert forall|k: int| 8 <= k < big_p implies #[trigger] m[k] == pre[k] by {
            assert(pre[k] == t[k]);
        }
    }
    lemma_pool_head_kept(m, swapped, p, pre, enc, post);
    lemma_scan_prefix(m, swapped, 8);
}

/// Patching a binary manifest replaces the strings of its pool: the pool of
/// the patched document reads back as the original pool with every string
/// that is a key of the table replaced by its value, with the flags, the
/// counts, the style offsets and (where it has styles, or no style data) the
/// style data it had, at the same place. This holds where
/// no chunk shorter than 4 bytes stands before the pool, where the new pool
/// fits the 32-bit size field and where the patched document fits in memory.
pub proof fn lemma_patched_manifest_pool(
    m: Seq<u8>,
    repl: Map<Seq<char>, Seq<char>>,
    vc: u32,
    allow: bool,
)
    requires
        spec_scan_pool(m, 8) is Found,
        !short_chunk_before_pool(m, 8),
        m.len() <= usize::MAX,
    ensures
        ({
            let p = spec_scan_pool(m, 8)->Found_0;
            let strings = replaced_strings(p.strings, repl);
            spec_patch_manifest(m, repl, vc, allow) matches PatchOutcome::Patched(out) ==> (
            out.len() <= usize::MAX && spec_encode_pool(p, strings).unwrap().len() < 0x1_0000_0000
                ==> (spec_scan_pool(out, 8) matches PoolScan::Found(q) && {
                &&& q.strings == strings
                &&& q.flags == p.flags
                &&& q.string_count == p.string_count
                &&& q.style_count == p.style_count
                &&& q.style_offsets == p.style_offsets
                &&& q.offset == p.offset
                &&& (p.style_count > 0 || p.style_data.len() == 0 ==> q.style_data == p.style_data)
            }))
        }),
{
    let p = spec_scan_pool(m, 8)->Found_0;
    let strings = replaced_strings(p.strings, repl);
    lemma_scan_found_wf(m, 8);
    if spec_encode_pool(p, strings) is Ok && spec_encode_pool(p, strings).unwrap().len()
        < 0x1_0000_0000 {
        let enc = spec_encode_pool(p, strings).unwrap();
        let swapped = spec_swap_pool(m, p, enc);
        assert(spec_patch_manifest(m, repl, vc, allow) == spec_patch_flags(
            swapped,
            p.strings,
            vc,
            allow,
        ));
        lemma_flags_keep_scan(swapped, p.strings, vc, allow);
        lemma_swap_reaches_pool(m, p, strings);
        match spec_patch_manifest(m, repl, vc, allow) {
            PatchOutcome::Patched(out) => {
                if out.len() <= usize::MAX {
                    crate::pool_law::lemma_pool_round_trip(
                        p,
                        strings,
                        swapped.take(p.offset),
                        m.skip(p.offset + p.chunk_size),
                    );
                }
            },
            _ => {},
        }
    }
}

// ---------------------------------------------------------------------------
// Typed attributes
// ---------------------------------------------------------------------------

/// Whether every attribute record from `pos` on (each `size` bytes long,
/// `remaining` of them, inside a chunk that ends at `end`) whose name index
/// is `target` holds `value` as its typed data.
pub open spec fn records_hold(
    b: Seq<u8>,
    pos: int,
    size: int,
    remaining: int,
    end: int,
    target: int,
    value: u32,
) -> bool
    decreases remaining,
{
    if remaining <= 0 || pos + 20 > end {
        true
    } else {
        &&& (u32_at(b, pos + 4) == target ==> u32_at(b, pos + 16) == value)
        &&& records_hold(b, pos + size, size, remaining - 1, end, target, value)
    }
}

/// `records_hold` for the attributes of the chunk at `off`, if it is a start element.
pub open spec fn chunk_holds(b: Seq<u8>, off: int, target: int, value: u32) -> bool {
    let kind = u16_at(b, off);
    let hs = u16_at(b, off + 2);
    let cs = u32_at(b, off + 4);
    if kind == RES_XML_START_ELEMENT_TYPE && hs >= 16 && cs >= hs + 20 {
        let ext = off + hs;
        let size = u16_at(b, ext + 10);
        if size >= 20 {
            records_hold(b, ext + u16_at(b, ext + 8), size, u16_at(b, ext + 12), off + cs, target, value)
        } else {
            true
        }
    } else {
        true
    }
}

/// `chunk_holds` for every chunk of the walk from `off`.
pub open spec fn document_holds(b: Seq<u8>, off: int, target: int, value: u32) -> bool
    decreases b.len() - off,
{
    if off < 0 || off + 8 > b.len() {
        true
    } else {
        let hs = u16_at(b, off + 2);
        let cs = u32_at(b, off + 4);
        if cs < hs || off + cs > b.len() || cs == 0 {
            true
        } else {
            chunk_holds(b, off, target, value) && document_holds(b, off + cs, target, value)
        }
    }
}

proof fn lemma_records_local(
    b: Seq<u8>,
    c: Seq<u8>,
    pos: int,
    size: int,
    remaining: int,
    end: int,
    target: int,
    value: u32,
)
    requires
        0 <= pos,
        size >= 20,
        end <= b.len(),
        end <= c.len(),
        agree(b, c, pos, end),
    ensures
        records_hold(b, pos, size, remaining, end, target, value) == records_hold(
            c,
            pos,
            size,
            remaining,
            end,
            target,
            value,
        ),
    decreases remaining,
{
    if remaining > 0 && pos + 20 <= end {
        assert(u32_at(b, pos + 4) == u32_at(c, pos + 4));
        assert(u32_at(b, pos + 16) == u32_at(c, pos + 16));
        lemma_records_local(b, c, pos + size, size, remaining - 1, end, target, value);
    }
}

proof fn lemma_chunk_holds_local(b: Seq<u8>, c: Seq<u8>, off: int, target: int, value: u32)
    requires
        0 <= off,
        off + 8 <= b.len(),
        u32_at(b, off + 4) >= u16_at(b, off + 2),
        off + u32_at(b, off + 4) <= b.len(),
        off + u32_at(b, off + 4) <= c.len(),
        agree(b, c, off, off + u32_at(b, off + 4)),
        agree(b, c, off, off + 8),
    ensures
        chunk_holds(b, off, target, value) == chunk_holds(c, off, target, value),
{
    assert(u16_at(b, off) == u16_at(c, off));
    assert(u16_at(b, off + 2) == u16_at(c, off + 2));
    assert(u32_at(b, off + 4) == u32_at(c, off + 4));
    let hs = u16_at(b, off + 2);
    let cs = u32_at(b, off + 4);
    if u16_at(b, off) == RES_XML_START_ELEMENT_TYPE && hs >= 16 && cs >= hs + 20 {
        let ext = off + hs;
        assert(u16_at(b, ext + 8) == u16_at(c, ext + 8));
        assert(u16_at(b, ext + 10) == u16_at(c, ext + 10));
        assert(u16_at(b, ext + 12) == u16_at(c, ext + 12));
        let size = u16_at(b, ext + 10);
        if size >= 20 {
            lemma_records_local(
                b,
                c,
                ext + u16_at(b, ext + 8),
                size,
                u16_at(b, ext + 12),
                off + cs,
                target,
                value,
            );
        }
    }
}

proof fn lemma_document_suffix(b: Seq<u8>, c: Seq<u8>, x: int, target: int, value: u32)
    requires
        0 <= x,
        b.len() == c.len(),
        agree(b, c, x, b.len() as int),
    ensures
        document_holds(b, x, target, value) == document_holds(c, x, target, value),
    decreases b.len() - x,
{
    if x + 8 <= b.len() {
        let hs = u16_at(b, x + 2);
        let cs = u32_at(b, x + 4);
        assert(u16_at(b, x + 2) == u16_at(c, x + 2));
        assert(u32_at(b, x + 4) == u32_at(c, x + 4));
        if hs <= cs && x + cs <= b.len() && cs > 0 {
            lemma_chunk_holds_local(b, c, x, target, value);
            lemma_document_suffix(b, c, x + cs, target, value);
        }
    }
}

/// The records that an attribute rewrite went over hold the new value.
proof fn lemma_attrs_hold(
    b: Seq<u8>,
    pos: int,
    size: int,
    remaining: int,
    end: int,
    target: int,
    value: u32,
)
    requires
        0 <= pos,
        size >= 20,
        end <= b.len(),
    ensures
        spec_patch_attrs(b, pos, size, remaining, end, target, value) matches Ok(b2) ==> records_hold(
            b2,
            pos,
            size,
            remaining,
            end,
            target,
            value,
        ),
    decreases remaining,
{
    if remaining > 0 && pos + 20 <= end {
        let b_mid = if u32_at(b, pos + 4) == target {
            splice(b, pos + 16, le32(value as int))
        } else {
            b
        };
        if u32_at(b, pos + 4) == target {
            lemma_le32_round_trip(b, pos + 16, value);
        }
        assert(u32_at(b_mid, pos + 4) == u32_at(b, pos + 4));
        lemma_attrs_hold(b_mid, pos + size, size, remaining - 1, end, target, value);
        lemma_attrs_frame(b_mid, pos + size, size, remaining - 1, end, target, value);
        match spec_patch_attrs(b_mid, pos + size, size, remaining - 1, end, target, value) {
            Ok(b2) => {
                assert(u32_at(b2, pos + 4) == u32_at(b_mid, pos + 4));
                assert(u32_at(b2, pos + 16) == u32_at(b_mid, pos + 16));
            },
            Err(_) => {},
        }
    }
}

/// A rewrite of the records named `other` keeps the records named `target`.
proof fn lemma_attrs_keep(
    b: Seq<u8>,
    pos: int,
    size: int,
    remaining: int,
    end: int,
    other: int,
    other_value: u32,
    target: int,
    value: u32,
)
    requires
        0 <= pos,
        size >= 20,
        end <= b.len(),
        other != target,
        records_hold(b, pos, size, remaining, end, target, value),
    ensures
        spec_patch_attrs(b, pos, size, remaining, end, other, other_value) matches Ok(b2)
            ==> records_hold(b2, pos, size, remaining, end, target, value),
    decreases remaining,
{
    if remaining > 0 && pos + 20 <= end {
        let b_mid = if u32_at(b, pos + 4) == other {
            splice(b, pos + 16, le32(other_value as int))
        } else {
            b
        };
        assert(b_mid.len() == b.len());
        assert(agree(b, b_mid, pos + 20, b.len() as int));
        lemma_records_local(b, b_mid, pos + size, size, remaining - 1, end, target, value);
        lemma_attrs_keep(
            b_mid,
            pos + size,
            size,
            remaining - 1,
            end,
            other,
            other_value,
            target,
            value,
        );
        lemma_attrs_frame(b_mid, pos + size, size, remaining - 1, end, other, other_value);
        match spec_patch_attrs(b_mid, pos + size, size, remaining - 1, end, other, other_value) {
            Ok(b2) => {
                assert(u32_at(b2, pos + 4) == u32_at(b_mid, pos + 4));
                assert(u32_at(b2, pos + 16) == u32_at(b_mid, pos + 16));
                assert(u32_at(b_mid, pos + 4) == u32_at(b, pos + 4));
            },
            Err(_) => {},
        }
    }
}

proof fn lemma_chunk_patch_holds(b: Seq<u8>, off: int, target: int, value: u32)
    requires
        0 <= off,
        off + 8 <= b.len(),
        u16_at(b, off + 2) <= u32_at(b, off + 4),
        off + u32_at(b, off + 4) <= b.len(),
    ensures
        spec_patch_chunk(
            b,
            off,
            u16_at(b, off),
            u16_at(b, off + 2),
            u32_at(b, off + 4),
            target,
            value,
        ) matches Ok(b2) ==> chunk_holds(b2, off, target, value),
{
    let kind = u16_at(b, off);
    let hs = u16_at(b, off + 2);
    let cs = u32_at(b, off + 4);
    if kind == RES_XML_START_ELEMENT_TYPE && hs >= 16 && cs >= hs + 20 {
        let ext = off + hs;
        let size = u16_at(b, ext + 10);
        if size >= 20 {
            let pos = ext + u16_at(b, ext + 8);
            lemma_attrs_hold(b, pos, size, u16_at(b, ext + 12), off + cs, target, value);
            lemma_attrs_frame(b, pos, size, u16_at(b, ext + 12), off + cs, target, value);
            match spec_patch_chunk(b, off, kind, hs, cs, target, value) {
                Ok(b2) => {
                    assert(u16_at(b2, off) == kind);
                    assert(u16_at(b2, off + 2) == hs);
                    assert(u32_at(b2, off + 4) == cs);
                    assert(u16_at(b2, ext + 8) == u16_at(b, ext + 8));
                    assert(u16_at(b2, ext + 10) == size);
                    assert(u16_at(b2, ext + 12) == u16_at(b, ext + 12));
                },
                Err(_) => {},
            }
        }
    }
}

proof fn lemma_chunk_patch_keeps(
    b: Seq<u8>,
    off: int,
    other: int,
    other_value: u32,
    target: int,
    value: u32,
)
    requires
        0 <= off,
        off + 8 <= b.len(),
        u16_at(b, off + 2) <= u32_at(b, off + 4),
        off + u32_at(b, off + 4) <= b.len(),
        other != target,
        chunk_holds(b, off, target, value),
    ensures
        spec_patch_chunk(
            b,
            off,
            u16_at(b, off),
            u16_at(b, off + 2),
            u32_at(b, off + 4),
            other,
            other_value,
        ) matches Ok(b2) ==> chunk_holds(b2, off, target, value),
{
    let kind = u16_at(b, off);
    let hs = u16_at(b, off + 2);
    let cs = u32_at(b, off + 4);
    lemma_chunk_frame(b, off, kind, hs, cs, other, other_value);
    if kind == RES_XML_START_ELEMENT_TYPE && hs >= 16 && cs >= hs + 20 {
        let ext = off + hs;
        let size = u16_at(b, ext + 10);
        if size >= 20 {
            let pos = ext + u16_at(b, ext + 8);
            lemma_attrs_keep(
                b,
                pos,
                size,
                u16_at(b, ext + 12),
                off + cs,
                other,
                other_value,
                target,
                value,
            );
            lemma_attrs_frame(b, pos, size, u16_at(b, ext + 12), off + cs, other, other_value);
            match spec_patch_chunk(b, off, kind, hs, cs, other, other_value) {
                Ok(b2) => {
                    assert(u16_at(b2, off) == kind);
                    assert(u16_at(b2, off + 2) == hs);
                    assert(u32_at(b2, off + 4) == cs);
                    assert(u16_at(b2, ext + 8) == u16_at(b, ext + 8));
                    assert(u16_at(b2, ext + 10) == size);
                    assert(u16_at(b2, ext + 12) == u16_at(b, ext + 12));
                },
                Err(_) => {},
            }
        }
    }
}

/// After a finished walk that rewrites the records named `target`, every
/// such record holds the new value.
proof fn lemma_walk_holds(b: Seq<u8>, y: int, target: int, value: u32)
    requires
        0 <= y,
    ensures
        spec_patch_walk(b, y, target, value) matches WalkOutcome::Done(b2) ==> document_holds(
            b2,
            y,
            target,
            value,
        ),
    decreases b.len() - y,
{
    if y + 8 <= b.len() {
        let kind = u16_at(b, y);
        let hs = u16_at(b, y + 2);
        let cs = u32_at(b, y + 4);
        if hs <= cs && y + cs <= b.len() {
            lemma_chunk_frame(b, y, kind, hs, cs, target, value);
            lemma_chunk_patch_holds(b, y, target, value);
            match spec_patch_chunk(b, y, kind, hs, cs, target, value) {
                Ok(b_mid) => {
                    if cs > 0 {
                        lemma_walk_holds(b_mid, y + cs, target, value);
                        lemma_walk_frame(b_mid, y + cs, target, value);
                        match spec_patch_walk(b_mid, y + cs, target, value) {
                            WalkOutcome::Done(b2) => {
                                assert(u16_at(b_mid, y + 2) == hs);
                                assert(u32_at(b_mid, y + 4) == cs);
                                lemma_chunk_holds_local(b_mid, b2, y, target, value);
                                assert(u16_at(b2, y + 2) == hs);
                                assert(u32_at(b2, y + 4) == cs);
                            },
                            _ => {},
                        }
                    }
                },
                Err(_) => {},
            }
        }
    }
}

/// A finished walk that rewrites the records named `other` keeps what the
/// records named `target` hold.
proof fn lemma_walk_keeps(
    b: Seq<u8>,
    y: int,
    other: int,
    other_value: u32,
    target: int,
    value: u32,
)
    requires
        0 <= y,
        other != target,
        document_holds(b, y, target, value),
    ensures
        spec_patch_walk(b, y, other, other_value) matches WalkOutcome::Done(b2) ==> document_holds(
            b2,
            y,
            target,
            value,
        ),
    decreases b.len() - y,
{
    if y + 8 <= b.len() {
        let kind = u16_at(b, y);
        let hs = u16_at(b, y + 2);
        let cs = u32_at(b, y + 4);
        if hs <= cs && y + cs <= b.len() && cs > 0 {
            lemma_chunk_frame(b, y, kind, hs, cs, other, other_value);
            lemma_chunk_patch_keeps(b, y, other, other_value, target, value);
            match spec_patch_chunk(b, y, kind, hs, cs, other, other_value) {
                Ok(b_mid) => {
                    lemma_document_suffix(b, b_mid, y + cs, target, value);
                    lemma_walk_keeps(b_mid, y + cs, other, other_value, target, value);
                    lemma_walk_frame(b_mid, y + cs, other, other_value);
                    match spec_patch_walk(b_mid, y + cs, other, other_value) {
                        WalkOutcome::Done(b2) => {
                            assert(u16_at(b_mid, y + 2) == hs);
                            assert(u32_at(b_mid, y + 4) == cs);
                            lemma_chunk_holds_local(b_mid, b2, y, target, value);
                            assert(u16_at(b2, y + 2) == hs);
                            assert(u32_at(b2, y + 4) == cs);
                        },
                        _ => {},
                    }
                },
                Err(_) => {},
            }
        }
    }
}

proof fn lemma_index_of_at(strings: Seq<Seq<char>>, s: Seq<char>)
    ensures
        index_of(strings, s) matches Some(i) ==> 0 <= i < strings.len() && strings[i] == s,
    decreases strings.len(),
{
    if strings.len() > 0 && strings[0] != s {
        lemma_index_of_at(strings.drop_first(), s);
    }
}

/// Patching a binary manifest sets its typed attributes: in the patched
/// document every attribute record of a start element named versionCode
/// holds the version code, and every one named usesCleartextTraffic holds 1
/// where cleartext traffic is allowed and 0 where it is not.
pub proof fn lemma_patched_manifest_attributes(
    m: Seq<u8>,
    repl: Map<Seq<char>, Seq<char>>,
    vc: u32,
    allow: bool,
)
    requires
        spec_scan_pool(m, 8) is Found,
    ensures
        ({
            let p = spec_scan_pool(m, 8)->Found_0;
            spec_patch_manifest(m, repl, vc, allow) matches PatchOutcome::Patched(out) ==> {
                &&& index_of(p.strings, "versionCode"@) matches Some(a) ==> document_holds(
                    out,
                    8,
                    a,
                    vc,
                )
                &&& index_of(p.strings, "usesCleartextTraffic"@) matches Some(c) ==> document_holds(
                    out,
                    8,
                    c,
                    if allow {
                        1u32
                    } else {
                        0u32
                    },
                )
            }
        }),
{
    let p = spec_scan_pool(m, 8)->Found_0;
    let strings = replaced_strings(p.strings, repl);
    if spec_encode_pool(p, strings) is Ok {
        let enc = spec_encode_pool(p, strings).unwrap();
        let swapped = spec_swap_pool(m, p, enc);
        assert(spec_patch_manifest(m, repl, vc, allow) == spec_patch_flags(
            swapped,
            p.strings,
            vc,
            allow,
        ));
        let i1 = index_of(p.strings, "versionCode"@);
        let i2 = index_of(p.strings, "usesCleartextTraffic"@);
        let w = if allow {
            1u32
        } else {
            0u32
        };
        lemma_index_of_at(p.strings, "versionCode"@);
        lemma_index_of_at(p.strings, "usesCleartextTraffic"@);
        match spec_patch_named(swapped, i1, vc) {
            WalkOutcome::Done(out2) => {
                if let Some(a) = i1 {
                    lemma_walk_holds(swapped, 8, a, vc);
                }
                match spec_patch_named(out2, i2, w) {
                    WalkOutcome::Done(out3) => {
                        if let Some(c) = i2 {
                            lemma_walk_holds(out2, 8, c, w);
                            if let Some(a) = i1 {
                                assert(p.strings[a] == "versionCode"@);
                                assert(p.strings[c] == "usesCleartextTraffic"@);
                                assert(a != c) by {
                                    reveal_strlit("versionCode");
                                    reveal_strlit("usesCleartextTraffic");
                                    assert("versionCode"@.len() == 11);
                                    assert("usesCleartextTraffic"@.len() == 20);
                                }
                                lemma_walk_keeps(out2, 8, c, w, a, vc);
                            }
                        }
                    },
                    _ => {},
                }
            },
            _ => {},
        }
    }
}

/// A manifest whose pool names neither versionCode nor usesCleartextTraffic
/// is patched by swapping its pool alone: the patched document is the
/// original with the encoded pool in place of the old one and the total size
/// brought up to date; every byte before the pool but the size, and every
/// byte after it, is the original's.
#[verifier::rlimit(40)]
#[verifier::spinoff_prover]
pub proof fn lemma_patched_without_flags(m: Seq<u8>, repl: Map<Seq<char>, Seq<char>>, vc: u32, allow: bool)
    requires
        m.len() >= 8,
        m.len() <= usize::MAX,
        spec_scan_pool(m, 8) matches PoolScan::Found(p) && index_of(p.strings, "versionCode"@) is None
            && index_of(p.strings, "usesCleartextTraffic"@) is None,
    ensures
        ({
            let p = spec_scan_pool(m, 8)->Found_0;
            match spec_encode_pool(p, replaced_strings(p.strings, repl)) {
                Ok(pool) => {
                    &&& spec_patch_manifest(m, repl, vc, allow) == PatchOutcome::Patched(
                        spec_swap_pool(m, p, pool),
                    )
                    &&& spec_swap_pool(m, p, pool).len() == m.len() - p.chunk_size + pool.len()
                    &&& agree(m, spec_swap_pool(m, p, pool), 0, 4)
                    &&& agree(m, spec_swap_pool(m, p, pool), 8, p.offset)
                    &&& spec_swap_pool(m, p, pool).skip(p.offset + pool.len()) == m.skip(
                        p.offset + p.chunk_size,
                    )
                },
                Err(e) => spec_patch_manifest(m, repl, vc, allow) == PatchOutcome::Failed(e),
            }
        }),
{
    let p = spec_scan_pool(m, 8)->Found_0;
    lemma_scan_found_wf(m, 8);
    lemma_found_offset(m, 8);
    match spec_encode_pool(p, replaced_strings(p.strings, repl)) {
        Ok(pool) => {
            let out = m.take(p.offset) + pool + m.skip(p.offset + p.chunk_size);
            let swapped = spec_swap_pool(m, p, pool);
            assert(8 <= p.offset && p.offset + p.chunk_size <= m.len() && p.chunk_size >= 0);
            assert(m.take(p.offset).len() == p.offset);
            assert(m.skip(p.offset + p.chunk_size).len() == m.len() - p.offset - p.chunk_size);
            assert(swapped == splice(out, 4, le32(out.len() as int)));
            assert(le32(out.len() as int).len() == 4);
            assert(out.len() == m.len() - p.chunk_size + pool.len());
            assert forall|k: int| 0 <= k < 4 implies #[trigger] swapped[k] == m[k] by {
                assert(swapped[k] == out.take(4)[k]);
                assert(out[k] == m.take(p.offset)[k]);
            }
            assert forall|k: int| 8 <= k < p.offset implies #[trigger] swapped[k] == m[k] by {
                assert(swapped[k] == out.skip(8)[k - 8]);
                assert(out[k] == m.take(p.offset)[k]);
            }
            assert(swapped.len() == out.len());
            assert(agree(m, swapped, 0, 4));
            assert(agree(m, swapped, 8, p.offset));
            assert(swapped.skip(p.offset + pool.len()) =~= m.skip(p.offset + p.chunk_size));
        },
        Err(_) => {},
    }
}

} // verus!
