//! What patching a binary manifest leaves alone after the pool swap: the
//! attribute walks write only the typed data of attribute records.

use vstd::prelude::*;
use crate::axml::{
    index_of, le32, lemma_patch_attrs_len, replaced_strings, spec_encode_pool,
    spec_patch_attrs, spec_patch_chunk, spec_patch_manifest, spec_patch_named, spec_patch_walk,
    spec_scan_pool, spec_swap_pool, splice, u16_at, u32_at, PatchOutcome, PoolScan, WalkOutcome,
    RES_XML_START_ELEMENT_TYPE,
};
use crate::manifest_law::agree;

verus! {

/// Whether `k` lies in the typed data (the last four of the twenty bytes)
/// of one of the `remaining` attribute records from `pos` on, each `size`
/// bytes long, inside a chunk that ends at `end`.
pub open spec fn field_in_attrs(pos: int, size: int, remaining: int, end: int, k: int) -> bool
    decreases remaining,
{
    if remaining <= 0 || pos + 20 > end {
        false
    } else {
        (pos + 16 <= k < pos + 20) || field_in_attrs(pos + size, size, remaining - 1, end, k)
    }
}

/// Whether `k` lies in the typed data of an attribute record of the chunk
/// at `off`, if it is a start element.
pub open spec fn field_in_chunk(b: Seq<u8>, off: int, kind: int, hs: int, cs: int, k: int) -> bool {
    if kind == RES_XML_START_ELEMENT_TYPE && hs >= 16 && cs >= hs + 20 {
        let ext = off + hs;
        let size = u16_at(b, ext + 10);
        size >= 20 && field_in_attrs(ext + u16_at(b, ext + 8), size, u16_at(b, ext + 12), off + cs, k)
    } else {
        false
    }
}

/// Whether `k` lies in the typed data of an attribute record of a start
/// element that the walk over the chunks from `off` reaches.
pub open spec fn typed_field(b: Seq<u8>, off: int, k: int) -> bool
    decreases b.len() - off,
{
    if off < 0 || off + 8 > b.len() {
        false
    } else {
        let kind = u16_at(b, off);
        let hs = u16_at(b, off + 2);
        let cs = u32_at(b, off + 4);
        if cs < hs || off + cs > b.len() {
            false
        } else {
            field_in_chunk(b, off, kind, hs, cs, k) || (cs > 0 && typed_field(b, off + cs, k))
        }
    }
}

proof fn lemma_attrs_changes(
    b: Seq<u8>,
    pos: int,
    size: int,
    remaining: int,
    end: int,
    target: int,
    value: u32,
)
    requires
        0 <= pos,
        end <= b.len(),
        size >= 0,
    ensures
        spec_patch_attrs(b, pos, size, remaining, end, target, value) matches Ok(b2) ==> b2.len()
            == b.len() && forall|k: int|
            0 <= k < b.len() && #[trigger] b2[k] != b[k] ==> field_in_attrs(pos, size, remaining, end, k),
        spec_patch_attrs(b, pos, size, remaining, end, target, value) matches Ok(b2) ==> agree(
            b,
            b2,
            0,
            pos + 16,
        ),
    decreases remaining,
{
    if remaining > 0 && pos + 20 <= end {
        let b1 = if u32_at(b, pos + 4) == target {
            splice(b, pos + 16, le32(value as int))
        } else {
            b
        };
        assert(le32(value as int).len() == 4);
        assert(b1.len() == b.len());
        assert forall|k: int| 0 <= k < b.len() && b1[k] != b[k] implies pos + 16 <= k < pos + 20 by {
            if k < pos + 16 {
                assert(b1[k] == b[k]);
            } else if k >= pos + 20 {
                assert(b1[k] == b[k]);
            }
        }
        assert(agree(b, b1, 0, pos + 16));
        lemma_attrs_changes(b1, pos + size, size, remaining - 1, end, target, value);
        lemma_patch_attrs_len(b1, pos + size, size, remaining - 1, end, target, value);
        match spec_patch_attrs(b1, pos + size, size, remaining - 1, end, target, value) {
            Ok(b2) => {
                assert forall|k: int| 0 <= k < b.len() && #[trigger] b2[k] != b[k] implies field_in_attrs(
                    pos,
                    size,
                    remaining,
                    end,
                    k,
                ) by {
                    if b1[k] != b[k] {
                    } else {
                        assert(b2[k] != b1[k]);
                    }
                }
                assert forall|k: int| 0 <= k < pos + 16 implies #[trigger] b[k] == b2[k] by {
                    assert(b1[k] == b[k]);
                    if k >= pos + size + 16 {
                    }
                }
            },
            Err(_) => {},
        }
    }
}

proof fn lemma_chunk_changes(b: Seq<u8>, off: int, kind: int, hs: int, cs: int, target: int, value: u32)
    requires
        0 <= off,
        off + cs <= b.len(),
    ensures
        spec_patch_chunk(b, off, kind, hs, cs, target, value) matches Ok(b2) ==> {
            &&& b2.len() == b.len()
            &&& forall|k: int|
                0 <= k < b.len() && #[trigger] b2[k] != b[k] ==> field_in_chunk(b, off, kind, hs, cs, k)
            &&& (kind == RES_XML_START_ELEMENT_TYPE && hs >= 16 && cs >= hs + 20 ==> agree(
                b,
                b2,
                0,
                off + hs + 16,
            ))
            &&& agree(b, b2, off + cs, b.len() as int)
        },
{
    if kind == RES_XML_START_ELEMENT_TYPE && hs >= 16 && cs >= hs + 20 {
        let ext = off + hs;
        let size = u16_at(b, ext + 10);
        if size >= 20 {
            let pos = ext + u16_at(b, ext + 8);
            lemma_attrs_changes(b, pos, size, u16_at(b, ext + 12), off + cs, target, value);
            match spec_patch_chunk(b, off, kind, hs, cs, target, value) {
                Ok(b2) => {
                    assert forall|k: int| off + cs <= k < b.len() implies #[trigger] b[k] == b2[k] by {
                        if b2[k] != b[k] {
                            lemma_field_in_attrs_below(pos, size, u16_at(b, ext + 12), off + cs, k);
                        }
                    }
                    assert forall|k: int| 0 <= k < off + hs + 16 implies #[trigger] b[k] == b2[k] by {
                        assert(k < pos + 16);
                    }
                },
                Err(_) => {},
            }
        }
    }
}

proof fn lemma_field_in_attrs_below(pos: int, size: int, remaining: int, end: int, k: int)
    requires
        field_in_attrs(pos, size, remaining, end, k),
        size >= 0,
    ensures
        k < end,
        pos + 16 <= k,
    decreases remaining,
{
    if remaining > 0 && pos + 20 <= end {
        if !(pos + 16 <= k < pos + 20) {
            lemma_field_in_attrs_below(pos + size, size, remaining - 1, end, k);
        }
    }
}

proof fn lemma_typed_field_local(b: Seq<u8>, c: Seq<u8>, y: int, k: int)
    requires
        0 <= y,
        b.len() == c.len(),
        agree(b, c, y, b.len() as int),
    ensures
        typed_field(b, y, k) == typed_field(c, y, k),
    decreases b.len() - y,
{
    if y + 8 <= b.len() {
        assert(b[y] == c[y] && b[y + 1] == c[y + 1]);
        assert(b[y + 2] == c[y + 2] && b[y + 3] == c[y + 3]);
        assert(b[y + 4] == c[y + 4] && b[y + 5] == c[y + 5]);
        assert(b[y + 6] == c[y + 6] && b[y + 7] == c[y + 7]);
        assert(u16_at(b, y) == u16_at(c, y));
        assert(u16_at(b, y + 2) == u16_at(c, y + 2));
        assert(u32_at(b, y + 4) == u32_at(c, y + 4));
        let kind = u16_at(b, y);
        let hs = u16_at(b, y + 2);
        let cs = u32_at(b, y + 4);
        if hs <= cs && y + cs <= b.len() {
            if kind == RES_XML_START_ELEMENT_TYPE && hs >= 16 && cs >= hs + 20 {
                let ext = y + hs;
                assert(b[ext + 8] == c[ext + 8] && b[ext + 9] == c[ext + 9]);
                assert(b[ext + 10] == c[ext + 10] && b[ext + 11] == c[ext + 11]);
                assert(b[ext + 12] == c[ext + 12] && b[ext + 13] == c[ext + 13]);
                assert(u16_at(b, ext + 8) == u16_at(c, ext + 8));
                assert(u16_at(b, ext + 10) == u16_at(c, ext + 10));
                assert(u16_at(b, ext + 12) == u16_at(c, ext + 12));
            }
            if cs > 0 {
                lemma_typed_field_local(b, c, y + cs, k);
            }
        }
    }
}

proof fn lemma_walk_changes(b: Seq<u8>, y: int, target: int, value: u32)
    requires
        0 <= y,
    ensures
        spec_patch_walk(b, y, target, value) matches WalkOutcome::Done(b2) ==> {
            &&& b2.len() == b.len()
            &&& agree(b, b2, 0, y + 16)
            &&& forall|k: int| 0 <= k < b.len() && #[trigger] b2[k] != b[k] ==> typed_field(b, y, k)
            &&& forall|k: int| #[trigger] typed_field(b2, y, k) == typed_field(b, y, k)
        },
    decreases b.len() - y,
{
    if y + 8 <= b.len() {
        let kind = u16_at(b, y);
        let hs = u16_at(b, y + 2);
        let cs = u32_at(b, y + 4);
        if hs <= cs && y + cs <= b.len() {
            lemma_chunk_changes(b, y, kind, hs, cs, target, value);
            match spec_patch_chunk(b, y, kind, hs, cs, target, value) {
                Ok(b_mid) => {
                    if cs > 0 {
                        lemma_walk_changes(b_mid, y + cs, target, value);
                        match spec_patch_walk(b_mid, y + cs, target, value) {
                            WalkOutcome::Done(b2) => {
                                assert(spec_patch_walk(b, y, target, value) == WalkOutcome::Done(b2));
                                // the chunk header and the element header are read alike
                                assert forall|k: int| 0 <= k < y + 16 implies #[trigger] b[k] == b2[k] by {
                                    assert(b_mid[k] == b2[k]);
                                    if b_mid[k] != b[k] {
                                        assert(field_in_chunk(b, y, kind, hs, cs, k));
                                    }
                                }
                                assert(u16_at(b2, y) == kind);
                                assert(u16_at(b2, y + 2) == hs);
                                assert(u32_at(b2, y + 4) == cs);
                                if kind == RES_XML_START_ELEMENT_TYPE && hs >= 16 && cs >= hs + 20 {
                                    let ext = y + hs;
                                    assert forall|k: int| ext + 8 <= k < ext + 14 implies #[trigger] b[k]
                                        == b2[k] by {
                                        assert(b[k] == b_mid[k]);
                                        assert(b_mid[k] == b2[k]);
                                    }
                                    assert(u16_at(b2, ext + 8) == u16_at(b, ext + 8));
                                    assert(u16_at(b2, ext + 10) == u16_at(b, ext + 10));
                                    assert(u16_at(b2, ext + 12) == u16_at(b, ext + 12));
                                }
                                lemma_typed_field_local_all(b, b_mid, y + cs);
                                assert forall|k: int| 0 <= k < b.len() && #[trigger] b2[k] != b[k] implies typed_field(
                                    b,
                                    y,
                                    k,
                                ) by {
                                    if b_mid[k] != b[k] {
                                    } else {
                                        assert(b2[k] != b_mid[k]);
                                        assert(typed_field(b_mid, y + cs, k));
                                    }
                                }
                                assert forall|k: int| #[trigger] typed_field(b2, y, k) == typed_field(
                                    b,
                                    y,
                                    k,
                                ) by {
                                    assert(typed_field(b2, y + cs, k) == typed_field(b_mid, y + cs, k));
                                }
                            },
                            _ => {},
                        }
                    }
                },
                Err(_) => {},
            }
        }
    }
}

proof fn lemma_typed_field_local_all(b: Seq<u8>, c: Seq<u8>, y: int)
    requires
        0 <= y,
        b.len() == c.len(),
        agree(b, c, y, b.len() as int),
    ensures
        forall|k: int| #[trigger] typed_field(c, y, k) == typed_field(b, y, k),
{
    assert forall|k: int| #[trigger] typed_field(c, y, k) == typed_field(b, y, k) by {
        lemma_typed_field_local(b, c, y, k);
    }
}

proof fn lemma_named_changes(b: Seq<u8>, index: Option<int>, value: u32)
    ensures
        spec_patch_named(b, index, value) matches WalkOutcome::Done(b2) ==> {
            &&& b2.len() == b.len()
            &&& forall|k: int| 0 <= k < b.len() && #[trigger] b2[k] != b[k] ==> typed_field(b, 8, k)
            &&& forall|k: int| #[trigger] typed_field(b2, 8, k) == typed_field(b, 8, k)
        },
{
    match index {
        None => {},
        Some(i) => {
            lemma_walk_changes(b, 8, i, value);
        },
    }
}

/// Patching a binary manifest changes, after the pool is swapped, nothing
/// but typed attribute data: every byte of the patched document that differs
/// from the document with the new pool lies in the typed data of an
/// attribute record of a start element that the walk over the chunks reaches.
pub proof fn lemma_patch_changes_only_typed_values(
    m: Seq<u8>,
    repl: Map<Seq<char>, Seq<char>>,
    vc: u32,
    allow: bool,
)
    requires
        m.len() <= usize::MAX,
    ensures
        spec_patch_manifest(m, repl, vc, allow) matches PatchOutcome::Patched(out) ==> {
            &&& spec_scan_pool(m, 8) is Found
            &&& spec_encode_pool(
                spec_scan_pool(m, 8)->Found_0,
                replaced_strings(spec_scan_pool(m, 8)->Found_0.strings, repl),
            ) is Ok
            &&& ({
                let p = spec_scan_pool(m, 8)->Found_0;
                let pool = spec_encode_pool(p, replaced_strings(p.strings, repl))->Ok_0;
                let swapped = spec_swap_pool(m, p, pool);
                &&& out.len() == swapped.len()
                &&& forall|k: int|
                    0 <= k < out.len() && #[trigger] out[k] != swapped[k] ==> typed_field(swapped, 8, k)
            })
        },
{
    if m.len() >= 8 {
        match spec_scan_pool(m, 8) {
            PoolScan::Found(p) => {
                match spec_encode_pool(p, replaced_strings(p.strings, repl)) {
                    Ok(pool) => {
                        let swapped = spec_swap_pool(m, p, pool);
                        let first = index_of(p.strings, "versionCode"@);
                        let second = index_of(p.strings, "usesCleartextTraffic"@);
                        lemma_named_changes(swapped, first, vc);
                        match spec_patch_named(swapped, first, vc) {
                            WalkOutcome::Done(out2) => {
                                let flag = if allow {
                                    1u32
                                } else {
                                    0u32
                                };
                                lemma_named_changes(out2, second, flag);
                                match spec_patch_named(out2, second, flag) {
                                    WalkOutcome::Done(out3) => {
                                        assert(spec_patch_manifest(m, repl, vc, allow)
                                            == PatchOutcome::Patched(out3));
                                        assert forall|k: int|
                                            0 <= k < out3.len() && #[trigger] out3[k] != swapped[k] implies typed_field(
                                            swapped,
                                            8,
                                            k,
                                        ) by {
                                            if out2[k] == swapped[k] {
                                                assert(out3[k] != out2[k]);
                                                assert(typed_field(out2, 8, k));
                                            }
                                        }
                                    },
                                    _ => {},
                                }
                            },
                            _ => {},
                        }
                    },
                    Err(_) => {},
                }
            },
            _ => {},
        }
    }
}

} // verus!
