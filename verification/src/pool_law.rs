//! What reading gives back of writing, for the string pool chunk of a
//! binary manifest: a pool encoded with its strings decodes to those strings.

use vstd::prelude::*;
use crate::axml::{
    encode_utf16, le16, le32, le32_seq, lemma_utf16_entry_round_trip, lemma_utf8_entry_round_trip,
    pad4, pool_header_seq, pool_string_entry, pool_wf, spec_decode_pool_string,
    spec_decode_pool_strings, spec_encode_entries, spec_encode_pool, spec_pool_at, u16_at, u32_at,
    PoolScan, PoolView, RES_STRING_POOL_TYPE, UTF8_FLAG, lemma_utf8_entry_lengths,
    spec_decode_length8, supplementary_count,
};

verus! {

/// Four bytes written by `le32` read back as the value written.
pub proof fn lemma_u32_of_le32(s: Seq<u8>, k: int, v: int)
    requires
        0 <= k,
        k + 4 <= s.len(),
        s.subrange(k, k + 4) == le32(v),
        0 <= v < 0x1_0000_0000,
    ensures
        u32_at(s, k) == v,
{
    assert(s[k] == s.subrange(k, k + 4)[0]);
    assert(s[k + 1] == s.subrange(k, k + 4)[1]);
    assert(s[k + 2] == s.subrange(k, k + 4)[2]);
    assert(s[k + 3] == s.subrange(k, k + 4)[3]);
    let w = v as u32;
    assert(w as int == v);
    assert((w % 256) as int + 256 * ((w / 256) % 256) as int + 65536 * ((w / 65536) % 256) as int
        + 16777216 * ((w / 16777216) % 256) as int == w as int) by (bit_vector);
}

proof fn lemma_le32_seq_read(s: Seq<int>)
    ensures
        le32_seq(s).len() == 4 * s.len(),
        forall|i: int|
            0 <= i < s.len() ==> #[trigger] le32_seq(s).subrange(4 * i, 4 * i + 4) == le32(s[i]),
    decreases s.len(),
{
    if s.len() > 0 {
        let p = s.drop_last();
        lemma_le32_seq_read(p);
        let w = le32_seq(s);
        assert forall|i: int| 0 <= i < s.len() implies #[trigger] w.subrange(4 * i, 4 * i + 4)
            == le32(s[i]) by {
            if i < p.len() {
                assert(w.subrange(4 * i, 4 * i + 4) =~= le32_seq(p).subrange(4 * i, 4 * i + 4));
                assert(p[i] == s[i]);
            } else {
                assert(w.subrange(4 * i, 4 * i + 4) =~= le32(s.last()));
            }
        }
    }
}

/// Where each entry of `spec_encode_entries` lies in the encoded data.
proof fn lemma_encoded_entries(sv: Seq<Seq<char>>, utf8: bool)
    requires
        spec_encode_entries(sv, utf8) is Some,
        spec_encode_entries(sv, utf8).unwrap().0.len() < 0x1_0000_0000,
    ensures
        ({
            let (d, o) = spec_encode_entries(sv, utf8).unwrap();
            &&& o.len() == sv.len()
            &&& forall|i: int|
                0 <= i < sv.len() ==> {
                    &&& (#[trigger] pool_string_entry(sv[i], utf8)) is Some
                    &&& 0 <= o[i]
                    &&& o[i] + pool_string_entry(sv[i], utf8).unwrap().len() <= d.len()
                    &&& d.subrange(o[i], o[i] + pool_string_entry(sv[i], utf8).unwrap().len())
                        == pool_string_entry(sv[i], utf8).unwrap()
                }
        }),
    decreases sv.len(),
{
    if sv.len() > 0 {
        let p = sv.drop_last();
        let (d0, o0) = spec_encode_entries(p, utf8).unwrap();
        let e = pool_string_entry(sv.last(), utf8).unwrap();
        let (d, o) = spec_encode_entries(sv, utf8).unwrap();
        assert(d == d0 + e);
        lemma_encoded_entries(p, utf8);
        assert(d0.len() % 0x1_0000_0000 == d0.len());
        assert forall|i: int| 0 <= i < sv.len() implies {
            &&& (#[trigger] pool_string_entry(sv[i], utf8)) is Some
            &&& 0 <= o[i]
            &&& o[i] + pool_string_entry(sv[i], utf8).unwrap().len() <= d.len()
            &&& d.subrange(o[i], o[i] + pool_string_entry(sv[i], utf8).unwrap().len())
                == pool_string_entry(sv[i], utf8).unwrap()
        } by {
            if i < p.len() {
                assert(p[i] == sv[i]);
                assert(o[i] == o0[i]);
                let ei = pool_string_entry(sv[i], utf8).unwrap();
                assert(d.subrange(o[i], o[i] + ei.len()) =~= d0.subrange(o0[i], o0[i] + ei.len()));
            } else {
                assert(o[i] == d0.len());
                assert(d.subrange(o[i], o[i] + e.len()) =~= e);
            }
        }
    }
}

/// One string of an encoded pool decodes from its offset.
#[verifier::rlimit(80)]
proof fn lemma_decode_one(
    b: Seq<u8>,
    data_start: int,
    data_end: int,
    sv: Seq<Seq<char>>,
    utf8: bool,
    i: int,
)
    requires
        0 <= i < sv.len(),
        spec_encode_entries(sv, utf8) is Some,
        spec_encode_entries(sv, utf8).unwrap().0.len() < 0x1_0000_0000,
        0 <= data_start,
        data_start + spec_encode_entries(sv, utf8).unwrap().0.len() <= data_end <= b.len(),
        data_end <= usize::MAX,
        b.subrange(data_start, data_start + spec_encode_entries(sv, utf8).unwrap().0.len())
            == spec_encode_entries(sv, utf8).unwrap().0,
    ensures
        spec_decode_pool_string(
            b,
            spec_encode_entries(sv, utf8).unwrap().1[i],
            data_start,
            data_end,
            utf8,
        ) == Ok::<Seq<char>, crate::axml::AxmlError>(sv[i]),
{
    let d = spec_encode_entries(sv, utf8).unwrap().0;
    let o = spec_encode_entries(sv, utf8).unwrap().1;
    assert({
        &&& pool_string_entry(sv[i], utf8) is Some
        &&& 0 <= o[i]
        &&& o[i] + pool_string_entry(sv[i], utf8).unwrap().len() <= d.len()
        &&& d.subrange(o[i], o[i] + pool_string_entry(sv[i], utf8).unwrap().len())
            == pool_string_entry(sv[i], utf8).unwrap()
    }) by {
        lemma_encoded_entries(sv, utf8);
    }
    let e = pool_string_entry(sv[i], utf8).unwrap();
    let start = data_start + o[i];
    let rest = b.subrange(start + e.len(), data_end);
    assert(b.subrange(start, data_end) =~= e + rest) by {
        assert(b.subrange(start, start + e.len()) =~= d.subrange(o[i], o[i] + e.len()));
    }
    if utf8 {
        lemma_utf8_entry_round_trip(sv[i], rest);
    } else {
        assert(2 * encode_utf16(sv[i]).len() + 4 <= e.len()) by {
            lemma_le16_units_len(encode_utf16(sv[i]));
        }
        lemma_utf16_entry_round_trip(sv[i], rest);
    }
}

proof fn lemma_le16_units_len(u: Seq<u16>)
    ensures
        crate::axml::le16_units(u).len() == 2 * u.len(),
    decreases u.len(),
{
    if u.len() > 0 {
        lemma_le16_units_len(u.drop_last());
    }
}

/// The strings of a pool decode one by one from the encoded data.
proof fn lemma_decode_encoded_strings(
    b: Seq<u8>,
    data_start: int,
    data_end: int,
    sv: Seq<Seq<char>>,
    utf8: bool,
    offsets: Seq<int>,
    n: nat,
)
    requires
        n <= sv.len(),
        spec_encode_entries(sv, utf8) is Some,
        spec_encode_entries(sv, utf8).unwrap().0.len() < 0x1_0000_0000,
        offsets.len() >= sv.len(),
        forall|i: int| 0 <= i < sv.len() ==> offsets[i] == spec_encode_entries(sv, utf8).unwrap().1[i],
        0 <= data_start,
        data_start + spec_encode_entries(sv, utf8).unwrap().0.len() <= data_end <= b.len(),
        data_end <= usize::MAX,
        b.subrange(data_start, data_start + spec_encode_entries(sv, utf8).unwrap().0.len())
            == spec_encode_entries(sv, utf8).unwrap().0,
    ensures
        spec_decode_pool_strings(b, offsets, data_start, data_end, utf8, n) == Ok::<
            Seq<Seq<char>>,
            crate::axml::AxmlError,
        >(sv.take(n as int)),
    decreases n,
{
    if n == 0 {
        assert(sv.take(0) =~= Seq::<Seq<char>>::empty());
    } else {
        let i = n - 1;
        lemma_decode_encoded_strings(b, data_start, data_end, sv, utf8, offsets, (n - 1) as nat);
        lemma_decode_one(b, data_start, data_end, sv, utf8, i);
        assert(offsets[i] == spec_encode_entries(sv, utf8).unwrap().1[i]);
        assert(sv.take(n as int) =~= sv.take(i).push(sv[i]));
    }
}

/// The header fields of an encoded pool chunk placed at `off` in `b`.
proof fn lemma_read_pool_header(
    b: Seq<u8>,
    off: int,
    hs: int,
    cs: int,
    sc: int,
    stc: int,
    flags: int,
    ss: int,
    sts: int,
)
    requires
        28 <= hs,
        0 <= off,
        off + hs <= b.len(),
        b.subrange(off, off + hs) == pool_header_seq(hs, cs, sc, stc, flags, ss, sts),
        0 <= cs < 0x1_0000_0000,
        0 <= sc < 0x1_0000_0000,
        0 <= stc < 0x1_0000_0000,
        0 <= flags < 0x1_0000_0000,
        0 <= ss < 0x1_0000_0000,
        0 <= sts < 0x1_0000_0000,
    ensures
        u32_at(b, off + 4) == cs,
        u32_at(b, off + 8) == sc,
        u32_at(b, off + 12) == stc,
        u32_at(b, off + 16) == flags,
        u32_at(b, off + 20) == ss,
        u32_at(b, off + 24) == sts,
{
    reveal(pool_header_seq);
    let h = pool_header_seq(hs, cs, sc, stc, flags, ss, sts);
    assert(b.subrange(off + 4, off + 8) =~= h.subrange(4, 8));
    assert(h.subrange(4, 8) =~= le32(cs));
    lemma_u32_of_le32(b, off + 4, cs);
    assert(b.subrange(off + 8, off + 12) =~= h.subrange(8, 12));
    assert(h.subrange(8, 12) =~= le32(sc));
    lemma_u32_of_le32(b, off + 8, sc);
    assert(b.subrange(off + 12, off + 16) =~= h.subrange(12, 16));
    assert(h.subrange(12, 16) =~= le32(stc));
    lemma_u32_of_le32(b, off + 12, stc);
    assert(b.subrange(off + 16, off + 20) =~= h.subrange(16, 20));
    assert(h.subrange(16, 20) =~= le32(flags));
    lemma_u32_of_le32(b, off + 16, flags);
    assert(b.subrange(off + 20, off + 24) =~= h.subrange(20, 24));
    assert(h.subrange(20, 24) =~= le32(ss));
    lemma_u32_of_le32(b, off + 20, ss);
    assert(b.subrange(off + 24, off + 28) =~= h.subrange(24, 28));
    assert(h.subrange(24, 28) =~= le32(sts));
    lemma_u32_of_le32(b, off + 24, sts);
}

proof fn lemma_pool_header_len(hs: int, cs: int, sc: int, stc: int, flags: int, ss: int, sts: int)
    requires
        28 <= hs,
    ensures
        pool_header_seq(hs, cs, sc, stc, flags, ss, sts).len() == hs,
{
    reveal(pool_header_seq);
}

/// Values written with `le32_seq` from `at` on read back one by one.
proof fn lemma_read_le32_seq(b: Seq<u8>, at: int, s: Seq<int>, i: int)
    requires
        0 <= at,
        0 <= i < s.len(),
        at + 4 * s.len() <= b.len(),
        b.subrange(at, at + 4 * s.len()) == le32_seq(s),
        0 <= s[i] < 0x1_0000_0000,
    ensures
        u32_at(b, at + 4 * i) == s[i],
{
    lemma_le32_seq_read(s);
    assert(b.subrange(at + 4 * i, at + 4 * i + 4) =~= le32_seq(s).subrange(4 * i, 4 * i + 4));
    lemma_u32_of_le32(b, at + 4 * i, s[i]);
}

/// The pieces of an encoded pool chunk.
proof fn lemma_pool_layout(
    p: PoolView,
    strings: Seq<Seq<char>>,
    d: Seq<u8>,
    offs: Seq<int>,
    ss: int,
    sts: int,
    cs: int,
)
    requires
        strings.len() == p.string_count,
        spec_encode_entries(strings, p.flags & UTF8_FLAG != 0) == Some::<(Seq<u8>, Seq<int>)>(
            (d, offs),
        ),
        ss == p.header_size + (p.string_count + p.style_count) * 4,
        sts == (if p.style_count == 0 {
            0
        } else {
            ss + pad4(d).len()
        }),
        cs == ss + pad4(d).len() + p.style_data.len(),
    ensures
        spec_encode_pool(p, strings) == Ok::<Seq<u8>, crate::axml::AxmlError>(
            pool_header_seq(p.header_size, cs, p.string_count, p.style_count, p.flags as int, ss, sts)
                + le32_seq(offs) + le32_seq(p.style_offsets.map_values(|v: u32| v as int)) + pad4(
                d,
            ) + p.style_data,
        ),
{
    reveal(spec_encode_pool);
}

/// What `spec_pool_at` makes of a chunk whose fields read as given.
#[verifier::rlimit(40)]
proof fn lemma_pool_at_fields(
    b: Seq<u8>,
    off: int,
    hs: int,
    cs: int,
    flags: u32,
    ss: int,
    sts: int,
    strings: Seq<Seq<char>>,
    style_offsets: Seq<u32>,
)
    requires
        hs >= 28,
        u32_at(b, off + 8) == strings.len(),
        u32_at(b, off + 12) == style_offsets.len(),
        u32_at(b, off + 16) == flags as int,
        u32_at(b, off + 20) == ss,
        u32_at(b, off + 24) == sts,
        (strings.len() + style_offsets.len()) * 4 <= usize::MAX,
        off + hs + (strings.len() + style_offsets.len()) * 4 <= off + cs,
        off + ss <= (if sts == 0 {
            off + cs
        } else {
            off + sts
        }) <= off + cs,
        spec_decode_pool_strings(
            b,
            Seq::new(strings.len(), |i: int| u32_at(b, off + hs + 4 * i)),
            off + ss,
            if sts == 0 {
                off + cs
            } else {
                off + sts
            },
            flags & UTF8_FLAG != 0,
            strings.len(),
        ) == Ok::<Seq<Seq<char>>, crate::axml::AxmlError>(strings),
        Seq::new(style_offsets.len(), |i: int| u32_at(b, off + hs + 4 * (strings.len() + i)) as u32)
            == style_offsets,
    ensures
        spec_pool_at(b, off, hs, cs) matches PoolScan::Found(q) && {
            &&& q.strings == strings
            &&& q.flags == flags
            &&& q.header_size == hs
            &&& q.string_count == strings.len()
            &&& q.style_count == style_offsets.len()
            &&& q.style_offsets == style_offsets
            &&& q.offset == off
            &&& q.chunk_size == cs
            &&& q.style_data == (if sts == 0 {
                Seq::<u8>::empty()
            } else {
                b.subrange(off + sts, off + cs)
            })
        },
{
    reveal(spec_pool_at);
    assert((u32_at(b, off + 16) as u32) == flags);
}

/// Where the pieces of a concatenation lie.
proof fn lemma_five_pieces(
    pre: Seq<u8>,
    h: Seq<u8>,
    t1: Seq<u8>,
    t2: Seq<u8>,
    data: Seq<u8>,
    sd: Seq<u8>,
    post: Seq<u8>,
)
    ensures
        ({
            let b = pre + (h + t1 + t2 + data + sd) + post;
            let o = pre.len() as int;
            &&& b.subrange(o, o + h.len()) == h
            &&& b.subrange(o + h.len(), o + h.len() + t1.len()) == t1
            &&& b.subrange(o + h.len() + t1.len(), o + h.len() + t1.len() + t2.len()) == t2
            &&& b.subrange(
                o + h.len() + t1.len() + t2.len(),
                o + h.len() + t1.len() + t2.len() + data.len(),
            ) == data
            &&& b.subrange(
                o + h.len() + t1.len() + t2.len() + data.len(),
                o + h.len() + t1.len() + t2.len() + data.len() + sd.len(),
            ) == sd
            &&& b.len() == o + h.len() + t1.len() + t2.len() + data.len() + sd.len() + post.len()
        }),
{
    let b = pre + (h + t1 + t2 + data + sd) + post;
    let o = pre.len() as int;
    assert(b.subrange(o, o + h.len()) =~= h);
    assert(b.subrange(o + h.len(), o + h.len() + t1.len()) =~= t1);
    assert(b.subrange(o + h.len() + t1.len(), o + h.len() + t1.len() + t2.len()) =~= t2);
    assert(b.subrange(
        o + h.len() + t1.len() + t2.len(),
        o + h.len() + t1.len() + t2.len() + data.len(),
    ) =~= data);
    assert(b.subrange(
        o + h.len() + t1.len() + t2.len() + data.len(),
        o + h.len() + t1.len() + t2.len() + data.len() + sd.len(),
    ) =~= sd);
}

/// The reading of an encoded pool chunk, from its pieces.
#[verifier::rlimit(60)]
proof fn lemma_round_trip_parts(
    p: PoolView,
    strings: Seq<Seq<char>>,
    d: Seq<u8>,
    offs: Seq<int>,
    pre: Seq<u8>,
    post: Seq<u8>,
)
    requires
        pool_wf(p),
        spec_encode_entries(strings, p.flags & UTF8_FLAG != 0) == Some::<(Seq<u8>, Seq<int>)>(
            (d, offs),
        ),
        strings.len() == p.string_count,
        offs.len() == p.string_count,
        d.len() < 0x1_0000_0000,
        forall|i: int| 0 <= i < p.string_count ==> 0 <= #[trigger] offs[i] <= d.len(),
        p.header_size + (p.string_count + p.style_count) * 4 + pad4(d).len() + p.style_data.len()
            < 0x1_0000_0000,
        pre.len() + p.header_size + (p.string_count + p.style_count) * 4 + pad4(d).len()
            + p.style_data.len() <= usize::MAX,
    ensures
        ({
            let hs = p.header_size;
            let ss = hs + (p.string_count + p.style_count) * 4;
            let sts = if p.style_count == 0 {
                0
            } else {
                ss + pad4(d).len()
            };
            let cs = ss + pad4(d).len() + p.style_data.len();
            let enc = pool_header_seq(hs, cs, p.string_count, p.style_count, p.flags as int, ss, sts)
                + le32_seq(offs) + le32_seq(p.style_offsets.map_values(|v: u32| v as int)) + pad4(
                d,
            ) + p.style_data;
            spec_pool_at(pre + enc + post, pre.len() as int, hs, cs) matches PoolScan::Found(q) && {
                &&& q.strings == strings
                &&& q.flags == p.flags
                &&& q.header_size == p.header_size
                &&& q.string_count == p.string_count
                &&& q.style_count == p.style_count
                &&& q.style_offsets == p.style_offsets
                &&& q.offset == pre.len()
                &&& q.chunk_size == cs
                &&& (p.style_count > 0 || p.style_data.len() == 0 ==> q.style_data == p.style_data)
            }
        }),
{
    let utf8 = p.flags & UTF8_FLAG != 0;
    let hs = p.header_size;
    let sc = p.string_count;
    let stc = p.style_count;
    let ss = hs + (sc + stc) * 4;
    let sts = if stc == 0 {
        0
    } else {
        ss + pad4(d).len()
    };
    let cs = ss + pad4(d).len() + p.style_data.len();
    let styles = p.style_offsets.map_values(|v: u32| v as int);
    let header = pool_header_seq(hs, cs, sc, stc, p.flags as int, ss, sts);
    lemma_le32_seq_read(offs);
    lemma_le32_seq_read(styles);
    let t1 = le32_seq(offs);
    let t2 = le32_seq(styles);
    let enc = header + t1 + t2 + pad4(d) + p.style_data;
    let off = pre.len() as int;
    let b = pre + enc + post;
    lemma_pool_header_len(hs, cs, sc, stc, p.flags as int, ss, sts);
    lemma_five_pieces(pre, header, t1, t2, pad4(d), p.style_data, post);
    assert(b.subrange(off + ss, off + ss + d.len()) =~= d) by {
        assert(b.subrange(off + ss, off + ss + pad4(d).len()) == pad4(d));
        assert(pad4(d).subrange(0, d.len() as int) =~= d);
    }
    lemma_read_pool_header(b, off, hs, cs, sc, stc, p.flags as int, ss, sts);
    let data_end = if sts == 0 {
        off + cs
    } else {
        off + sts
    };
    let offsets = Seq::new(strings.len(), |i: int| u32_at(b, off + hs + 4 * i));
    assert forall|i: int| 0 <= i < strings.len() implies offsets[i] == offs[i] by {
        lemma_read_le32_seq(b, off + hs, offs, i);
    }
    lemma_decode_encoded_strings(b, off + ss, data_end, strings, utf8, offsets, strings.len());
    assert(strings.take(strings.len() as int) =~= strings);
    let decoded_styles = Seq::new(
        p.style_offsets.len(),
        |i: int| u32_at(b, off + hs + 4 * (strings.len() + i)) as u32,
    );
    assert forall|i: int| 0 <= i < p.style_offsets.len() implies decoded_styles[i]
        == p.style_offsets[i] by {
        lemma_read_le32_seq(b, off + hs + 4 * sc, styles, i);
        assert(off + hs + 4 * sc + 4 * i == off + hs + 4 * (strings.len() + i));
    }
    assert(decoded_styles =~= p.style_offsets);
    lemma_pool_at_fields(b, off, hs, cs, p.flags, ss, sts, strings, p.style_offsets);
}

/// A string pool chunk encoded with `strings` reads back, wherever it is
/// placed, as a pool with those strings and the flags, the counts, the
/// style offsets and (where it has styles, or no style data) the style data
/// of the pool it was made from (where the chunk's size fits
/// the 32-bit size field and its end fits in `usize`).
pub proof fn lemma_pool_round_trip(p: PoolView, strings: Seq<Seq<char>>, pre: Seq<u8>, post: Seq<u8>)
    requires
        pool_wf(p),
        spec_encode_pool(p, strings) is Ok,
        spec_encode_pool(p, strings).unwrap().len() < 0x1_0000_0000,
        pre.len() + spec_encode_pool(p, strings).unwrap().len() <= usize::MAX,
    ensures
        ({
            let enc = spec_encode_pool(p, strings).unwrap();
            spec_pool_at(pre + enc + post, pre.len() as int, p.header_size, enc.len() as int) matches PoolScan::Found(
                q,
            ) && {
                &&& q.strings == strings
                &&& q.flags == p.flags
                &&& q.header_size == p.header_size
                &&& q.string_count == p.string_count
                &&& q.style_count == p.style_count
                &&& q.style_offsets == p.style_offsets
                &&& q.offset == pre.len()
                &&& q.chunk_size == enc.len()
                &&& (p.style_count > 0 || p.style_data.len() == 0 ==> q.style_data == p.style_data)
            }
        }),
{
    let utf8 = p.flags & UTF8_FLAG != 0;
    let d = spec_encode_entries(strings, utf8).unwrap().0;
    let offs = spec_encode_entries(strings, utf8).unwrap().1;
    let ss = p.header_size + (p.string_count + p.style_count) * 4;
    let sts = if p.style_count == 0 {
        0
    } else {
        ss + pad4(d).len()
    };
    let cs = ss + pad4(d).len() + p.style_data.len();
    assert(strings.len() == p.string_count && spec_encode_entries(strings, utf8) is Some) by {
        reveal(spec_encode_pool);
    }
    lemma_pool_layout(p, strings, d, offs, ss, sts, cs);
    let enc = spec_encode_pool(p, strings).unwrap();
    let styles = p.style_offsets.map_values(|v: u32| v as int);
    lemma_le32_seq_read(offs);
    lemma_le32_seq_read(styles);
    lemma_encoded_entries(strings, utf8);
    lemma_pool_header_len(p.header_size, cs, p.string_count, p.style_count, p.flags as int, ss, sts);
    assert(enc.len() == cs);
    assert(offs.len() == p.string_count);
    assert forall|i: int| 0 <= i < p.string_count implies 0 <= #[trigger] offs[i] <= d.len() by {
        assert(pool_string_entry(strings[i], utf8) is Some);
    }
    lemma_round_trip_parts(p, strings, d, offs, pre, post);
}

/// The type, header size and chunk size at the head of an encoded pool chunk.
pub proof fn lemma_encoded_pool_header(p: PoolView, strings: Seq<Seq<char>>, pre: Seq<u8>, post: Seq<u8>)
    requires
        pool_wf(p),
        spec_encode_pool(p, strings) is Ok,
        spec_encode_pool(p, strings).unwrap().len() < 0x1_0000_0000,
    ensures
        ({
            let enc = spec_encode_pool(p, strings).unwrap();
            let b = pre + enc + post;
            let off = pre.len() as int;
            &&& enc.len() >= p.header_size
            &&& b.subrange(off, off + 4) == le16(RES_STRING_POOL_TYPE as int) + le16(p.header_size)
            &&& u16_at(b, off) == RES_STRING_POOL_TYPE
            &&& u16_at(b, off + 2) == p.header_size
            &&& u32_at(b, off + 4) == enc.len()
        }),
{
    let utf8 = p.flags & UTF8_FLAG != 0;
    let d = spec_encode_entries(strings, utf8).unwrap().0;
    let offs = spec_encode_entries(strings, utf8).unwrap().1;
    let ss = p.header_size + (p.string_count + p.style_count) * 4;
    let sts = if p.style_count == 0 {
        0
    } else {
        ss + pad4(d).len()
    };
    let cs = ss + pad4(d).len() + p.style_data.len();
    assert(strings.len() == p.string_count && spec_encode_entries(strings, utf8) is Some) by {
        reveal(spec_encode_pool);
    }
    lemma_pool_layout(p, strings, d, offs, ss, sts, cs);
    let enc = spec_encode_pool(p, strings).unwrap();
    let styles = p.style_offsets.map_values(|v: u32| v as int);
    lemma_le32_seq_read(offs);
    lemma_le32_seq_read(styles);
    lemma_encoded_entries(strings, utf8);
    lemma_pool_header_len(p.header_size, cs, p.string_count, p.style_count, p.flags as int, ss, sts);
    assert(enc.len() == cs);
    let h = pool_header_seq(p.header_size, cs, p.string_count, p.style_count, p.flags as int, ss, sts);
    let b = pre + enc + post;
    let off = pre.len() as int;
    assert(b.subrange(off, off + p.header_size) =~= h);
    assert(h.subrange(0, 4) == le16(RES_STRING_POOL_TYPE as int) + le16(p.header_size)
        && h.subrange(4, 8) == le32(cs)) by {
        reveal(pool_header_seq);
        assert(h.subrange(0, 4) =~= le16(RES_STRING_POOL_TYPE as int) + le16(p.header_size));
        assert(h.subrange(4, 8) =~= le32(cs));
    }
    assert(b.subrange(off, off + 4) =~= h.subrange(0, 4));
    assert(b.subrange(off + 4, off + 8) =~= h.subrange(4, 8));
    lemma_u32_of_le32(b, off + 4, cs);
    assert(b[off] == b.subrange(off, off + 4)[0]);
    assert(b[off + 1] == b.subrange(off, off + 4)[1]);
    assert(b[off + 2] == b.subrange(off, off + 4)[2]);
    assert(b[off + 3] == b.subrange(off, off + 4)[3]);
    let hs = p.header_size;
    assert(hs % 256 + 256 * ((hs / 256) % 256) == hs) by (nonlinear_arith)
        requires
            0 <= hs <= 0xffff,
    ;
}

/// In the string data of a UTF-8 pool, the entry of every string opens
/// with the number of its UTF-16 code units: one per character, two for a
/// character outside the Basic Multilingual Plane.
pub proof fn lemma_utf8_pool_lengths(strings: Seq<Seq<char>>)
    requires
        spec_encode_entries(strings, true) is Some,
        spec_encode_entries(strings, true).unwrap().0.len() < 0x1_0000_0000,
    ensures
        ({
            let (d, o) = spec_encode_entries(strings, true).unwrap();
            &&& o.len() == strings.len()
            &&& forall|i: int|
                0 <= i < strings.len() ==> {
                    &&& 0 <= #[trigger] o[i] <= d.len()
                    &&& spec_decode_length8(d.skip(o[i])) is Ok
                    &&& spec_decode_length8(d.skip(o[i]))->Ok_0.0 == strings[i].len()
                        + supplementary_count(strings[i])
                }
        }),
{
    let (d, o) = spec_encode_entries(strings, true).unwrap();
    lemma_encoded_entries(strings, true);
    assert forall|i: int| 0 <= i < strings.len() implies {
        &&& 0 <= #[trigger] o[i] <= d.len()
        &&& spec_decode_length8(d.skip(o[i])) is Ok
        &&& spec_decode_length8(d.skip(o[i]))->Ok_0.0 == strings[i].len() + supplementary_count(
            strings[i],
        )
    } by {
        assert(pool_string_entry(strings[i], true) is Some);
        let e = pool_string_entry(strings[i], true).unwrap();
        let rest = d.skip(o[i] + e.len());
        assert(d.skip(o[i]) =~= e + rest) by {
            assert(d.subrange(o[i], o[i] + e.len()) == e);
        }
        lemma_utf8_entry_lengths(strings[i], rest);
    }
}

} // verus!
