//! Names that the builder shows or proposes: the file name of a project and
//! the label of each storage mode.

use vstd::prelude::*;
use crate::config::StorageMode;
use crate::text::{
    chars_of, is_ascii_alphanumeric, spec_ascii_alphanumeric, spec_ascii_lowercase,
    string_from_chars, to_ascii_lowercase,
};

verus! {

/// The label of a storage mode in the builder.
pub fn storage_label(mode: StorageMode) -> (label: &'static str)
    ensures
        label@ == (match mode {
            StorageMode::Private => "アプリ専用（権限不要）"@,
            StorageMode::Media => "音楽・画像・動画"@,
            StorageMode::Saf => "ユーザー選択フォルダ（推奨）"@,
            StorageMode::AllFiles => "全ファイル（サイドロード向け）"@,
        }),
{
    match mode {
        StorageMode::Private => "アプリ専用（権限不要）",
        StorageMode::Media => "音楽・画像・動画",
        StorageMode::Saf => "ユーザー選択フォルダ（推奨）",
        StorageMode::AllFiles => "全ファイル（サイドロード向け）",
    }
}

/// What a character of an app name becomes in a file name: ASCII letters
/// and digits in lower case, `-`, space and `_` as `_`, anything else dropped.
pub open spec fn slug_char(c: char) -> Option<char> {
    if spec_ascii_alphanumeric(c) {
        Some(spec_ascii_lowercase(c))
    } else if c == '-' || c == ' ' || c == '_' {
        Some('_')
    } else {
        None
    }
}

pub open spec fn slug_chars(s: Seq<char>) -> Seq<char>
    decreases s.len(),
{
    if s.len() == 0 {
        Seq::empty()
    } else {
        slug_chars(s.drop_last()) + match slug_char(s.last()) {
            Some(c) => seq![c],
            None => Seq::empty(),
        }
    }
}

/// The index of the first character of `s` from `i` on that is not `_`.
pub open spec fn underscores_end(s: Seq<char>, i: int) -> int
    decreases s.len() - i,
{
    if i >= s.len() {
        s.len() as int
    } else if s[i] == '_' {
        underscores_end(s, i + 1)
    } else {
        i
    }
}

/// One past the last character of `s[..j]` that is not `_` (0 if none).
pub open spec fn underscores_start(s: Seq<char>, j: int) -> int
    decreases j,
{
    if j <= 0 {
        0
    } else if s[j - 1] == '_' {
        underscores_start(s, j - 1)
    } else {
        j
    }
}

/// `s` without its leading and trailing `_`.
pub open spec fn trim_underscores(s: Seq<char>) -> Seq<char> {
    let a = underscores_end(s, 0);
    let b = underscores_start(s, s.len() as int);
    if a < b {
        s.subrange(a, b)
    } else {
        Seq::empty()
    }
}

/// The file name stem proposed for a project of the app `name`.
pub open spec fn spec_slug(name: Seq<char>) -> Seq<char> {
    let t = trim_underscores(slug_chars(name));
    if t.len() == 0 {
        "myapp"@
    } else {
        t
    }
}

proof fn lemma_underscores_start_bound(s: Seq<char>, j: int)
    requires
        0 <= j <= s.len(),
    ensures
        0 <= underscores_start(s, j) <= j,
    decreases j,
{
    if j > 0 && s[j - 1] == '_' {
        lemma_underscores_start_bound(s, j - 1);
    }
}

/// A file name stem for a project of the app `value`: its ASCII letters and
/// digits in lower case, with `-`, space and `_` as `_`, no `_` at either
/// end, and `myapp` where nothing is left.
pub fn slug(value: &str) -> (s: String)
    ensures
        s@ == spec_slug(value@),
{
    let input = chars_of(value);
    let mut kept: Vec<char> = Vec::new();
    let mut i: usize = 0;
    while i < input.len()
        invariant
            i <= input@.len(),
            kept@ == slug_chars(input@.take(i as int)),
        decreases input@.len() - i,
    {
        let c = input[i];
        proof {
            assert(input@.take(i + 1).drop_last() =~= input@.take(i as int));
        }
        if is_ascii_alphanumeric(c) {
            kept.push(to_ascii_lowercase(c));
        } else if c == '-' || c == ' ' || c == '_' {
            kept.push('_');
        }
        i = i + 1;
        assert(kept@ =~= slug_chars(input@.take(i as int)));
    }
    assert(input@.take(i as int) =~= input@);
    let mut a: usize = 0;
    while a < kept.len() && kept[a] == '_'
        invariant
            a <= kept@.len(),
            underscores_end(kept@, a as int) == underscores_end(kept@, 0),
        decreases kept@.len() - a,
    {
        a = a + 1;
    }
    let mut b: usize = kept.len();
    while b > 0 && kept[b - 1] == '_'
        invariant
            b <= kept@.len(),
            underscores_start(kept@, b as int) == underscores_start(kept@, kept@.len() as int),
        decreases b,
    {
        b = b - 1;
    }
    proof {
        lemma_underscores_start_bound(kept@, kept@.len() as int);
    }
    if a < b {
        let mut out: Vec<char> = Vec::new();
        let mut k = a;
        while k < b
            invariant
                a <= k <= b <= kept@.len(),
                out@ == kept@.subrange(a as int, k as int),
            decreases b - k,
        {
            out.push(kept[k]);
            k = k + 1;
            assert(out@ =~= kept@.subrange(a as int, k as int));
        }
        string_from_chars(&out)
    } else {
        String::from_str("myapp")
    }
}

/// A character that a file name stem of `slug` may hold: a lower-case ASCII
/// letter, a digit or `_`.
pub open spec fn stem_char(c: char) -> bool {
    ('a' <= c && c <= 'z') || ('0' <= c && c <= '9') || c == '_'
}

proof fn lemma_slug_chars_stem(s: Seq<char>)
    ensures
        forall|i: int| 0 <= i < slug_chars(s).len() ==> stem_char(#[trigger] slug_chars(s)[i]),
    decreases s.len(),
{
    if s.len() > 0 {
        lemma_slug_chars_stem(s.drop_last());
        let c = s.last();
        if spec_ascii_alphanumeric(c) && 'A' <= c && c <= 'Z' {
            let v = (c as u32) + 32;
            assert(0x61 <= v <= 0x7a);
            assert(('a' as u32) <= ((v as char) as u32) <= ('z' as u32));
        }
        let t = slug_chars(s);
        let p = slug_chars(s.drop_last());
        assert forall|i: int| 0 <= i < t.len() implies stem_char(#[trigger] t[i]) by {
            if i < p.len() {
                assert(t[i] == p[i]);
            }
        }
    }
}

proof fn lemma_underscores_end(s: Seq<char>, i: int)
    requires
        0 <= i <= s.len(),
    ensures
        i <= underscores_end(s, i) <= s.len(),
        underscores_end(s, i) < s.len() ==> s[underscores_end(s, i)] != '_',
    decreases s.len() - i,
{
    if i < s.len() && s[i] == '_' {
        lemma_underscores_end(s, i + 1);
    }
}

proof fn lemma_underscores_start(s: Seq<char>, j: int)
    requires
        0 <= j <= s.len(),
    ensures
        0 <= underscores_start(s, j) <= j,
        underscores_start(s, j) > 0 ==> s[underscores_start(s, j) - 1] != '_',
    decreases j,
{
    if j > 0 && s[j - 1] == '_' {
        lemma_underscores_start(s, j - 1);
    }
}

/// Every name that `slug` proposes is a usable file name stem: not empty,
/// made of lower-case ASCII letters, digits and `_`, and neither starting
/// nor ending with `_`.
pub proof fn lemma_slug_is_stem(name: Seq<char>)
    ensures
        spec_slug(name).len() > 0,
        forall|i: int| 0 <= i < spec_slug(name).len() ==> stem_char(#[trigger] spec_slug(name)[i]),
        spec_slug(name)[0] != '_',
        spec_slug(name)[spec_slug(name).len() - 1] != '_',
{
    let t = slug_chars(name);
    lemma_slug_chars_stem(name);
    lemma_underscores_end(t, 0);
    lemma_underscores_start(t, t.len() as int);
    let a = underscores_end(t, 0);
    let b = underscores_start(t, t.len() as int);
    if a < b {
        let r = t.subrange(a, b);
        assert(r == trim_underscores(t));
        assert forall|i: int| 0 <= i < r.len() implies stem_char(#[trigger] r[i]) by {
            assert(r[i] == t[a + i]);
        }
        assert(r[0] == t[a]);
        assert(r[r.len() - 1] == t[b - 1]);
    } else {
        reveal_strlit("myapp");
        assert(trim_underscores(t).len() == 0);
    }
}

/// The red, green and blue parts of a colour stored as an ABGR double word,
/// as Windows keeps its accent colour.
pub fn accent_from_abgr(abgr: u32) -> (rgb: (u8, u8, u8))
    ensures
        rgb.0 == abgr % 256,
        rgb.1 == (abgr / 256) % 256,
        rgb.2 == (abgr / 65536) % 256,
{
    ((abgr % 256) as u8, ((abgr / 256) % 256) as u8, ((abgr / 65536) % 256) as u8)
}

} // verus!
