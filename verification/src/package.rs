//! The decisions of packaging: which template entries are replaced, which
//! icons they stand for, how entries are compressed and aligned, and the
//! manifest string replacements of a configuration.

use vstd::prelude::*;
use crate::config::{AppConfig, OutputFormat, StorageMode};
use crate::validate::{
    has_parent_segment, plain_relative, spec_validate_request, starts_with_slash, validate_request, ValidationError,
};
use crate::replacements::Replacements;
use crate::axml::{spec_patch_manifest, try_patch_manifest, PatchOutcome};
use crate::text::{
    chars_le, chars_of, lemma_lex_total, lemma_lex_transitive, lex_le, matches_at, occurs_at,
    string_from_chars,
};

verus! {

// ---------------------------------------------------------------------------
// Path segments
// ---------------------------------------------------------------------------

/// Where the last `sep`-separated piece of `s[..j]` starts.
pub open spec fn piece_start(s: Seq<char>, sep: char, j: int) -> int
    decreases j,
{
    if j <= 0 {
        0
    } else if s[j - 1] == sep {
        j
    } else {
        piece_start(s, sep, j - 1)
    }
}

/// What follows the last `sep` in `s` (all of `s` when it holds none).
pub open spec fn last_piece(s: Seq<char>, sep: char) -> Seq<char> {
    s.subrange(piece_start(s, sep, s.len() as int), s.len() as int)
}

proof fn lemma_piece_start_bounds(s: Seq<char>, sep: char, j: int)
    requires
        0 <= j <= s.len(),
    ensures
        0 <= piece_start(s, sep, j) <= j,
    decreases j,
{
    if j > 0 && s[j - 1] != sep {
        lemma_piece_start_bounds(s, sep, j - 1);
    }
}

fn last_piece_start(s: &Vec<char>, sep: char) -> (i: usize)
    ensures
        i == piece_start(s@, sep, s@.len() as int),
        i <= s@.len(),
{
    let mut j = s.len();
    while j > 0 && s[j - 1] != sep
        invariant
            j <= s@.len(),
            piece_start(s@, sep, j as int) == piece_start(s@, sep, s@.len() as int),
        decreases j,
    {
        j = j - 1;
    }
    j
}

/// Whether `dir` is a whole `/`-separated segment of `s` starting at `i`,
/// or the start of one that goes on with `-`.
pub open spec fn dir_segment_at(s: Seq<char>, dir: Seq<char>, i: int) -> bool {
    &&& occurs_at(s, i, dir)
    &&& (i == 0 || s[i - 1] == '/')
    &&& (i + dir.len() == s.len() || s[i + dir.len()] == '/' || s[i + dir.len()] == '-')
}

/// Whether a segment of `s` is `dir` or begins with `dir` and a `-`.
pub open spec fn has_dir_segment(s: Seq<char>, dir: Seq<char>) -> bool {
    exists|i: int| dir_segment_at(s, dir, i)
}

fn find_dir_segment(s: &Vec<char>, dir: &Vec<char>) -> (b: bool)
    requires
        dir@.len() > 0,
    ensures
        b == has_dir_segment(s@, dir@),
{
    let mut i: usize = 0;
    while i < s.len()
        invariant
            i <= s@.len(),
            dir@.len() > 0,
            forall|j: int| 0 <= j < i ==> !dir_segment_at(s@, dir@, j),
        decreases s@.len() - i,
    {
        if (i == 0 || s[i - 1] == '/') && matches_at(s, i, dir) {
            let e = i + dir.len();
            if e == s.len() || s[e] == '/' || s[e] == '-' {
                assert(dir_segment_at(s@, dir@, i as int));
                return true;
            }
        }
        i = i + 1;
    }
    assert forall|j: int| !dir_segment_at(s@, dir@, j) by {
        if 0 <= j < i {
        }
    }
    false
}

// ---------------------------------------------------------------------------
// Icons
// ---------------------------------------------------------------------------

/// The icon directories of the templates and the icon size in pixels that
/// each stands for, in the order in which they are tried.
pub open spec fn icon_directories() -> Seq<(Seq<char>, u32)> {
    seq![
        ("drawable-mdpi"@, 48u32),
        ("drawable-hdpi"@, 72u32),
        ("drawable-xhdpi"@, 96u32),
        ("drawable-xxhdpi"@, 144u32),
        ("drawable-xxxhdpi"@, 192u32),
    ]
}

/// The icon sizes in pixels, one per density.
pub open spec fn icon_sizes() -> Seq<u32> {
    seq![48u32, 72u32, 96u32, 144u32, 192u32]
}

/// The size of the first icon directory, from index `k` on, that `s` has.
pub open spec fn first_icon_size(s: Seq<char>, k: nat) -> Option<u32>
    decreases icon_directories().len() - k,
{
    if k >= icon_directories().len() {
        None
    } else if has_dir_segment(s, icon_directories()[k as int].0) {
        Some(icon_directories()[k as int].1)
    } else {
        first_icon_size(s, k + 1)
    }
}

/// The icon size that a template entry named `s` is replaced with: its file
/// is `icon_payload.png` and one of its directories is that of a density,
/// possibly with qualifiers such as `-v4`.
pub open spec fn spec_icon_density(s: Seq<char>) -> Option<u32> {
    if last_piece(s, '/') == "icon_payload.png"@ {
        first_icon_size(s, 0)
    } else {
        None
    }
}

fn icon_directory_table() -> (table: Vec<(Vec<char>, u32)>)
    ensures
        table@.len() == icon_directories().len(),
        forall|k: int|
            0 <= k < table@.len() ==> #[trigger] table@[k].0@ == icon_directories()[k].0
                && table@[k].1 == icon_directories()[k].1 && table@[k].0@.len() > 0,
{
    let mut table: Vec<(Vec<char>, u32)> = Vec::new();
    table.push((chars_of("drawable-mdpi"), 48));
    table.push((chars_of("drawable-hdpi"), 72));
    table.push((chars_of("drawable-xhdpi"), 96));
    table.push((chars_of("drawable-xxhdpi"), 144));
    table.push((chars_of("drawable-xxxhdpi"), 192));
    proof {
        reveal_strlit("drawable-mdpi");
        reveal_strlit("drawable-hdpi");
        reveal_strlit("drawable-xhdpi");
        reveal_strlit("drawable-xxhdpi");
        reveal_strlit("drawable-xxxhdpi");
    }
    table
}

/// The icon size that the template entry `name` is replaced with, if any.
pub fn icon_density_for(name: &str) -> (res: Option<u32>)
    ensures
        res == spec_icon_density(name@),
{
    let s = chars_of(name);
    let start = last_piece_start(&s, '/');
    let file = chars_of("icon_payload.png");
    if !(s.len() - start == file.len() && matches_at(&s, start, &file)) {
        assert(last_piece(s@, '/') != file@) by {
            if last_piece(s@, '/') == file@ {
                assert(s@.subrange(start as int, start + file@.len()) =~= last_piece(s@, '/'));
            }
        }
        return None;
    }
    assert(last_piece(s@, '/') =~= file@);
    let table = icon_directory_table();
    let mut k: usize = 0;
    assert forall|j: int|
        0 <= j < table@.len() implies #[trigger] table@[j].0@ == icon_directories()[j].0
            && table@[j].1 == icon_directories()[j].1 && table@[j].0@.len() > 0 by {
        assert(table@[j].0@ == icon_directories()[j].0);
    }
    while k < table.len()
        invariant
            k <= table@.len(),
            table@.len() == icon_directories().len(),
            forall|j: int|
                0 <= j < table@.len() ==> #[trigger] table@[j].0@ == icon_directories()[j].0
                    && table@[j].1 == icon_directories()[j].1 && table@[j].0@.len() > 0,
            first_icon_size(s@, 0) == first_icon_size(s@, k as nat),
            s@ == name@,
            last_piece(s@, '/') == "icon_payload.png"@,
        decreases table@.len() - k,
    {
        assert(table@[k as int].0@ == icon_directories()[k as int].0);
        if find_dir_segment(&s, &table[k].0) {
            assert(first_icon_size(s@, k as nat) == Some(icon_directories()[k as int].1));
            return Some(table[k].1);
        }
        k = k + 1;
    }
    None
}

// ---------------------------------------------------------------------------
// Entries of the APK template
// ---------------------------------------------------------------------------

fn starts_with_literal(s: &Vec<char>, prefix: &str) -> (b: bool)
    ensures
        b == occurs_at(s@, 0, prefix@),
{
    let p = chars_of(prefix);
    matches_at(s, 0, &p)
}

fn equals_literal(s: &Vec<char>, other: &str) -> (b: bool)
    ensures
        b == (s@ == other@),
{
    let p = chars_of(other);
    let b = s.len() == p.len() && matches_at(s, 0, &p);
    proof {
        if s@.len() == p@.len() {
            assert(s@.subrange(0, p@.len() as int) =~= s@);
        }
    }
    b
}

/// Whether the APK template's entry `s` is left out of the package, to be
/// written anew: the old signature, the web files and the app settings.
pub open spec fn spec_should_replace(s: Seq<char>) -> bool {
    occurs_at(s, 0, "META-INF/"@) || occurs_at(s, 0, "assets/www/"@) || s == "assets/app.json"@
}

/// Whether the APK template's entry `name` is left out of the package.
pub fn should_replace(name: &str) -> (b: bool)
    ensures
        b == spec_should_replace(name@),
{
    let s = chars_of(name);
    starts_with_literal(&s, "META-INF/") || starts_with_literal(&s, "assets/www/")
        || equals_literal(&s, "assets/app.json")
}

/// Whether the entry `s` is stored uncompressed and aligned: the resource
/// table and the native libraries.
pub open spec fn spec_stored_aligned(s: Seq<char>) -> bool {
    s == "resources.arsc"@ || occurs_at(s, 0, "lib/"@)
}

/// Whether the entry `name` is stored uncompressed rather than deflated.
pub fn stored_uncompressed(name: &str) -> (b: bool)
    ensures
        b == spec_stored_aligned(name@),
{
    let s = chars_of(name);
    equals_literal(&s, "resources.arsc") || starts_with_literal(&s, "lib/")
}

/// The alignment in bytes of the data of the entry `name`.
pub fn alignment_for(name: &str) -> (a: u64)
    ensures
        a == (if spec_stored_aligned(name@) {
            4u64
        } else {
            1u64
        }),
{
    if stored_uncompressed(name) {
        4
    } else {
        1
    }
}

/// The number of padding bytes that puts the data of a stored entry on a
/// multiple of `alignment`, where `header_end` is the offset at which the
/// extra field (a 4-byte header and then the padding) begins.
pub fn alignment_padding(alignment: u64, header_end: u64) -> (padding: u64)
    requires
        alignment > 0,
        header_end <= u64::MAX - 4,
    ensures
        padding == (alignment - ((header_end + 4) % (alignment as int))) % (alignment as int),
        padding < alignment,
        (header_end + 4 + padding) % (alignment as int) == 0,
{
    let padding = (alignment - ((header_end + 4) % alignment)) % alignment;
    proof {
        let a = alignment as int;
        let h = (header_end + 4) as int;
        let r = h % a;
        vstd::arithmetic::div_mod::lemma_fundamental_div_mod(h, a);
        if r == 0 {
            vstd::arithmetic::div_mod::lemma_mod_self_0(a);
            assert(padding == 0);
        } else {
            vstd::arithmetic::div_mod::lemma_small_mod((a - r) as nat, a as nat);
            assert(padding == a - r);
            assert(h + padding == a * (h / a) + a);
            vstd::arithmetic::div_mod::lemma_mod_multiples_basic(h / a + 1, a);
            vstd::arithmetic::mul::lemma_mul_is_distributive_add(a, h / a, 1);
            vstd::arithmetic::mul::lemma_mul_is_commutative(a, h / a + 1);
        }
    }
    padding
}

/// The name of an archive entry with `\` turned into `/`.
pub open spec fn spec_archive_name(raw: Seq<char>) -> Seq<char> {
    raw.map_values(|c: char| if c == '\\' { '/' } else { c })
}

/// The name of a template entry as the packages use it: `\` becomes `/`.
pub fn archive_name(raw: &str) -> (name: String)
    ensures
        name@ == spec_archive_name(raw@),
{
    let s = chars_of(raw);
    let mut out: Vec<char> = Vec::new();
    let mut i: usize = 0;
    while i < s.len()
        invariant
            i <= s@.len(),
            out@ == spec_archive_name(s@.take(i as int)),
        decreases s@.len() - i,
    {
        let c = s[i];
        if c == '\\' {
            out.push('/');
        } else {
            out.push(c);
        }
        proof {
            assert(s@.take(i + 1) =~= s@.take(i as int).push(c));
        }
        i = i + 1;
        assert(out@ =~= spec_archive_name(s@.take(i as int)));
    }
    assert(s@.take(i as int) =~= s@);
    string_from_chars(&out)
}

// ---------------------------------------------------------------------------
// Manifest replacements
// ---------------------------------------------------------------------------

/// The value that turns the permission `name` off: a name under
/// `io.html2apk.disabled` ending in the last `.`-separated part of `name`.
pub open spec fn disabled_permission(name: Seq<char>) -> Seq<char> {
    "io.html2apk.disabled."@ + last_piece(name, '.')
}

pub open spec fn media_storage(mode: StorageMode) -> bool {
    mode == StorageMode::Media || mode == StorageMode::AllFiles
}

/// Each permission of the template with whether the configuration wants it.
pub open spec fn permission_switches(c: AppConfig) -> Seq<(Seq<char>, bool)> {
    seq![
        ("android.permission.INTERNET"@, c.internet),
        ("android.permission.CAMERA"@, c.camera),
        ("android.permission.RECORD_AUDIO"@, c.microphone),
        ("android.permission.ACCESS_FINE_LOCATION"@, c.location),
        ("android.permission.POST_NOTIFICATIONS"@, c.notifications),
        ("android.permission.READ_MEDIA_AUDIO"@, media_storage(c.storage)),
        ("android.permission.READ_MEDIA_IMAGES"@, media_storage(c.storage)),
        ("android.permission.READ_MEDIA_VIDEO"@, media_storage(c.storage)),
        ("android.permission.READ_EXTERNAL_STORAGE"@, media_storage(c.storage)),
        ("android.permission.WRITE_EXTERNAL_STORAGE"@, c.storage == StorageMode::AllFiles),
        ("android.permission.MANAGE_EXTERNAL_STORAGE"@, c.storage == StorageMode::AllFiles),
    ]
}

/// `m` with every permission of `p` that is off mapped to its disabled name.
pub open spec fn disable_permissions(
    m: Map<Seq<char>, Seq<char>>,
    p: Seq<(Seq<char>, bool)>,
) -> Map<Seq<char>, Seq<char>>
    decreases p.len(),
{
    if p.len() == 0 {
        m
    } else {
        let before = disable_permissions(m, p.drop_last());
        if p.last().1 {
            before
        } else {
            before.insert(p.last().0, disabled_permission(p.last().0))
        }
    }
}

/// The placeholders of the template manifest and their values.
pub open spec fn placeholder_values(c: AppConfig) -> Map<Seq<char>, Seq<char>> {
    Map::empty().insert("io.html2apk.generated"@, c.package_id@).insert(
        "__H2A_APP_NAME__"@,
        c.app_name@,
    ).insert("__H2A_VERSION_NAME__"@, c.version_name@)
}

/// The string replacements that turn the template manifest into that of `c`.
pub open spec fn spec_manifest_replacements(c: AppConfig) -> Map<Seq<char>, Seq<char>> {
    disable_permissions(placeholder_values(c), permission_switches(c))
}

/// `m` holds the disabled name `disabled` for the permission `name` exactly
/// when the permission is not `on`.
pub open spec fn permission_state(m: Map<Seq<char>, Seq<char>>, name: Seq<char>, disabled: Seq<char>, on: bool) -> bool {
    &&& m.contains_key(name) <==> !on
    &&& !on ==> m[name] == disabled
}

proof fn lemma_piece_start_after(pre: Seq<char>, t: Seq<char>, j: int)
    requires
        pre.len() > 0,
        pre.last() == '.',
        !t.contains('.'),
        pre.len() <= j <= pre.len() + t.len(),
    ensures
        piece_start(pre + t, '.', j) == pre.len(),
    decreases j,
{
    let s = pre + t;
    if j > pre.len() {
        assert(s[j - 1] == t[j - 1 - pre.len()]);
        lemma_piece_start_after(pre, t, j - 1);
    } else {
        assert(s[j - 1] == pre.last());
    }
}

proof fn lemma_disabled_name(t: Seq<char>)
    requires
        !t.contains('.'),
    ensures
        disabled_permission("android.permission."@ + t) == "io.html2apk.disabled."@ + t,
{
    reveal_strlit("android.permission.");
    let pre = "android.permission."@;
    lemma_piece_start_after(pre, t, (pre + t).len() as int);
    assert((pre + t).subrange(pre.len() as int, (pre + t).len() as int) =~= t);
}

proof fn lemma_disable_at(m0: Map<Seq<char>, Seq<char>>, p: Seq<(Seq<char>, bool)>, i: int)
    requires
        0 <= i < p.len(),
        forall|j: int| 0 <= j < p.len() && j != i ==> (#[trigger] p[j]).0 != p[i].0,
        !m0.contains_key(p[i].0),
    ensures
        disable_permissions(m0, p).contains_key(p[i].0) <==> !p[i].1,
        !p[i].1 ==> disable_permissions(m0, p)[p[i].0] == disabled_permission(p[i].0),
    decreases p.len(),
{
    if i < p.len() - 1 {
        let q = p.drop_last();
        assert forall|j: int| 0 <= j < q.len() && j != i implies (#[trigger] q[j]).0 != q[i].0 by {
            assert(q[j] == p[j]);
        }
        lemma_disable_at(m0, q, i);
        assert(p.last() == p[p.len() - 1]);
        assert(p.last().0 != p[i].0);
    } else {
        let q = p.drop_last();
        assert forall|j: int| 0 <= j < q.len() implies (#[trigger] q[j]).0 != p[i].0 by {
            assert(q[j] == p[j]);
        }
        lemma_disable_keeps(m0, q, p[i].0);
        assert(p.last() == p[i]);
    }
}

proof fn lemma_disable_keeps(m0: Map<Seq<char>, Seq<char>>, p: Seq<(Seq<char>, bool)>, k: Seq<char>)
    requires
        forall|j: int| 0 <= j < p.len() ==> (#[trigger] p[j]).0 != k,
    ensures
        disable_permissions(m0, p).contains_key(k) == m0.contains_key(k),
        m0.contains_key(k) ==> disable_permissions(m0, p)[k] == m0[k],
    decreases p.len(),
{
    if p.len() > 0 {
        let q = p.drop_last();
        assert forall|j: int| 0 <= j < q.len() implies (#[trigger] q[j]).0 != k by {
            assert(q[j] == p[j]);
        }
        lemma_disable_keeps(m0, q, k);
        assert(p.last() == p[p.len() - 1]);
    }
}

/// The replacement table of a configuration: the package id, the app name
/// and the version name take the places of their placeholders, and each
/// permission of the template is renamed to `io.html2apk.disabled.` and its
/// last name part exactly when the setting that governs it is off: INTERNET
/// by internet, CAMERA by camera, RECORD_AUDIO by microphone,
/// ACCESS_FINE_LOCATION by location, POST_NOTIFICATIONS by notifications,
/// the media and external-storage reads by a storage mode of media or all
/// files, the external-storage write and management by all files.
pub proof fn lemma_replacements_follow_settings(c: AppConfig)
    ensures
        ({
            let m = spec_manifest_replacements(c);
            let media = c.storage == StorageMode::Media || c.storage == StorageMode::AllFiles;
            let all = c.storage == StorageMode::AllFiles;
            &&& m.contains_key("io.html2apk.generated"@) && m["io.html2apk.generated"@] == c.package_id@
            &&& m.contains_key("__H2A_APP_NAME__"@) && m["__H2A_APP_NAME__"@] == c.app_name@
            &&& m.contains_key("__H2A_VERSION_NAME__"@) && m["__H2A_VERSION_NAME__"@] == c.version_name@
            &&& permission_state(m, "android.permission.INTERNET"@, "io.html2apk.disabled.INTERNET"@, c.internet)
            &&& permission_state(m, "android.permission.CAMERA"@, "io.html2apk.disabled.CAMERA"@, c.camera)
            &&& permission_state(m, "android.permission.RECORD_AUDIO"@, "io.html2apk.disabled.RECORD_AUDIO"@, c.microphone)
            &&& permission_state(m, "android.permission.ACCESS_FINE_LOCATION"@, "io.html2apk.disabled.ACCESS_FINE_LOCATION"@, c.location)
            &&& permission_state(m, "android.permission.POST_NOTIFICATIONS"@, "io.html2apk.disabled.POST_NOTIFICATIONS"@, c.notifications)
            &&& permission_state(m, "android.permission.READ_MEDIA_AUDIO"@, "io.html2apk.disabled.READ_MEDIA_AUDIO"@, media)
            &&& permission_state(m, "android.permission.READ_MEDIA_IMAGES"@, "io.html2apk.disabled.READ_MEDIA_IMAGES"@, media)
            &&& permission_state(m, "android.permission.READ_MEDIA_VIDEO"@, "io.html2apk.disabled.READ_MEDIA_VIDEO"@, media)
            &&& permission_state(m, "android.permission.READ_EXTERNAL_STORAGE"@, "io.html2apk.disabled.READ_EXTERNAL_STORAGE"@, media)
            &&& permission_state(m, "android.permission.WRITE_EXTERNAL_STORAGE"@, "io.html2apk.disabled.WRITE_EXTERNAL_STORAGE"@, all)
            &&& permission_state(m, "android.permission.MANAGE_EXTERNAL_STORAGE"@, "io.html2apk.disabled.MANAGE_EXTERNAL_STORAGE"@, all)
        }),
{
    reveal_strlit("android.permission.INTERNET");
    reveal_strlit("android.permission.CAMERA");
    reveal_strlit("android.permission.RECORD_AUDIO");
    reveal_strlit("android.permission.ACCESS_FINE_LOCATION");
    reveal_strlit("android.permission.POST_NOTIFICATIONS");
    reveal_strlit("android.permission.READ_MEDIA_AUDIO");
    reveal_strlit("android.permission.READ_MEDIA_IMAGES");
    reveal_strlit("android.permission.READ_MEDIA_VIDEO");
    reveal_strlit("android.permission.READ_EXTERNAL_STORAGE");
    reveal_strlit("android.permission.WRITE_EXTERNAL_STORAGE");
    reveal_strlit("android.permission.MANAGE_EXTERNAL_STORAGE");
    reveal_strlit("INTERNET");
    reveal_strlit("CAMERA");
    reveal_strlit("RECORD_AUDIO");
    reveal_strlit("ACCESS_FINE_LOCATION");
    reveal_strlit("POST_NOTIFICATIONS");
    reveal_strlit("READ_MEDIA_AUDIO");
    reveal_strlit("READ_MEDIA_IMAGES");
    reveal_strlit("READ_MEDIA_VIDEO");
    reveal_strlit("READ_EXTERNAL_STORAGE");
    reveal_strlit("WRITE_EXTERNAL_STORAGE");
    reveal_strlit("MANAGE_EXTERNAL_STORAGE");
    reveal_strlit("io.html2apk.disabled.INTERNET");
    reveal_strlit("io.html2apk.disabled.CAMERA");
    reveal_strlit("io.html2apk.disabled.RECORD_AUDIO");
    reveal_strlit("io.html2apk.disabled.ACCESS_FINE_LOCATION");
    reveal_strlit("io.html2apk.disabled.POST_NOTIFICATIONS");
    reveal_strlit("io.html2apk.disabled.READ_MEDIA_AUDIO");
    reveal_strlit("io.html2apk.disabled.READ_MEDIA_IMAGES");
    reveal_strlit("io.html2apk.disabled.READ_MEDIA_VIDEO");
    reveal_strlit("io.html2apk.disabled.READ_EXTERNAL_STORAGE");
    reveal_strlit("io.html2apk.disabled.WRITE_EXTERNAL_STORAGE");
    reveal_strlit("io.html2apk.disabled.MANAGE_EXTERNAL_STORAGE");
    reveal_strlit("android.permission.");
    reveal_strlit("io.html2apk.disabled.");
    reveal_strlit("io.html2apk.generated");
    reveal_strlit("__H2A_APP_NAME__");
    reveal_strlit("__H2A_VERSION_NAME__");
    let p = permission_switches(c);
    let m0 = placeholder_values(c);
    assert forall|i: int, j: int| 0 <= i < p.len() && 0 <= j < p.len() && i != j implies #[trigger] p[i].0
        != #[trigger] p[j].0 by {
        if p[i].0 == p[j].0 {
            assert(p[i].0.len() == p[j].0.len());
            assert(p[i].0[30] == p[j].0[30]);
            assert(p[i].0[20] == p[j].0[20]);
        }
    }
    assert forall|i: int| 0 <= i < p.len() implies !m0.contains_key(#[trigger] p[i].0) by {
        assert(p[i].0[0] == 'a');
        assert(p[i].0.len() > 24);
    }
    assert forall|i: int| 0 <= i < p.len() implies {
        &&& (#[trigger] p[i]).0 != "io.html2apk.generated"@
        &&& p[i].0 != "__H2A_APP_NAME__"@
        &&& p[i].0 != "__H2A_VERSION_NAME__"@
    } by {
        assert(p[i].0[0] == 'a');
        assert(p[i].0.len() > 24);
    }
    assert("io.html2apk.generated"@[0] == 'i' && "__H2A_APP_NAME__"@[0] == '_');
    assert("__H2A_VERSION_NAME__"@[0] == '_');
    assert("__H2A_APP_NAME__"@[6] == 'A' && "__H2A_VERSION_NAME__"@[6] == 'V');
    assert("io.html2apk.generated"@ != "__H2A_APP_NAME__"@);
    assert("io.html2apk.generated"@ != "__H2A_VERSION_NAME__"@);
    assert("__H2A_APP_NAME__"@ != "__H2A_VERSION_NAME__"@);
    assert(m0["io.html2apk.generated"@] == c.package_id@);
    assert(m0["__H2A_APP_NAME__"@] == c.app_name@);
    assert(m0["__H2A_VERSION_NAME__"@] == c.version_name@);
    lemma_disable_keeps(m0, p, "io.html2apk.generated"@);
    lemma_disable_keeps(m0, p, "__H2A_APP_NAME__"@);
    lemma_disable_keeps(m0, p, "__H2A_VERSION_NAME__"@);
    lemma_disable_at(m0, p, 0);
    assert("android.permission.INTERNET"@ =~= "android.permission."@ + "INTERNET"@);
    assert("io.html2apk.disabled.INTERNET"@ =~= "io.html2apk.disabled."@ + "INTERNET"@);
    lemma_disabled_name("INTERNET"@);
    lemma_disable_at(m0, p, 1);
    assert("android.permission.CAMERA"@ =~= "android.permission."@ + "CAMERA"@);
    assert("io.html2apk.disabled.CAMERA"@ =~= "io.html2apk.disabled."@ + "CAMERA"@);
    lemma_disabled_name("CAMERA"@);
    lemma_disable_at(m0, p, 2);
    assert("android.permission.RECORD_AUDIO"@ =~= "android.permission."@ + "RECORD_AUDIO"@);
    assert("io.html2apk.disabled.RECORD_AUDIO"@ =~= "io.html2apk.disabled."@ + "RECORD_AUDIO"@);
    lemma_disabled_name("RECORD_AUDIO"@);
    lemma_disable_at(m0, p, 3);
    assert("android.permission.ACCESS_FINE_LOCATION"@ =~= "android.permission."@ + "ACCESS_FINE_LOCATION"@);
    assert("io.html2apk.disabled.ACCESS_FINE_LOCATION"@ =~= "io.html2apk.disabled."@ + "ACCESS_FINE_LOCATION"@);
    lemma_disabled_name("ACCESS_FINE_LOCATION"@);
    lemma_disable_at(m0, p, 4);
    assert("android.permission.POST_NOTIFICATIONS"@ =~= "android.permission."@ + "POST_NOTIFICATIONS"@);
    assert("io.html2apk.disabled.POST_NOTIFICATIONS"@ =~= "io.html2apk.disabled."@ + "POST_NOTIFICATIONS"@);
    lemma_disabled_name("POST_NOTIFICATIONS"@);
    lemma_disable_at(m0, p, 5);
    assert("android.permission.READ_MEDIA_AUDIO"@ =~= "android.permission."@ + "READ_MEDIA_AUDIO"@);
    assert("io.html2apk.disabled.READ_MEDIA_AUDIO"@ =~= "io.html2apk.disabled."@ + "READ_MEDIA_AUDIO"@);
    lemma_disabled_name("READ_MEDIA_AUDIO"@);
    lemma_disable_at(m0, p, 6);
    assert("android.permission.READ_MEDIA_IMAGES"@ =~= "android.permission."@ + "READ_MEDIA_IMAGES"@);
    assert("io.html2apk.disabled.READ_MEDIA_IMAGES"@ =~= "io.html2apk.disabled."@ + "READ_MEDIA_IMAGES"@);
    lemma_disabled_name("READ_MEDIA_IMAGES"@);
    lemma_disable_at(m0, p, 7);
    assert("android.permission.READ_MEDIA_VIDEO"@ =~= "android.permission."@ + "READ_MEDIA_VIDEO"@);
    assert("io.html2apk.disabled.READ_MEDIA_VIDEO"@ =~= "io.html2apk.disabled."@ + "READ_MEDIA_VIDEO"@);
    lemma_disabled_name("READ_MEDIA_VIDEO"@);
    lemma_disable_at(m0, p, 8);
    assert("android.permission.READ_EXTERNAL_STORAGE"@ =~= "android.permission."@ + "READ_EXTERNAL_STORAGE"@);
    assert("io.html2apk.disabled.READ_EXTERNAL_STORAGE"@ =~= "io.html2apk.disabled."@ + "READ_EXTERNAL_STORAGE"@);
    lemma_disabled_name("READ_EXTERNAL_STORAGE"@);
    lemma_disable_at(m0, p, 9);
    assert("android.permission.WRITE_EXTERNAL_STORAGE"@ =~= "android.permission."@ + "WRITE_EXTERNAL_STORAGE"@);
    assert("io.html2apk.disabled.WRITE_EXTERNAL_STORAGE"@ =~= "io.html2apk.disabled."@ + "WRITE_EXTERNAL_STORAGE"@);
    lemma_disabled_name("WRITE_EXTERNAL_STORAGE"@);
    lemma_disable_at(m0, p, 10);
    assert("android.permission.MANAGE_EXTERNAL_STORAGE"@ =~= "android.permission."@ + "MANAGE_EXTERNAL_STORAGE"@);
    assert("io.html2apk.disabled.MANAGE_EXTERNAL_STORAGE"@ =~= "io.html2apk.disabled."@ + "MANAGE_EXTERNAL_STORAGE"@);
    lemma_disabled_name("MANAGE_EXTERNAL_STORAGE"@);
}

fn permission_switch_list(config: &AppConfig) -> (v: Vec<(String, bool)>)
    ensures
        v@.len() == permission_switches(*config).len(),
        forall|i: int|
            0 <= i < v@.len() ==> (#[trigger] v@[i].0@, v@[i].1) == permission_switches(*config)[i],
{
    let media = match config.storage {
        StorageMode::Media | StorageMode::AllFiles => true,
        _ => false,
    };
    let all_files = match config.storage {
        StorageMode::AllFiles => true,
        _ => false,
    };
    let mut v: Vec<(String, bool)> = Vec::new();
    v.push((String::from_str("android.permission.INTERNET"), config.internet));
    v.push((String::from_str("android.permission.CAMERA"), config.camera));
    v.push((String::from_str("android.permission.RECORD_AUDIO"), config.microphone));
    v.push((String::from_str("android.permission.ACCESS_FINE_LOCATION"), config.location));
    v.push((String::from_str("android.permission.POST_NOTIFICATIONS"), config.notifications));
    v.push((String::from_str("android.permission.READ_MEDIA_AUDIO"), media));
    v.push((String::from_str("android.permission.READ_MEDIA_IMAGES"), media));
    v.push((String::from_str("android.permission.READ_MEDIA_VIDEO"), media));
    v.push((String::from_str("android.permission.READ_EXTERNAL_STORAGE"), media));
    v.push((String::from_str("android.permission.WRITE_EXTERNAL_STORAGE"), all_files));
    v.push((String::from_str("android.permission.MANAGE_EXTERNAL_STORAGE"), all_files));
    v
}

fn disabled_value(name: &String) -> (value: String)
    ensures
        value@ == disabled_permission(name@),
{
    let s = chars_of(name.as_str());
    let start = last_piece_start(&s, '.');
    let mut out = chars_of("io.html2apk.disabled.");
    let ghost prefix = out@;
    let mut i = start;
    while i < s.len()
        invariant
            start <= i <= s@.len(),
            out@ == prefix + s@.subrange(start as int, i as int),
        decreases s@.len() - i,
    {
        out.push(s[i]);
        i = i + 1;
        assert(out@ =~= prefix + s@.subrange(start as int, i as int));
    }
    string_from_chars(&out)
}

/// The string replacements that turn the template manifest into that of
/// `config`: the package id, the app name and the version name, and every
/// permission the configuration leaves off renamed so that it is not granted.
pub fn manifest_replacements(config: &AppConfig) -> (r: Replacements)
    ensures
        r@ == spec_manifest_replacements(*config),
{
    let mut r = Replacements::new();
    r.insert(String::from_str("io.html2apk.generated"), config.package_id.clone());
    r.insert(String::from_str("__H2A_APP_NAME__"), config.app_name.clone());
    r.insert(String::from_str("__H2A_VERSION_NAME__"), config.version_name.clone());
    assert(r@ == placeholder_values(*config));
    let switches = permission_switch_list(config);
    let mut i: usize = 0;
    while i < switches.len()
        invariant
            i <= switches@.len(),
            switches@.len() == permission_switches(*config).len(),
            forall|j: int|
                0 <= j < switches@.len() ==> (#[trigger] switches@[j].0@, switches@[j].1)
                    == permission_switches(*config)[j],
            r@ == disable_permissions(
                placeholder_values(*config),
                permission_switches(*config).take(i as int),
            ),
        decreases switches@.len() - i,
    {
        let ghost p = permission_switches(*config).take(i + 1);
        proof {
            assert(p.drop_last() =~= permission_switches(*config).take(i as int));
            assert((switches@[i as int].0@, switches@[i as int].1) == p.last());
        }
        if !switches[i].1 {
            let value = disabled_value(&switches[i].0);
            r.insert(switches[i].0.clone(), value);
        }
        i = i + 1;
    }
    assert(permission_switches(*config).take(i as int) =~= permission_switches(*config));
    r
}

// ---------------------------------------------------------------------------
// Build requests
// ---------------------------------------------------------------------------

#[verifier::external_type_specification]
#[verifier::external_body]
pub struct ExPathBuf(std::path::PathBuf);

#[verifier::external_type_specification]
#[verifier::external_body]
pub struct ExPath(std::path::Path);

/// What to build, from which folder, into which file.
#[derive(Debug)]
pub struct BuildRequest {
    pub web_root: std::path::PathBuf,
    pub output_apk: std::path::PathBuf,
    pub icon: Option<std::path::PathBuf>,
    pub signing_key: Option<std::path::PathBuf>,
    pub config: AppConfig,
    pub format: OutputFormat,
}

/// Why a package could not be built.
#[derive(Debug, Clone, Copy, PartialEq, Eq, Structural)]
pub enum PackageError {
    /// The request breaks a rule of the configuration.
    Invalid(ValidationError),
    /// The icon file does not exist.
    IconMissing,
    /// An icon was given but the template has no icon entry to replace.
    IconNotInTemplate,
    /// The icon could not be scaled or encoded.
    IconEncoding,
    /// The HTML folder holds a symbolic link.
    SymbolicLink,
    /// The HTML folder holds more than 2 GiB.
    WebTooLarge,
    /// A path in the HTML folder is not a plain relative path.
    UnsafePath,
    /// The template archive cannot be read.
    TemplateCorrupt,
    /// The binary manifest of the template cannot be patched.
    Manifest(crate::axml::AxmlError),
    /// The binary manifest of the template holds an empty chunk, on which
    /// its walk would never end.
    ManifestLoops,
}

/// What a build decides before writing anything, given what the file system
/// says of the HTML folder, the start page and the icon, and whether the
/// start page passed the relative-path rule: the rules of the request, then
/// the icon, then the kind of package.
pub open spec fn spec_build(
    request: BuildRequest,
    web_root_is_dir: bool,
    start_page_is_file: bool,
    icon_is_file: bool,
    relative: bool,
) -> Result<OutputFormat, PackageError> {
    match spec_validate_request(request.config, web_root_is_dir, start_page_is_file, relative) {
        Err(e) => Err(PackageError::Invalid(e)),
        Ok(()) => if request.icon is Some && !icon_is_file {
            Err(PackageError::IconMissing)
        } else {
            Ok(request.format)
        },
    }
}

/// Checks a request and tells which kind of package to write: the rules of
/// the configuration, then that the icon, if any, is a file.
pub fn build(
    request: &BuildRequest,
    web_root_is_dir: bool,
    start_page_is_file: bool,
    icon_is_file: bool,
) -> (res: Result<OutputFormat, PackageError>)
    ensures
        res == spec_build(*request, web_root_is_dir, start_page_is_file, icon_is_file, true) || res
            == spec_build(*request, web_root_is_dir, start_page_is_file, icon_is_file, false),
        starts_with_slash(request.config.start_page@) || has_parent_segment(
            request.config.start_page@,
        ) ==> res == spec_build(
            *request,
            web_root_is_dir,
            start_page_is_file,
            icon_is_file,
            false,
        ),
        plain_relative(request.config.start_page@) ==> res == spec_build(
            *request,
            web_root_is_dir,
            start_page_is_file,
            icon_is_file,
            true,
        ),
{
    match validate_request(&request.config, web_root_is_dir, start_page_is_file) {
        Err(e) => {
            return Err(PackageError::Invalid(e));
        },
        Ok(()) => {},
    }
    if request.icon.is_some() && !icon_is_file {
        return Err(PackageError::IconMissing);
    }
    Ok(request.format)
}

// ---------------------------------------------------------------------------
// The files of the HTML folder
// ---------------------------------------------------------------------------

/// The largest total size of the HTML folder: 2 GiB.
pub const MAX_WEB_BYTES: u64 = 2147483648;

/// A component of a path below the HTML folder.
pub enum PathPart {
    /// A plain name, as text.
    Normal(String),
    /// Anything else: a root, a prefix, `.` or `..`.
    Other,
}

/// Whether a walked entry of the HTML folder is taken: a symbolic link is an
/// error, what is not a file or is one of the excluded outputs is passed over.
pub fn web_entry_wanted(is_symlink: bool, is_file: bool, excluded: bool) -> (res: Result<
    bool,
    PackageError,
>)
    ensures
        res == (if is_symlink {
            Err(PackageError::SymbolicLink)
        } else {
            Ok(is_file && !excluded)
        }),
{
    if is_symlink {
        Err(PackageError::SymbolicLink)
    } else {
        Ok(is_file && !excluded)
    }
}

pub open spec fn part_view(p: PathPart) -> Option<Seq<char>> {
    match p {
        PathPart::Normal(s) => Some(s@),
        PathPart::Other => None,
    }
}

/// Whether every component is a plain name.
pub open spec fn all_normal(parts: Seq<PathPart>) -> bool {
    forall|i: int| 0 <= i < parts.len() ==> #[trigger] parts[i] is Normal
}

/// The names of `parts` joined with `/`.
pub open spec fn join_parts(parts: Seq<PathPart>) -> Seq<char>
    decreases parts.len(),
{
    if parts.len() == 0 {
        Seq::empty()
    } else if parts.len() == 1 {
        parts[0]->Normal_0@
    } else {
        join_parts(parts.drop_last()) + seq!['/'] + parts.last()->Normal_0@
    }
}

/// Whether `seg` is a whole `/`-separated segment of `s`.
pub open spec fn has_segment(s: Seq<char>, seg: Seq<char>) -> bool {
    exists|i: int|
        occurs_at(s, i, seg) && (i == 0 || s[i - 1] == '/') && (i + seg.len() == s.len() || s[i
            + seg.len()] == '/')
}

/// The name inside the package of a file of the HTML folder, given the
/// components of its path below the folder: `None` where it is left out (an
/// empty name, or one inside a `.git` folder).
pub open spec fn web_archive_name(parts: Seq<PathPart>) -> Option<Seq<char>> {
    let name = join_parts(parts);
    if name.len() == 0 || has_segment(name, ".git"@) {
        None
    } else {
        Some(name)
    }
}

/// `total + size`, or `u64::MAX` where that overflows.
pub open spec fn saturating_total(total: u64, size: u64) -> u64 {
    if total + size > u64::MAX {
        u64::MAX
    } else {
        (total + size) as u64
    }
}

/// The files of the HTML folder taken so far, and their total size.
pub struct WebFileScan {
    files: Vec<(std::path::PathBuf, String)>,
    total: u64,
}

pub open spec fn pair_views(s: Seq<(std::path::PathBuf, String)>) -> Seq<(std::path::PathBuf, Seq<char>)> {
    s.map_values(|e: (std::path::PathBuf, String)| (e.0, e.1@))
}

/// Whether the names of `s` are in the order of `str`.
pub open spec fn sorted_by_name(s: Seq<(std::path::PathBuf, Seq<char>)>) -> bool {
    forall|i: int, j: int| 0 <= i < j < s.len() ==> lex_le(#[trigger] s[i].1, #[trigger] s[j].1)
}

impl WebFileScan {
    /// The files taken so far with their names in the package, in the order
    /// they were taken.
    pub closed spec fn entries(&self) -> Seq<(std::path::PathBuf, Seq<char>)> {
        pair_views(self.files@)
    }

    /// The total size of the files counted so far.
    pub closed spec fn total(&self) -> u64 {
        self.total
    }

    pub fn new() -> (scan: WebFileScan)
        ensures
            scan.entries() == Seq::<(std::path::PathBuf, Seq<char>)>::empty(),
            scan.total() == 0,
    {
        let scan = WebFileScan { files: Vec::new(), total: 0 };
        assert(scan.entries() =~= Seq::<(std::path::PathBuf, Seq<char>)>::empty());
        scan
    }

    /// Counts a file of `size` bytes at `path`, whose path below the HTML
    /// folder has the components `parts`, and takes it unless its name is
    /// left out. The total may not pass 2 GiB, and every component must be a
    /// plain name.
    pub fn add(&mut self, path: std::path::PathBuf, size: u64, parts: Vec<PathPart>) -> (res: Result<
        (),
        PackageError,
    >)
        ensures
            final(self).total() == saturating_total(old(self).total(), size),
            saturating_total(old(self).total(), size) > MAX_WEB_BYTES ==> res == Err::<
                (),
                PackageError,
            >(PackageError::WebTooLarge),
            saturating_total(old(self).total(), size) <= MAX_WEB_BYTES && !all_normal(parts@)
                ==> res == Err::<(), PackageError>(PackageError::UnsafePath),
            saturating_total(old(self).total(), size) <= MAX_WEB_BYTES && all_normal(parts@) ==> {
                &&& res is Ok
                &&& final(self).entries() == match web_archive_name(parts@) {
                    Some(name) => old(self).entries().push((path, name)),
                    None => old(self).entries(),
                }
            },
    {
        self.total = self.total.saturating_add(size);
        if self.total > MAX_WEB_BYTES {
            return Err(PackageError::WebTooLarge);
        }
        let mut name: Vec<char> = Vec::new();
        let mut i: usize = 0;
        while i < parts.len()
            invariant
                i <= parts@.len(),
                self.total == saturating_total(old(self).total, size),
                self.total <= MAX_WEB_BYTES,
                self.files@ == old(self).files@,
                all_normal(parts@.take(i as int)),
                name@ == join_parts(parts@.take(i as int)),
            decreases parts@.len() - i,
        {
            proof {
                assert(parts@.take(i + 1).drop_last() =~= parts@.take(i as int));
            }
            match &parts[i] {
                PathPart::Normal(s) => {
                    if i > 0 {
                        name.push('/');
                    }
                    let c = chars_of(s.as_str());
                    let mut k: usize = 0;
                    let ghost before = name@;
                    while k < c.len()
                        invariant
                            k <= c@.len(),
                            name@ == before + c@.take(k as int),
                        decreases c@.len() - k,
                    {
                        name.push(c[k]);
                        k = k + 1;
                        assert(name@ =~= before + c@.take(k as int));
                    }
                    assert(c@.take(k as int) =~= c@);
                },
                PathPart::Other => {
                    assert(!all_normal(parts@)) by {
                        assert(!(parts@[i as int] is Normal));
                    }
                    return Err(PackageError::UnsafePath);
                },
            }
            i = i + 1;
            assert(name@ =~= join_parts(parts@.take(i as int)));
        }
        assert(parts@.take(i as int) =~= parts@);
        if name.len() == 0 || has_git_segment(&name) {
            return Ok(());
        }
        let ghost old_files = self.files@;
        self.files.push((path, string_from_chars(&name)));
        assert(pair_views(self.files@) =~= pair_views(old_files).push((path, name@)));
        Ok(())
    }

    /// The files taken, sorted by their names in the package.
    pub fn finish(self) -> (files: Vec<(std::path::PathBuf, String)>)
        ensures
            pair_views(files@).to_multiset() == self.entries().to_multiset(),
            sorted_by_name(pair_views(files@)),
    {
        sort_by_name(self.files)
    }
}

fn has_git_segment(name: &Vec<char>) -> (b: bool)
    ensures
        b == has_segment(name@, ".git"@),
{
    let git = chars_of(".git");
    proof {
        reveal_strlit(".git");
    }
    let mut i: usize = 0;
    while i < name.len()
        invariant
            i <= name@.len(),
            git@ == ".git"@,
            git@.len() == 4,
            forall|j: int|
                0 <= j < i ==> !(occurs_at(name@, j, git@) && (j == 0 || name@[j - 1] == '/') && (j
                    + git@.len() == name@.len() || name@[j + git@.len()] == '/')),
        decreases name@.len() - i,
    {
        if (i == 0 || name[i - 1] == '/') && matches_at(name, i, &git) {
            let e = i + git.len();
            if e == name.len() || name[e] == '/' {
                return true;
            }
        }
        i = i + 1;
    }
    proof {
        assert forall|j: int|
            !(occurs_at(name@, j, git@) && (j == 0 || name@[j - 1] == '/') && (j + git@.len()
                == name@.len() || name@[j + git@.len()] == '/')) by {
            if 0 <= j < i {
            }
        }
    }
    false
}

/// Sorts files by their names, keeping files of equal names in their order.
fn sort_by_name(files: Vec<(std::path::PathBuf, String)>) -> (out: Vec<(std::path::PathBuf, String)>)
    ensures
        pair_views(out@).to_multiset() == pair_views(files@).to_multiset(),
        sorted_by_name(pair_views(out@)),
{
    broadcast use vstd::seq_lib::group_to_multiset_ensures, vstd::multiset::group_multiset_axioms;
    let mut rest = files;
    let mut out: Vec<(std::path::PathBuf, String)> = Vec::new();
    proof {
        assert(pair_views(out@) =~= Seq::<(std::path::PathBuf, Seq<char>)>::empty());
        assert(pair_views(out@).to_multiset().len() == 0);
        assert(pair_views(out@).to_multiset() =~= vstd::multiset::Multiset::empty());
        assert(pair_views(out@).to_multiset().add(pair_views(rest@).to_multiset())
            =~= pair_views(files@).to_multiset());
    }
    while rest.len() > 0
        invariant
            pair_views(out@).to_multiset().add(pair_views(rest@).to_multiset())
                == pair_views(files@).to_multiset(),
            sorted_by_name(pair_views(out@)),
        decreases rest@.len(),
    {
        let ghost rest_before = rest@;
        let e = rest.pop().unwrap();
        let key = chars_of(e.1.as_str());
        let mut p: usize = 0;
        while p < out.len() && !chars_le(&key, &chars_of(out[p].1.as_str()))
            invariant
                p <= out@.len(),
                key@ == e.1@,
                forall|i: int| 0 <= i < p ==> lex_le(#[trigger] out@[i].1@, e.1@),
            decreases out@.len() - p,
        {
            proof {
                lemma_lex_total(e.1@, out@[p as int].1@);
            }
            p = p + 1;
        }
        let ghost before = out@;
        proof {
            assert forall|j: int| p <= j < before.len() implies lex_le(
                e.1@,
                #[trigger] before[j].1@,
            ) by {
                assert(pair_views(before)[p as int].1 == before[p as int].1@);
                assert(pair_views(before)[j].1 == before[j].1@);
                if j > p {
                    lemma_lex_transitive(e.1@, before[p as int].1@, before[j].1@);
                }
            }
        }
        out.insert(p, e);
        proof {
            let f = |x: (std::path::PathBuf, String)| (x.0, x.1@);
            assert(pair_views(out@) =~= pair_views(before).insert(p as int, f(e)));
            assert(rest_before =~= rest@.push(e));
            assert(pair_views(rest_before) =~= pair_views(rest@).push(f(e)));
            vstd::seq_lib::to_multiset_insert(pair_views(before), p as int, f(e));
            vstd::seq_lib::to_multiset_build(pair_views(rest@), f(e));
            assert(pair_views(out@).to_multiset().add(pair_views(rest@).to_multiset())
                =~= pair_views(before).to_multiset().add(pair_views(rest_before).to_multiset()));
            assert forall|i: int, j: int| 0 <= i < j < pair_views(out@).len() implies lex_le(
                #[trigger] pair_views(out@)[i].1,
                #[trigger] pair_views(out@)[j].1,
            ) by {
                assert(pair_views(before)[0].1 == before[0].1@ || before.len() == 0);
                if j < p {
                    assert(pair_views(before)[i].1 == before[i].1@);
                    assert(pair_views(before)[j].1 == before[j].1@);
                } else if j == p {
                    assert(pair_views(before)[i].1 == before[i].1@);
                } else if i < p {
                    assert(pair_views(before)[i].1 == before[i].1@);
                    assert(pair_views(before)[j - 1].1 == before[j - 1].1@);
                    lemma_lex_transitive(before[i].1@, e.1@, before[j - 1].1@);
                } else if i == p {
                    assert(pair_views(before)[j - 1].1 == before[j - 1].1@);
                } else {
                    assert(pair_views(before)[i - 1].1 == before[i - 1].1@);
                    assert(pair_views(before)[j - 1].1 == before[j - 1].1@);
                }
            }
        }
    }
    proof {
        assert(pair_views(rest@) =~= Seq::<(std::path::PathBuf, Seq<char>)>::empty());
        assert(pair_views(rest@).to_multiset().len() == 0);
        assert(pair_views(rest@).to_multiset() =~= vstd::multiset::Multiset::empty());
        assert(pair_views(out@).to_multiset().add(pair_views(rest@).to_multiset())
            =~= pair_views(out@).to_multiset());
    }
    out
}

// ---------------------------------------------------------------------------
// The template archive
// ---------------------------------------------------------------------------

#[verifier::external_type_specification]
#[verifier::external_body]
#[verifier::reject_recursive_types(T)]
pub struct ExCursor<T>(std::io::Cursor<T>);

#[verifier::external_type_specification]
#[verifier::external_body]
#[verifier::reject_recursive_types(R)]
pub struct ExZipArchive<R>(zip::read::ZipArchive<R>);

#[verifier::external_type_specification]
#[verifier::external_body]
pub struct ExZipError(zip::result::ZipError);

/// A template package read from memory.
pub type TemplateArchive = zip::read::ZipArchive<std::io::Cursor<Vec<u8>>>;

/// The entries of an archive in their order: the name as stored, whether it
/// is a directory, and the data it holds.
pub uninterp spec fn archive_entries(archive: zip::read::ZipArchive<std::io::Cursor<Vec<u8>>>) -> Seq<(Seq<char>, bool, Seq<u8>)>;

/// For each entry of an archive, in their order: whether
/// `ZipArchive::by_index_decrypt` with an empty password opens it (an entry
/// that needs another password does not), and whether it opens and its data
/// then reads to its end (the data is checked against its CRC).
pub uninterp spec fn archive_readable(archive: zip::read::ZipArchive<std::io::Cursor<Vec<u8>>>) -> Seq<(bool, bool)>;

/// Whether a template entry is kept in a package of `format`: not a
/// directory and not an entry written anew.
pub open spec fn entry_kept(format: OutputFormat, entry: (Seq<char>, bool, Seq<u8>)) -> bool {
    !replaced_in(format, spec_archive_name(entry.0)) && !entry.1
}

/// Whether planning a package of `format` can read what it reads: every
/// entry opens, and every kept entry reads to its end.
pub open spec fn plan_readable(
    entries: Seq<(Seq<char>, bool, Seq<u8>)>,
    r: Seq<(bool, bool)>,
    format: OutputFormat,
) -> bool {
    forall|i: int| 0 <= i < r.len() ==> (#[trigger] r[i]).0 && (entry_kept(format, entries[i]) ==> r[i].1)
}

/// Whether looking for the manifest of a bundle can read what it reads:
/// every entry up to the manifest entry (every entry, where there is none)
/// opens, and the manifest entry reads to its end.
pub open spec fn manifest_readable(entries: Seq<(Seq<char>, bool, Seq<u8>)>, r: Seq<(bool, bool)>) -> bool {
    forall|i: int|
        0 <= i < r.len() && (bundle_manifest_index(entries, 0) matches Some(j) ==> i <= j) ==> (
        #[trigger] r[i]).0 && (bundle_manifest_index(entries, 0) == Some(i) ==> r[i].1)
}

/// What `zip::ZipArchive::new` reads from `bytes`: `None` where it refuses
/// them, else the entries of the archive, as `archive_entries` gives them.
pub uninterp spec fn zip_contents(bytes: Seq<u8>) -> Option<Seq<(Seq<char>, bool, Seq<u8>)>>;

/// Calls `zip::ZipArchive::new` on a cursor over `bytes`. Trusted: the
/// reading depends on the bytes alone, so whether it succeeds, and the
/// entries of the archive it gives, are those that `zip_contents` names.
#[verifier::external_body]
fn zip_open(bytes: Vec<u8>) -> (res: Result<TemplateArchive, zip::result::ZipError>)
    ensures
        match res {
            Ok(archive) => zip_contents(bytes@) == Some(archive_entries(archive)),
            Err(_) => zip_contents(bytes@) is None,
        },
{
    zip::read::ZipArchive::new(std::io::Cursor::new(bytes))
}

/// Calls `zip::ZipArchive::len`. Trusted: the number of entries.
#[verifier::external_body]
fn zip_len(archive: &TemplateArchive) -> (n: usize)
    ensures
        n == archive_entries(*archive).len(),
        n == archive_readable(*archive).len(),
{
    archive.len()
}

/// Calls `zip::ZipArchive::by_index_decrypt` with an empty password (which
/// returns every failure to open an entry as an error), then `ZipFile::name`
/// and `ZipFile::is_dir`. Trusted: it succeeds exactly where the entry opens,
/// and gives its name as stored and whether it is a directory; the entries
/// stay as they were.
#[verifier::external_body]
fn zip_entry_header(archive: &mut TemplateArchive, index: usize) -> (res: Result<
    (String, bool),
    zip::result::ZipError,
>)
    requires
        index < archive_entries(*old(archive)).len(),
    ensures
        archive_entries(*final(archive)) == archive_entries(*old(archive)),
        archive_readable(*final(archive)) == archive_readable(*old(archive)),
        res is Ok <==> archive_readable(*old(archive))[index as int].0,
        res matches Ok((name, dir)) ==> name@ == archive_entries(*old(archive))[index as int].0
            && dir == archive_entries(*old(archive))[index as int].1,
{
    match archive.by_index_decrypt(index, b"")? {
        Ok(file) => Ok((file.name().to_string(), file.is_dir())),
        Err(_) => Err(zip::result::ZipError::UnsupportedArchive(zip::result::ZipError::PASSWORD_REQUIRED)),
    }
}

/// Calls `zip::ZipArchive::by_index_decrypt` with an empty password and
/// reads the entry to its end with
/// `std::io::Read::read_to_end`. Trusted: it succeeds exactly where the
/// entry opens and reads to its end, and gives the data of the entry; the
/// entries stay as they were.
#[verifier::external_body]
fn zip_entry_data(archive: &mut TemplateArchive, index: usize) -> (res: Result<
    Vec<u8>,
    zip::result::ZipError,
>)
    requires
        index < archive_entries(*old(archive)).len(),
    ensures
        archive_entries(*final(archive)) == archive_entries(*old(archive)),
        archive_readable(*final(archive)) == archive_readable(*old(archive)),
        res is Ok <==> archive_readable(*old(archive))[index as int].1,
        res matches Ok(data) ==> data@ == archive_entries(*old(archive))[index as int].2,
{
    let mut file = match archive.by_index_decrypt(index, b"")? {
        Ok(file) => file,
        Err(_) => {
            return Err(zip::result::ZipError::UnsupportedArchive(zip::result::ZipError::PASSWORD_REQUIRED));
        },
    };
    let mut data: Vec<u8> = Vec::new();
    match std::io::Read::read_to_end(&mut file, &mut data) {
        Ok(_) => Ok(data),
        Err(e) => Err(zip::result::ZipError::Io(e)),
    }
}

/// Opens a template package held in memory.
pub fn open_template(bytes: Vec<u8>) -> (res: Result<TemplateArchive, PackageError>)
    ensures
        match res {
            Ok(archive) => zip_contents(bytes@) == Some(archive_entries(archive)),
            Err(e) => e == PackageError::TemplateCorrupt && zip_contents(bytes@) is None,
        },
{
    match zip_open(bytes) {
        Ok(archive) => Ok(archive),
        Err(_) => Err(PackageError::TemplateCorrupt),
    }
}

/// What a package is made from, besides its template.
pub struct TemplateContext {
    pub format: OutputFormat,
    /// The string replacements of the binary manifest of an APK.
    pub replacements: Replacements,
    pub version_code: u32,
    pub allow_cleartext_http: bool,
    /// The manifest of a bundle, already patched, which takes the place of
    /// the template's.
    pub bundle_manifest: Option<Vec<u8>>,
    /// The icon in each size, as PNG.
    pub icons: Option<Vec<(u32, Vec<u8>)>>,
}

/// An entry to write to the package.
pub struct PlannedEntry {
    pub name: String,
    pub data: Vec<u8>,
    /// Stored uncompressed rather than deflated.
    pub stored: bool,
    /// The alignment in bytes of the data of a stored entry.
    pub alignment: u64,
}

impl PlannedEntry {
    /// Whether the entry's data is placed on a multiple of its alignment,
    /// with padding in an extra field: a stored entry aligned to more than 1.
    pub fn needs_alignment(&self) -> (b: bool)
        ensures
            b == (self.stored && self.alignment > 1),
    {
        self.stored && self.alignment > 1
    }
}

pub open spec fn planned_view(e: PlannedEntry) -> (Seq<char>, Seq<u8>, bool, u64) {
    (e.name@, e.data@, e.stored, e.alignment)
}

pub open spec fn planned_views(s: Seq<PlannedEntry>) -> Seq<(Seq<char>, Seq<u8>, bool, u64)> {
    s.map_values(|e: PlannedEntry| planned_view(e))
}

/// Whether the template entry `name` of a package of `format` is left out,
/// to be written anew.
pub open spec fn replaced_in(format: OutputFormat, name: Seq<char>) -> bool {
    match format {
        OutputFormat::Apk => spec_should_replace(name),
        OutputFormat::Aab => crate::aab::spec_should_replace(name),
    }
}

/// The template entry that holds the manifest of a package of `format`.
pub open spec fn manifest_entry(format: OutputFormat) -> Seq<char> {
    match format {
        OutputFormat::Apk => "AndroidManifest.xml"@,
        OutputFormat::Aab => "base/manifest/AndroidManifest.xml"@,
    }
}

/// The data of the kept template entry `name`: the patched manifest for the
/// manifest entry, the data as it is for any other.
pub open spec fn entry_content(ctx: TemplateContext, name: Seq<char>, data: Seq<u8>) -> Result<
    Seq<u8>,
    PackageError,
> {
    if name != manifest_entry(ctx.format) {
        Ok(data)
    } else {
        match ctx.format {
            OutputFormat::Apk => match spec_patch_manifest(
                data,
                ctx.replacements@,
                ctx.version_code,
                ctx.allow_cleartext_http,
            ) {
                PatchOutcome::Patched(m) => Ok(m),
                PatchOutcome::Failed(e) => Err(PackageError::Manifest(e)),
                PatchOutcome::Endless => Err(PackageError::ManifestLoops),
            },
            OutputFormat::Aab => match ctx.bundle_manifest {
                Some(m) => Ok(m@),
                None => Ok(data),
            },
        }
    }
}

/// The PNG data of the first icon of `size`.
pub open spec fn icon_of_size(icons: Seq<(u32, Vec<u8>)>, size: u32) -> Option<Seq<u8>>
    decreases icons.len(),
{
    if icons.len() == 0 {
        None
    } else if icons[0].0 == size {
        Some(icons[0].1@)
    } else {
        icon_of_size(icons.drop_first(), size)
    }
}

/// The icon that replaces the data of the entry `name`, if any.
pub open spec fn icon_replacement(ctx: TemplateContext, name: Seq<char>) -> Option<Seq<u8>> {
    match ctx.icons {
        None => None,
        Some(icons) => match spec_icon_density(name) {
            None => None,
            Some(size) => icon_of_size(icons@, size),
        },
    }
}

/// The entry written for `name` with `data`: in an APK the resource table
/// and the libraries are stored and aligned to 4 bytes, everything else is
/// deflated; a bundle deflates everything.
pub open spec fn planned_entry(format: OutputFormat, name: Seq<char>, data: Seq<u8>) -> (
    Seq<char>,
    Seq<u8>,
    bool,
    u64,
) {
    match format {
        OutputFormat::Apk => (
            name,
            data,
            spec_stored_aligned(name),
            if spec_stored_aligned(name) {
                4u64
            } else {
                1u64
            },
        ),
        OutputFormat::Aab => (name, data, false, 1u64),
    }
}

/// The entries planned from the first `k` template entries, with the number
/// of icons replaced among them.
pub open spec fn plan_prefix(
    entries: Seq<(Seq<char>, bool, Seq<u8>)>,
    ctx: TemplateContext,
    k: nat,
) -> Result<(Seq<(Seq<char>, Seq<u8>, bool, u64)>, nat), PackageError>
    decreases k,
{
    if k == 0 {
        Ok((Seq::empty(), 0))
    } else {
        match plan_prefix(entries, ctx, (k - 1) as nat) {
            Err(e) => Err(e),
            Ok((out, n)) => {
                let entry = entries[k - 1];
                let name = spec_archive_name(entry.0);
                if replaced_in(ctx.format, name) || entry.1 {
                    Ok((out, n))
                } else {
                    match entry_content(ctx, name, entry.2) {
                        Err(e) => Err(e),
                        Ok(d) => match icon_replacement(ctx, name) {
                            Some(icon) => Ok((out.push(planned_entry(ctx.format, name, icon)), n + 1)),
                            None => Ok((out.push(planned_entry(ctx.format, name, d)), n)),
                        },
                    }
                }
            },
        }
    }
}

/// The entries of a package taken from its template, in the template's
/// order: the entries to be written anew and the directories are left out,
/// the manifest is patched, each icon entry takes the icon of its size; where
/// an icon is given, at least one entry must take it.
pub open spec fn spec_template_plan(
    entries: Seq<(Seq<char>, bool, Seq<u8>)>,
    ctx: TemplateContext,
) -> Result<Seq<(Seq<char>, Seq<u8>, bool, u64)>, PackageError> {
    match plan_prefix(entries, ctx, entries.len()) {
        Err(e) => Err(e),
        Ok((out, n)) => if ctx.icons is Some && n == 0 {
            Err(PackageError::IconNotInTemplate)
        } else {
            Ok(out)
        },
    }
}

fn replaced_for(format: OutputFormat, name: &str) -> (b: bool)
    ensures
        b == replaced_in(format, name@),
{
    match format {
        OutputFormat::Apk => should_replace(name),
        OutputFormat::Aab => crate::aab::should_replace(name),
    }
}

fn content_of(ctx: &TemplateContext, name: &String, data: Vec<u8>) -> (res: Result<Vec<u8>, PackageError>)
    ensures
        match res {
            Ok(d) => entry_content(*ctx, name@, data@) == Ok::<Seq<u8>, PackageError>(d@),
            Err(e) => entry_content(*ctx, name@, data@) == Err::<Seq<u8>, PackageError>(e),
        },
{
    let s = chars_of(name.as_str());
    match ctx.format {
        OutputFormat::Apk => {
            if !equals_literal(&s, "AndroidManifest.xml") {
                return Ok(data);
            }
            match try_patch_manifest(
                data.as_slice(),
                &ctx.replacements,
                ctx.version_code,
                ctx.allow_cleartext_http,
            ) {
                None => Err(PackageError::ManifestLoops),
                Some(Ok(m)) => Ok(m),
                Some(Err(e)) => Err(PackageError::Manifest(e)),
            }
        },
        OutputFormat::Aab => {
            if !equals_literal(&s, "base/manifest/AndroidManifest.xml") {
                return Ok(data);
            }
            match &ctx.bundle_manifest {
                Some(m) => Ok(vstd::slice::slice_to_vec(m.as_slice())),
                None => Ok(data),
            }
        },
    }
}

fn icon_for(ctx: &TemplateContext, name: &String) -> (res: Option<Vec<u8>>)
    ensures
        match res {
            Some(d) => icon_replacement(*ctx, name@) == Some(d@),
            None => icon_replacement(*ctx, name@) is None,
        },
{
    match &ctx.icons {
        None => None,
        Some(icons) => match icon_density_for(name.as_str()) {
            None => None,
            Some(size) => {
                let mut k: usize = 0;
                assert(icons@.skip(0) =~= icons@);
                let ghost target = icon_replacement(*ctx, name@);
                assert(target == icon_of_size(icons@, size));
                while k < icons.len()
                    invariant
                        k <= icons@.len(),
                        target == icon_of_size(icons@, size),
                        target == icon_replacement(*ctx, name@),
                        icon_of_size(icons@, size) == icon_of_size(icons@.skip(k as int), size),
                    decreases icons@.len() - k,
                {
                    proof {
                        assert(icons@.skip(k as int).drop_first() =~= icons@.skip(k + 1));
                        assert(icons@.skip(k as int)[0] == icons@[k as int]);
                    }
                    if icons[k].0 == size {
                        return Some(vstd::slice::slice_to_vec(icons[k].1.as_slice()));
                    }
                    k = k + 1;
                }
                None
            },
        },
    }
}

fn entry_for(format: OutputFormat, name: String, data: Vec<u8>) -> (e: PlannedEntry)
    ensures
        planned_view(e) == planned_entry(format, name@, data@),
{
    match format {
        OutputFormat::Apk => {
            let stored = stored_uncompressed(name.as_str());
            let alignment = alignment_for(name.as_str());
            PlannedEntry { name, data, stored, alignment }
        },
        OutputFormat::Aab => PlannedEntry { name, data, stored: false, alignment: 1 },
    }
}

/// The entries of a package taken from its template, in the template's
/// order. Where reading an entry of the archive fails, the result is
/// `TemplateCorrupt`; otherwise it is what `spec_template_plan` says of the
/// archive's entries.
pub fn plan_template(archive: &mut TemplateArchive, ctx: &TemplateContext) -> (res: Result<
    Vec<PlannedEntry>,
    PackageError,
>)
    ensures
        archive_entries(*final(archive)) == archive_entries(*old(archive)),
        res matches Ok(v) ==> spec_template_plan(archive_entries(*old(archive)), *ctx) == Ok::<
            Seq<(Seq<char>, Seq<u8>, bool, u64)>,
            PackageError,
        >(planned_views(v@)),
        archive_readable(*final(archive)) == archive_readable(*old(archive)),
        res matches Err(e) ==> (e == PackageError::TemplateCorrupt && !plan_readable(
            archive_entries(*old(archive)),
            archive_readable(*old(archive)),
            ctx.format,
        )) || spec_template_plan(archive_entries(*old(archive)), *ctx) == Err::<
            Seq<(Seq<char>, Seq<u8>, bool, u64)>,
            PackageError,
        >(e),
{
    let ghost entries = archive_entries(*archive);
    let ghost readable = archive_readable(*archive);
    let n = zip_len(archive);
    let mut out: Vec<PlannedEntry> = Vec::new();
    let mut replaced: usize = 0;
    let mut i: usize = 0;
    assert(planned_views(out@) =~= Seq::<(Seq<char>, Seq<u8>, bool, u64)>::empty());
    while i < n
        invariant
            i <= n,
            n == entries.len(),
            archive_entries(*archive) == entries,
            entries == archive_entries(*old(archive)),
            archive_readable(*archive) == readable,
            readable == archive_readable(*old(archive)),
            n == readable.len(),
            replaced <= i,
            plan_prefix(entries, *ctx, i as nat) == Ok::<
                (Seq<(Seq<char>, Seq<u8>, bool, u64)>, nat),
                PackageError,
            >((planned_views(out@), replaced as nat)),
        decreases n - i,
    {
        let (raw, dir) = match zip_entry_header(archive, i) {
            Ok(h) => h,
            Err(_) => {
                return Err(PackageError::TemplateCorrupt);
            },
        };
        let name = archive_name(raw.as_str());
        if replaced_for(ctx.format, name.as_str()) || dir {
            i = i + 1;
            continue;
        }
        let data = match zip_entry_data(archive, i) {
            Ok(d) => d,
            Err(_) => {
                assert(entry_kept(ctx.format, entries[i as int]));
                return Err(PackageError::TemplateCorrupt);
            },
        };
        let content = match content_of(ctx, &name, data) {
            Ok(c) => c,
            Err(e) => {
                proof {
                    lemma_plan_error_sticks(entries, *ctx, (i + 1) as nat, entries.len());
                }
                return Err(e);
            },
        };
        let ghost before = out@;
        match icon_for(ctx, &name) {
            Some(icon) => {
                out.push(entry_for(ctx.format, name, icon));
                replaced = replaced + 1;
            },
            None => {
                out.push(entry_for(ctx.format, name, content));
            },
        }
        assert(planned_views(out@) =~= planned_views(before).push(planned_view(out@.last())));
        i = i + 1;
    }
    if ctx.icons.is_some() && replaced == 0 {
        return Err(PackageError::IconNotInTemplate);
    }
    Ok(out)
}

/// The index of the first template entry, from `k` on, that is the kept
/// manifest entry of a bundle.
pub open spec fn bundle_manifest_index(entries: Seq<(Seq<char>, bool, Seq<u8>)>, k: int) -> Option<int>
    decreases entries.len() - k,
{
    if k < 0 || k >= entries.len() {
        None
    } else if spec_archive_name(entries[k].0) == manifest_entry(OutputFormat::Aab) && !entries[k].1 {
        Some(k)
    } else {
        bundle_manifest_index(entries, k + 1)
    }
}

/// The data of the manifest entry of a bundle template, as it is stored,
/// where the template has one; where reading an entry fails, the result is
/// `TemplateCorrupt`.
pub fn bundle_manifest_data(archive: &mut TemplateArchive) -> (res: Result<Option<Vec<u8>>, PackageError>)
    ensures
        archive_entries(*final(archive)) == archive_entries(*old(archive)),
        res matches Ok(found) ==> match bundle_manifest_index(archive_entries(*old(archive)), 0) {
            Some(i) => found matches Some(d) && d@ == archive_entries(*old(archive))[i].2,
            None => found is None,
        },
        archive_readable(*final(archive)) == archive_readable(*old(archive)),
        res matches Err(e) ==> e == PackageError::TemplateCorrupt && !manifest_readable(
            archive_entries(*old(archive)),
            archive_readable(*old(archive)),
        ),
{
    let ghost entries = archive_entries(*archive);
    let ghost readable = archive_readable(*archive);
    let n = zip_len(archive);
    let mut i: usize = 0;
    while i < n
        invariant
            i <= n,
            n == entries.len(),
            archive_entries(*archive) == entries,
            entries == archive_entries(*old(archive)),
            archive_readable(*archive) == readable,
            readable == archive_readable(*old(archive)),
            n == readable.len(),
            bundle_manifest_index(entries, 0) == bundle_manifest_index(entries, i as int),
        decreases n - i,
    {
        let (raw, dir) = match zip_entry_header(archive, i) {
            Ok(h) => h,
            Err(_) => {
                proof {
                    lemma_manifest_index_from(entries, i as int);
                    assert(!readable[i as int].0);
                }
                return Err(PackageError::TemplateCorrupt);
            },
        };
        let name = archive_name(raw.as_str());
        let s = chars_of(name.as_str());
        if !dir && equals_literal(&s, "base/manifest/AndroidManifest.xml") {
            return match zip_entry_data(archive, i) {
                Ok(d) => Ok(Some(d)),
                Err(_) => {
                    assert(bundle_manifest_index(entries, 0) == Some(i as int));
                    assert(!readable[i as int].1);
                    Err(PackageError::TemplateCorrupt)
                },
            };
        }
        i = i + 1;
    }
    Ok(None)
}

/// The manifest entry found from `k` on, if any, is at or after `k`.
proof fn lemma_manifest_index_from(entries: Seq<(Seq<char>, bool, Seq<u8>)>, k: int)
    requires
        0 <= k,
    ensures
        bundle_manifest_index(entries, k) matches Some(j) ==> k <= j,
    decreases entries.len() - k,
{
    if k < entries.len() {
        lemma_manifest_index_from(entries, k + 1);
    }
}

/// Once the plan of a prefix fails, the plan of every longer prefix fails
/// with the same error.
proof fn lemma_plan_error_sticks(
    entries: Seq<(Seq<char>, bool, Seq<u8>)>,
    ctx: TemplateContext,
    k: nat,
    m: nat,
)
    requires
        k <= m,
        plan_prefix(entries, ctx, k) is Err,
    ensures
        plan_prefix(entries, ctx, m) == plan_prefix(entries, ctx, k),
    decreases m - k,
{
    if k < m {
        lemma_plan_error_sticks(entries, ctx, k, (m - 1) as nat);
    }
}

/// The name inside a package of `format` of the web file at `relative`.
pub fn web_entry_name(format: crate::config::OutputFormat, relative: &str) -> (name: String)
    ensures
        name@ == (match format {
            OutputFormat::Apk => "assets/www/"@,
            OutputFormat::Aab => "base/assets/www/"@,
        }) + relative@,
{
    let mut name = match format {
        OutputFormat::Apk => String::from_str("assets/www/"),
        OutputFormat::Aab => String::from_str("base/assets/www/"),
    };
    name.append(relative);
    name
}

/// The name inside a package of `format` of the settings of the app.
pub fn settings_entry_name(format: crate::config::OutputFormat) -> (name: &'static str)
    ensures
        name@ == (match format {
            OutputFormat::Apk => "assets/app.json"@,
            OutputFormat::Aab => "base/assets/app.json"@,
        }),
{
    match format {
        OutputFormat::Apk => "assets/app.json",
        OutputFormat::Aab => "base/assets/app.json",
    }
}

// ---------------------------------------------------------------------------
// Icons in every size
// ---------------------------------------------------------------------------

#[verifier::external_type_specification]
#[verifier::external_body]
pub struct ExDynamicImage(image::DynamicImage);

#[verifier::external_type_specification]
#[verifier::external_body]
pub struct ExImageError(image::ImageError);

/// The PNG encoding of `picture`, `None` where encoding fails.
pub uninterp spec fn png_encoding(picture: image::DynamicImage) -> Option<Seq<u8>>;

/// The width and the height of `picture` in pixels, as
/// `image::GenericImageView::dimensions` gives them.
pub uninterp spec fn picture_dimensions(picture: image::DynamicImage) -> (u32, u32);

/// Calls `image::DynamicImage::resize_exact` with the Lanczos filter.
/// Trusted: the result is `size` pixels wide and high, as `resize_exact`
/// documents; nothing is stated of its pixels, which the filter computes
/// with `f32::sin`, whose results may differ between platforms.
#[verifier::external_body]
fn resize_square(source: &image::DynamicImage, size: u32) -> (out: image::DynamicImage)
    ensures
        picture_dimensions(out) == (size, size),
{
    source.resize_exact(size, size, image::imageops::FilterType::Lanczos3)
}

/// Calls `image::DynamicImage::write_to` with `ImageFormat::Png` into a
/// buffer in memory. Trusted: the outcome depends on the image alone, and is
/// the one `png_encoding` names.
#[verifier::external_body]
fn encode_png(picture: &image::DynamicImage) -> (res: Result<Vec<u8>, image::ImageError>)
    ensures
        match res {
            Ok(bytes) => png_encoding(*picture) == Some(bytes@),
            Err(_) => png_encoding(*picture) is None,
        },
{
    let mut bytes = std::io::Cursor::new(Vec::new());
    picture.write_to(&mut bytes, image::ImageFormat::Png)?;
    Ok(bytes.into_inner())
}

/// Whether `png` is the PNG encoding of a picture `size` pixels wide and high.
pub open spec fn square_png(png: Seq<u8>, size: u32) -> bool {
    exists|picture: image::DynamicImage|
        #![trigger png_encoding(picture), picture_dimensions(picture)]
        picture_dimensions(picture) == (size, size) && png_encoding(picture) == Some(png)
}

/// The icon `source` scaled to each icon size and encoded as PNG, one entry
/// per size in the order of the densities: each entry is the PNG encoding of
/// a picture of its size. It fails only where encoding a scaled picture fails.
pub fn prepare_icons(source: &image::DynamicImage) -> (res: Result<Vec<(u32, Vec<u8>)>, PackageError>)
    ensures
        res matches Ok(icons) ==> icons@.len() == icon_sizes().len() && forall|i: int|
            0 <= i < icons@.len() ==> #[trigger] icons@[i].0 == icon_sizes()[i] && square_png(
                icons@[i].1@,
                icon_sizes()[i],
            ),
        res matches Err(e) ==> e == PackageError::IconEncoding && exists|
            i: int,
            picture: image::DynamicImage,
        |
            #![trigger png_encoding(picture), icon_sizes()[i]]
            0 <= i < icon_sizes().len() && picture_dimensions(picture) == (
                icon_sizes()[i],
                icon_sizes()[i],
            ) && png_encoding(picture) is None,
{
    let sizes: [u32; 5] = [48, 72, 96, 144, 192];
    let mut icons: Vec<(u32, Vec<u8>)> = Vec::new();
    let mut i: usize = 0;
    assert(sizes@ =~= icon_sizes());
    while i < 5
        invariant
            i <= 5,
            sizes@ == icon_sizes(),
            icons@.len() == i,
            forall|j: int|
                0 <= j < i ==> #[trigger] icons@[j].0 == icon_sizes()[j] && square_png(
                    icons@[j].1@,
                    icon_sizes()[j],
                ),
        decreases 5 - i,
    {
        let size = sizes[i];
        let resized = resize_square(source, size);
        match encode_png(&resized) {
            Ok(bytes) => {
                assert(square_png(bytes@, icon_sizes()[i as int]));
                icons.push((size, bytes));
            },
            Err(_) => {
                assert(png_encoding(resized) is None);
                assert(picture_dimensions(resized) == (icon_sizes()[i as int], icon_sizes()[i as int]));
                return Err(PackageError::IconEncoding);
            },
        }
        i = i + 1;
    }
    Ok(icons)
}

} // verus!
