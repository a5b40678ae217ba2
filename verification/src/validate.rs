//! The rules a build request has to satisfy.

use vstd::prelude::*;
use vstd::utf8::encode_utf8;
use crate::config::AppConfig;
use crate::text::{
    is_ascii_alphabetic, is_ascii_alphanumeric, is_ascii_hexdigit, is_control, is_whitespace,
    spec_ascii_alphabetic, spec_ascii_alphanumeric, spec_ascii_hexdigit, spec_control, spec_whitespace,
};

verus! {

/// What is wrong with a colour setting.
#[derive(Debug, Clone, Copy, PartialEq, Eq, Structural)]
pub enum ColorError {
    MissingHash,
    WrongLength,
    NotHex,
}

/// Why a build request is refused.
#[derive(Debug, Clone, Copy, PartialEq, Eq, Structural)]
pub enum ValidationError {
    WebRootMissing,
    PackageIdTooLong,
    PackageIdFormat,
    PackageIdEmptySegment,
    PackageIdInvalidChar,
    AppNameEmpty,
    AppNameInvalid,
    VersionNameInvalid,
    VersionCodeZero,
    StartPageNotRelative,
    StartPageMissing,
    StatusBarColor(ColorError),
    NavigationBarColor(ColorError),
}

/// Checking the dot-separated segments of a package ID from position `i`
/// on; `at_start` holds where `i` begins a segment. A segment must not be
/// empty, must begin with an ASCII letter or '_' and go on with ASCII
/// letters, digits or '_'; the first offending segment decides the error.
pub open spec fn spec_check_segments(s: Seq<char>, i: int, at_start: bool) -> Result<(), ValidationError>
    decreases s.len() - i,
{
    if i >= s.len() {
        if at_start {
            Err(ValidationError::PackageIdEmptySegment)
        } else {
            Ok(())
        }
    } else if at_start {
        if s[i] == '.' {
            Err(ValidationError::PackageIdEmptySegment)
        } else if !(spec_ascii_alphabetic(s[i]) || s[i] == '_') {
            Err(ValidationError::PackageIdInvalidChar)
        } else {
            spec_check_segments(s, i + 1, false)
        }
    } else if s[i] == '.' {
        spec_check_segments(s, i + 1, true)
    } else if !(spec_ascii_alphanumeric(s[i]) || s[i] == '_') {
        Err(ValidationError::PackageIdInvalidChar)
    } else {
        spec_check_segments(s, i + 1, false)
    }
}

/// The package ID rule: at most 255 bytes, at least two segments, each a
/// Java identifier in ASCII.
pub open spec fn spec_validate_package_id(s: Seq<char>) -> Result<(), ValidationError> {
    if encode_utf8(s).len() > 255 {
        Err(ValidationError::PackageIdTooLong)
    } else if !s.contains('.') {
        Err(ValidationError::PackageIdFormat)
    } else {
        spec_check_segments(s, 0, true)
    }
}

/// An ASCII letter.
pub open spec fn id_letter(c: char) -> bool {
    ('a' <= c && c <= 'z') || ('A' <= c && c <= 'Z')
}

/// A character that may go on a segment of a package id: an ASCII letter,
/// an ASCII digit or '_'.
pub open spec fn id_char(c: char) -> bool {
    id_letter(c) || ('0' <= c && c <= '9') || c == '_'
}

/// Whether position `j` of `s` opens a segment: it is the first position or
/// follows a '.'.
pub open spec fn opens_segment(s: Seq<char>, j: int) -> bool {
    j == 0 || s[j - 1] == '.'
}

/// The segments of `s` from `i` on (where `at` says whether `i` opens a
/// segment) are well formed: every character is a '.' or may go on a
/// segment, every segment begins with an ASCII letter or '_', and none is
/// empty.
pub open spec fn segments_from(s: Seq<char>, i: int, at: bool) -> bool {
    &&& forall|j: int| i <= j < s.len() ==> (#[trigger] s[j] == '.' || id_char(s[j]))
    &&& forall|j: int|
        i <= j < s.len() && ((j == i && at) || (j > i && s[j - 1] == '.')) ==> (id_letter(
            #[trigger] s[j],
        ) || s[j] == '_')
    &&& (at ==> i < s.len())
    &&& (i < s.len() ==> s.last() != '.')
}

proof fn lemma_check_segments(s: Seq<char>, i: int, at: bool)
    requires
        0 <= i <= s.len(),
    ensures
        spec_check_segments(s, i, at) is Ok <==> segments_from(s, i, at),
    decreases s.len() - i,
{
    if i < s.len() {
        lemma_check_segments(s, i + 1, s[i] == '.');
        if segments_from(s, i, at) {
            assert(segments_from(s, i + 1, s[i] == '.')) by {
                if s[i] == '.' {
                    assert(i + 1 < s.len()) by {
                        if i + 1 == s.len() {
                            assert(s.last() == s[i]);
                        }
                    }
                }
                assert forall|j: int|
                    i + 1 <= j < s.len() && ((j == i + 1 && s[i] == '.') || (j > i + 1 && s[j - 1]
                        == '.')) implies (id_letter(#[trigger] s[j]) || s[j] == '_') by {
                    assert(j > i && s[j - 1] == '.');
                }
            }
            if at {
                assert(id_letter(s[i]) || s[i] == '_');
            } else {
                assert(s[i] == '.' || id_char(s[i]));
            }
        }
        if spec_check_segments(s, i, at) is Ok {
            assert(segments_from(s, i + 1, s[i] == '.'));
            assert(s[i] == '.' || id_char(s[i])) by {
                if at {
                } else {
                }
            }
            assert forall|j: int| i <= j < s.len() implies (#[trigger] s[j] == '.' || id_char(s[j])) by {
                if j > i {
                }
            }
            assert forall|j: int|
                i <= j < s.len() && ((j == i && at) || (j > i && s[j - 1] == '.')) implies (id_letter(
                #[trigger] s[j],
            ) || s[j] == '_') by {
                if j > i + 1 {
                } else if j == i + 1 {
                }
            }
            if i + 1 == s.len() {
                assert(s.last() == s[i]);
            }
        }
    }
}

/// A package id passes exactly when it is at most 255 bytes of UTF-8, holds
/// a '.', and each of its '.'-separated segments is non-empty, begins with an
/// ASCII letter or '_' and goes on with ASCII letters, digits or '_'.
pub proof fn lemma_package_id_rule(s: Seq<char>)
    ensures
        spec_validate_package_id(s) is Ok <==> {
            &&& encode_utf8(s).len() <= 255
            &&& s.contains('.')
            &&& forall|j: int| 0 <= j < s.len() ==> (#[trigger] s[j] == '.' || id_char(s[j]))
            &&& forall|j: int|
                0 <= j < s.len() && opens_segment(s, j) ==> (id_letter(#[trigger] s[j]) || s[j] == '_')
            &&& s.len() > 0
            &&& s.last() != '.'
        },
{
    lemma_check_segments(s, 0, true);
    assert(segments_from(s, 0, true) <==> {
        &&& forall|j: int| 0 <= j < s.len() ==> (#[trigger] s[j] == '.' || id_char(s[j]))
        &&& forall|j: int|
            0 <= j < s.len() && opens_segment(s, j) ==> (id_letter(#[trigger] s[j]) || s[j] == '_')
        &&& s.len() > 0
        &&& s.last() != '.'
    });
}

pub fn validate_package_id(value: &str) -> (res: Result<(), ValidationError>)
    ensures
        res == spec_validate_package_id(value@),
{
    if value.as_bytes().len() > 255 {
        return Err(ValidationError::PackageIdTooLong);
    }
    let mut has_dot = false;
    for c in it: value.chars()
        invariant
            it.seq() == value@,
            has_dot <==> value@.take(it.index()).contains('.'),
    {
        let ghost i = it.index();
        assert(value@.take(i + 1) =~= value@.take(i).push(c));
        if c == '.' {
            assert(value@.take(i + 1)[i] == '.');
            has_dot = true;
        }
    }
    assert(value@.take(value@.len() as int) =~= value@);
    if !has_dot {
        return Err(ValidationError::PackageIdFormat);
    }
    let mut at_start = true;
    for c in it: value.chars()
        invariant
            it.seq() == value@,
            encode_utf8(value@).len() <= 255,
            value@.contains('.'),
            spec_check_segments(value@, 0, true) == spec_check_segments(
                value@,
                it.index(),
                at_start,
            ),
    {
        if at_start {
            if c == '.' {
                return Err(ValidationError::PackageIdEmptySegment);
            }
            if !(is_ascii_alphabetic(c) || c == '_') {
                return Err(ValidationError::PackageIdInvalidChar);
            }
            at_start = false;
        } else if c == '.' {
            at_start = true;
        } else if !(is_ascii_alphanumeric(c) || c == '_') {
            return Err(ValidationError::PackageIdInvalidChar);
        }
    }
    if at_start {
        return Err(ValidationError::PackageIdEmptySegment);
    }
    Ok(())
}

/// The colour rule: '#' and then six or eight hexadecimal digits.
pub open spec fn spec_validate_color(s: Seq<char>) -> Result<(), ColorError> {
    if s.len() == 0 || s[0] != '#' {
        Err(ColorError::MissingHash)
    } else if encode_utf8(s.drop_first()).len() != 6 && encode_utf8(s.drop_first()).len() != 8 {
        Err(ColorError::WrongLength)
    } else if exists|i: int| 1 <= i < s.len() && !spec_ascii_hexdigit(#[trigger] s[i]) {
        Err(ColorError::NotHex)
    } else {
        Ok(())
    }
}

pub fn validate_color(value: &str) -> (res: Result<(), ColorError>)
    ensures
        res == spec_validate_color(value@),
{
    let n = value.unicode_len();
    if n == 0 || value.get_char(0) != '#' {
        return Err(ColorError::MissingHash);
    }
    let hex = value.substring_char(1, n);
    assert(hex@ =~= value@.drop_first());
    if hex.as_bytes().len() != 6 && hex.as_bytes().len() != 8 {
        return Err(ColorError::WrongLength);
    }
    for c in it: hex.chars()
        invariant
            it.seq() == hex@,
            hex@ == value@.drop_first(),
            value@.len() > 0,
            value@[0] == '#',
            encode_utf8(value@.drop_first()).len() == 6 || encode_utf8(value@.drop_first()).len() == 8,
            forall|j: int| 1 <= j < 1 + it.index() ==> spec_ascii_hexdigit(#[trigger] value@[j]),
    {
        assert(value@[1 + it.index()] == c);
        if !is_ascii_hexdigit(c) {
            return Err(ColorError::NotHex);
        }
    }
    Ok(())
}

/// The kinds of the components of a path, as `std::path::Component` tells them apart.
#[derive(Debug, Clone, Copy, PartialEq, Eq, Structural)]
pub enum PathComponent {
    Prefix,
    RootDir,
    CurDir,
    ParentDir,
    Normal,
}

/// `s` begins with '/'.
pub open spec fn starts_with_slash(s: Seq<char>) -> bool {
    s.len() > 0 && s[0] == '/'
}

/// `s` has neither '\' nor ':', so that no platform reads a drive, a UNC
/// name or another separator in it.
pub open spec fn slash_separated(s: Seq<char>) -> bool {
    !s.contains('\\') && !s.contains(':')
}

/// `s` has a segment "..", delimited by '/' or the ends of `s`, and neither
/// '\' nor ':'.
pub open spec fn has_parent_segment(s: Seq<char>) -> bool {
    &&& slash_separated(s)
    &&& exists|a: int|
        0 <= a && a + 2 <= s.len() && (a == 0 || s[a - 1] == '/') && #[trigger] s[a] == '.' && s[a
            + 1] == '.' && (a + 2 == s.len() || s[a + 2] == '/')
}

/// A plain relative path: '/'-separated, not beginning with '/', and
/// without a segment "..".
pub open spec fn plain_relative(s: Seq<char>) -> bool {
    &&& slash_separated(s)
    &&& !starts_with_slash(s)
    &&& !exists|a: int|
        0 <= a && a + 2 <= s.len() && (a == 0 || s[a - 1] == '/') && #[trigger] s[a] == '.' && s[a
            + 1] == '.' && (a + 2 == s.len() || s[a + 2] == '/')
}

/// `Path::is_absolute`. What is absolute depends on the platform: on Unix
/// a leading '/', on Windows a drive or UNC prefix and a root. Stated: on
/// every platform, a path that begins with no '/' and holds neither '\' nor
/// ':' has neither, so is not absolute.
#[verifier::external_body]
fn path_is_absolute(value: &str) -> (absolute: bool)
    ensures
        slash_separated(value@) && !starts_with_slash(value@) ==> !absolute,
{
    std::path::Path::new(value).is_absolute()
}

/// `Path::components`, each component taken by its kind. The parsing depends
/// on the platform. Stated for every platform: a leading '/' gives a root or
/// (on Windows, for a UNC or device name) a prefix as the first component; in
/// a path without '\' or ':' that does not begin with '/', a segment ".."
/// gives a parent component; and a plain
/// relative path gives only normal and current-directory components.
#[verifier::external_body]
fn path_component_kinds(value: &str) -> (kinds: Vec<PathComponent>)
    ensures
        starts_with_slash(value@) ==> kinds@.len() > 0 && (kinds@[0] == PathComponent::RootDir
            || kinds@[0] == PathComponent::Prefix),
        has_parent_segment(value@) && !starts_with_slash(value@) ==> kinds@.contains(
            PathComponent::ParentDir,
        ),
        plain_relative(value@) ==> forall|i: int|
            0 <= i < kinds@.len() ==> (#[trigger] kinds@[i] == PathComponent::CurDir || kinds@[i]
                == PathComponent::Normal),
{
    std::path::Path::new(value).components().map(
        |c| match c {
            std::path::Component::Prefix(_) => PathComponent::Prefix,
            std::path::Component::RootDir => PathComponent::RootDir,
            std::path::Component::CurDir => PathComponent::CurDir,
            std::path::Component::ParentDir => PathComponent::ParentDir,
            std::path::Component::Normal(_) => PathComponent::Normal,
        },
    ).collect()
}

/// A component that leaves the folder or anchors the path elsewhere.
pub open spec fn escaping_component(k: PathComponent) -> bool {
    k == PathComponent::ParentDir || k == PathComponent::RootDir || k == PathComponent::Prefix
}

/// The start-page rule given what the platform made of the path: it must
/// not be absolute nor hold a parent, root or prefix component.
pub fn relative_path_verdict(absolute: bool, kinds: &Vec<PathComponent>) -> (res: Result<
    (),
    ValidationError,
>)
    ensures
        res is Err <==> absolute || exists|i: int|
            0 <= i < kinds@.len() && escaping_component(#[trigger] kinds@[i]),
        res is Err ==> res == Err::<(), ValidationError>(ValidationError::StartPageNotRelative),
{
    if absolute {
        return Err(ValidationError::StartPageNotRelative);
    }
    let mut i: usize = 0;
    while i < kinds.len()
        invariant
            i <= kinds@.len(),
            forall|j: int| 0 <= j < i ==> !escaping_component(#[trigger] kinds@[j]),
        decreases kinds@.len() - i,
    {
        let k = kinds[i];
        if k == PathComponent::ParentDir || k == PathComponent::RootDir || k == PathComponent::Prefix {
            return Err(ValidationError::StartPageNotRelative);
        }
        i = i + 1;
    }
    Ok(())
}

/// The start page must be a relative path inside the HTML folder.
pub fn validate_relative_path(value: &str) -> (res: Result<(), ValidationError>)
    ensures
        res is Err ==> res == Err::<(), ValidationError>(ValidationError::StartPageNotRelative),
        starts_with_slash(value@) || has_parent_segment(value@) ==> res is Err,
        plain_relative(value@) ==> res is Ok,
        slash_separated(value@) ==> (res is Err <==> starts_with_slash(value@)
            || has_parent_segment(value@)),
{
    let absolute = path_is_absolute(value);
    let kinds = path_component_kinds(value);
    proof {
        if has_parent_segment(value@) && !starts_with_slash(value@) {
            let i = choose|i: int| 0 <= i < kinds@.len() && kinds@[i] == PathComponent::ParentDir;
            assert(escaping_component(kinds@[i]));
        }
        if starts_with_slash(value@) {
            assert(escaping_component(kinds@[0]));
        }
        if plain_relative(value@) {
            assert forall|i: int| 0 <= i < kinds@.len() implies !escaping_component(
                #[trigger] kinds@[i],
            ) by {
                assert(kinds@[i] == PathComponent::CurDir || kinds@[i] == PathComponent::Normal);
            }
        }
    }
    relative_path_verdict(absolute, &kinds)
}

/// Every character of `s` is white space: `s.trim()` is empty.
pub open spec fn all_whitespace(s: Seq<char>) -> bool {
    forall|i: int| 0 <= i < s.len() ==> spec_whitespace(#[trigger] s[i])
}

/// Some character of `s` is a control character.
pub open spec fn any_control(s: Seq<char>) -> bool {
    exists|i: int| 0 <= i < s.len() && spec_control(#[trigger] s[i])
}

fn is_blank(value: &str) -> (b: bool)
    ensures
        b == all_whitespace(value@),
{
    for c in it: value.chars()
        invariant
            it.seq() == value@,
            forall|j: int| 0 <= j < it.index() ==> spec_whitespace(#[trigger] value@[j]),
    {
        assert(value@[it.index()] == c);
        if !is_whitespace(c) {
            return false;
        }
    }
    true
}

fn has_control(value: &str) -> (b: bool)
    ensures
        b == any_control(value@),
{
    for c in it: value.chars()
        invariant
            it.seq() == value@,
            forall|j: int| 0 <= j < it.index() ==> !spec_control(#[trigger] value@[j]),
    {
        assert(value@[it.index()] == c);
        if is_control(c) {
            return true;
        }
    }
    false
}

/// The rules of a build request, in the order they are checked; `dir` is
/// whether the HTML folder exists, `file` whether the start page is a file
/// in it and `relative` whether the start page passed the relative-path rule.
pub open spec fn spec_validate_request(c: AppConfig, dir: bool, file: bool, relative: bool) -> Result<
    (),
    ValidationError,
> {
    let vn = c.version_name@;
    if !dir {
        Err(ValidationError::WebRootMissing)
    } else if spec_validate_package_id(c.package_id@) is Err {
        spec_validate_package_id(c.package_id@)
    } else if all_whitespace(c.app_name@) {
        Err(ValidationError::AppNameEmpty)
    } else if c.app_name@.len() > 100 || any_control(c.app_name@) {
        Err(ValidationError::AppNameInvalid)
    } else if all_whitespace(vn) || vn.len() > 100 || any_control(vn) {
        Err(ValidationError::VersionNameInvalid)
    } else if c.version_code == 0 {
        Err(ValidationError::VersionCodeZero)
    } else if !relative {
        Err(ValidationError::StartPageNotRelative)
    } else if !file {
        Err(ValidationError::StartPageMissing)
    } else if let Err(e) = spec_validate_color(c.status_bar_color@) {
        Err(ValidationError::StatusBarColor(e))
    } else if let Err(e) = spec_validate_color(c.navigation_bar_color@) {
        Err(ValidationError::NavigationBarColor(e))
    } else {
        Ok(())
    }
}

/// Checks a build request; `web_root_is_dir` and `start_page_is_file` are
/// what the file system says of the HTML folder and of the start page in it.
pub fn validate_request(config: &AppConfig, web_root_is_dir: bool, start_page_is_file: bool) -> (res:
    Result<(), ValidationError>)
    ensures
        res == spec_validate_request(*config, web_root_is_dir, start_page_is_file, true) || res
            == spec_validate_request(*config, web_root_is_dir, start_page_is_file, false),
        starts_with_slash(config.start_page@) || has_parent_segment(config.start_page@) ==> res
            == spec_validate_request(*config, web_root_is_dir, start_page_is_file, false),
        plain_relative(config.start_page@) ==> res == spec_validate_request(
            *config,
            web_root_is_dir,
            start_page_is_file,
            true,
        ),
{
    if !web_root_is_dir {
        return Err(ValidationError::WebRootMissing);
    }
    validate_package_id(config.package_id.as_str())?;
    let name = config.app_name.as_str();
    if is_blank(name) {
        return Err(ValidationError::AppNameEmpty);
    }
    if name.unicode_len() > 100 || has_control(name) {
        return Err(ValidationError::AppNameInvalid);
    }
    let version = config.version_name.as_str();
    if is_blank(version) || version.unicode_len() > 100 || has_control(version) {
        return Err(ValidationError::VersionNameInvalid);
    }
    if config.version_code == 0 {
        return Err(ValidationError::VersionCodeZero);
    }
    validate_relative_path(config.start_page.as_str())?;
    if !start_page_is_file {
        return Err(ValidationError::StartPageMissing);
    }
    match validate_color(config.status_bar_color.as_str()) {
        Ok(()) => {},
        Err(e) => {
            return Err(ValidationError::StatusBarColor(e));
        },
    }
    match validate_color(config.navigation_bar_color.as_str()) {
        Ok(()) => {},
        Err(e) => {
            return Err(ValidationError::NavigationBarColor(e));
        },
    }
    Ok(())
}

} // verus!
