//! The decisions that are particular to App Bundles: which template entries
//! are written anew, and the digest recorded for each entry written.

use vstd::prelude::*;
use crate::jarsign::{sha256, sha256_digest};
use crate::text::{chars_of, matches_at, occurs_at};
use crate::config::OutputFormat;
use crate::package::{planned_views, settings_entry_name, web_entry_name, PlannedEntry};

verus! {

/// Whether the bundle template's entry `s` is left out of the bundle, to be
/// written anew: the old signature, the web files and the app settings.
pub open spec fn spec_should_replace(s: Seq<char>) -> bool {
    occurs_at(s, 0, "META-INF/"@) || occurs_at(s, 0, "base/assets/www/"@) || s
        == "base/assets/app.json"@
}

/// Whether the bundle template's entry `name` is left out of the bundle.
pub fn should_replace(name: &str) -> (b: bool)
    ensures
        b == spec_should_replace(name@),
{
    let s = chars_of(name);
    let meta = chars_of("META-INF/");
    let www = chars_of("base/assets/www/");
    let settings = chars_of("base/assets/app.json");
    let is_settings = s.len() == settings.len() && matches_at(&s, 0, &settings);
    proof {
        if s@.len() == settings@.len() {
            assert(s@.subrange(0, settings@.len() as int) =~= s@);
        }
    }
    matches_at(&s, 0, &meta) || matches_at(&s, 0, &www) || is_settings
}

/// The name of an entry written to a bundle with the SHA-256 digest of its
/// data, as the JAR signature lists it.
pub fn entry_digest(name: &str, data: &[u8]) -> (res: (String, [u8; 32]))
    ensures
        res.0@ == name@,
        res.1@ == sha256(data@),
{
    (name.to_owned(), sha256_digest(data))
}

/// The entries of a bundle by their views: name and data.
pub open spec fn named_views(s: Seq<(String, Vec<u8>)>) -> Seq<(Seq<char>, Seq<u8>)> {
    s.map_values(|e: (String, Vec<u8>)| (e.0@, e.1@))
}

/// The entries of a bundle in the order they are written: those kept from
/// the template, then the settings of the app, then the web files, each
/// named below `base/assets/www/` by its path in the HTML folder.
pub open spec fn bundle_order(
    planned: Seq<(Seq<char>, Seq<u8>, bool, u64)>,
    settings: Seq<u8>,
    web: Seq<(Seq<char>, Seq<u8>)>,
) -> Seq<(Seq<char>, Seq<u8>)> {
    planned.map_values(|e: (Seq<char>, Seq<u8>, bool, u64)| (e.0, e.1)) + seq![
        ("base/assets/app.json"@, settings),
    ] + web.map_values(|e: (Seq<char>, Seq<u8>)| ("base/assets/www/"@ + e.0, e.1))
}

/// Each entry's name with the SHA-256 digest of its data.
pub open spec fn digests_of(entries: Seq<(Seq<char>, Seq<u8>)>) -> Seq<(Seq<char>, Seq<u8>)> {
    entries.map_values(|e: (Seq<char>, Seq<u8>)| (e.0, sha256(e.1)))
}

pub open spec fn digest_views(s: Seq<(String, [u8; 32])>) -> Seq<(Seq<char>, Seq<u8>)> {
    s.map_values(|e: (String, [u8; 32])| (e.0@, e.1@))
}

fn push_entry(
    entries: &mut Vec<(String, Vec<u8>)>,
    digests: &mut Vec<(String, [u8; 32])>,
    name: String,
    data: Vec<u8>,
)
    ensures
        named_views(final(entries)@) == named_views(old(entries)@).push((name@, data@)),
        digest_views(final(digests)@) == digest_views(old(digests)@).push((name@, sha256(data@))),
{
    let digest = entry_digest(name.as_str(), data.as_slice());
    let ghost e0 = old(entries)@;
    let ghost d0 = old(digests)@;
    entries.push((name, data));
    digests.push(digest);
    assert(named_views(entries@) =~= named_views(e0).push((name@, data@)));
    assert(digest_views(digests@) =~= digest_views(d0).push((name@, sha256(data@))));
}

/// The entries of a bundle in the order they are written, with the digests
/// that its signature lists: `planned` are the entries kept from the
/// template, `settings` the settings of the app, `web` the web files by
/// their paths in the HTML folder and their data.
pub fn bundle_contents(
    planned: &Vec<PlannedEntry>,
    settings: Vec<u8>,
    web: Vec<(String, Vec<u8>)>,
) -> (res: (Vec<(String, Vec<u8>)>, Vec<(String, [u8; 32])>))
    ensures
        named_views(res.0@) == bundle_order(planned_views(planned@), settings@, named_views(web@)),
        digest_views(res.1@) == digests_of(named_views(res.0@)),
{
    let ghost order = bundle_order(planned_views(planned@), settings@, named_views(web@));
    let mut entries: Vec<(String, Vec<u8>)> = Vec::new();
    let mut digests: Vec<(String, [u8; 32])> = Vec::new();
    let mut i: usize = 0;
    while i < planned.len()
        invariant
            i <= planned@.len(),
            named_views(entries@) == order.take(i as int),
            order == bundle_order(planned_views(planned@), settings@, named_views(web@)),
            digest_views(digests@) == digests_of(named_views(entries@)),
        decreases planned@.len() - i,
    {
        let name = planned[i].name.clone();
        let data = vstd::slice::slice_to_vec(planned[i].data.as_slice());
        push_entry(&mut entries, &mut digests, name, data);
        assert(order.take(i + 1) =~= order.take(i as int).push(order[i as int]));
        assert(digests_of(named_views(entries@)) =~= digests_of(order.take(i as int)).push(
            (order[i as int].0, sha256(order[i as int].1)),
        ));
        i = i + 1;
    }
    let ghost n: int = planned@.len() as int;
    let settings_name = settings_entry_name(OutputFormat::Aab).to_owned();
    proof {
        reveal_strlit("base/assets/app.json");
    }
    push_entry(&mut entries, &mut digests, settings_name, settings);
    assert(order.take(n + 1) =~= order.take(n).push(order[n]));
    assert(digests_of(named_views(entries@)) =~= digests_of(order.take(n)).push(
        (order[n].0, sha256(order[n].1)),
    ));
    let mut web = web;
    let ghost web0 = named_views(web@);
    let mut k: usize = 0;
    let count = web.len();
    let mut rest: Vec<(String, Vec<u8>)> = Vec::new();
    while k < count
        invariant
            k <= count,
            count == web0.len(),
            named_views(entries@) == order.take(n + 1 + k),
            order == bundle_order(planned_views(planned@), settings@, web0),
            n == planned@.len(),
            digest_views(digests@) == digests_of(named_views(entries@)),
            named_views(web@) == web0.skip(k as int),
            web@.len() == count - k,
        decreases count - k,
    {
        let ghost before = named_views(entries@);
        let ghost wold = web@;
        let (relative, data) = web.remove(0);
        assert(named_views(wold)[0] == web0[k as int]);
        assert((relative@, data@) == web0[k as int]);
        assert forall|i: int| 0 <= i < named_views(web@).len() implies named_views(web@)[i]
            == web0.skip(k + 1)[i] by {
            assert(web@[i] == wold[i + 1]);
            assert(named_views(wold)[i + 1] == web0.skip(k as int)[i + 1]);
        }
        assert(named_views(web@) =~= web0.skip(k + 1));
        let name = web_entry_name(OutputFormat::Aab, relative.as_str());
        push_entry(&mut entries, &mut digests, name, data);
        let ghost j = n + 1 + k;
        assert(order[j] == ("base/assets/www/"@ + web0[k as int].0, web0[k as int].1));
        assert(order.take(j + 1) =~= order.take(j).push(order[j]));
        assert(before == order.take(j));
        assert(named_views(entries@) == order.take(j + 1));
        assert(digests_of(named_views(entries@)) =~= digests_of(order.take(j)).push(
            (order[j].0, sha256(order[j].1)),
        ));
        k = k + 1;
    }
    assert(order.take(n + 1 + count) =~= order);
    (entries, digests)
}

} // verus!
