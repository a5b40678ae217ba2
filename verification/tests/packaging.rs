use html2apk::aab;
use html2apk::config::{AppConfig, Orientation, OutputFormat, StorageMode};
use html2apk::package::{
    alignment_for, alignment_padding, archive_name, build, bundle_manifest_data, icon_density_for,
    manifest_replacements, open_template, plan_template, prepare_icons, settings_entry_name, should_replace, stored_uncompressed,
    web_entry_name, web_entry_wanted, BuildRequest, PackageError, PathPart, TemplateContext,
    WebFileScan, MAX_WEB_BYTES,
};
use html2apk::project::{slug, storage_label};
use html2apk::replacements::Replacements;
use html2apk::validate::{
    validate_color, validate_package_id, validate_relative_path, validate_request, ColorError,
    ValidationError,
};
use std::io::Write;
use std::path::PathBuf;

#[test]
fn icon_density_matches_plain_and_versioned_paths() {
    assert_eq!(icon_density_for("res/drawable-mdpi/icon_payload.png"), Some(48));
    assert_eq!(icon_density_for("res/drawable-hdpi-v4/icon_payload.png"), Some(72));
    assert_eq!(icon_density_for("base/res/drawable-xhdpi-v4/icon_payload.png"), Some(96));
    assert_eq!(icon_density_for("res/drawable-xxhdpi-v4/icon_payload.png"), Some(144));
    assert_eq!(icon_density_for("res/drawable-xxxhdpi/icon_payload.png"), Some(192));
    assert_eq!(icon_density_for("res/Hu.png"), None);
    assert_eq!(icon_density_for("res/drawable-xxhdpi/other.png"), None);
    assert_eq!(icon_density_for("assets/www/drawable-mdpi/icon_payload.png"), Some(48));
}

#[test]
fn icon_directories_must_be_whole_segments() {
    assert_eq!(icon_density_for("res/drawable-mdpix/icon_payload.png"), None);
    assert_eq!(icon_density_for("res/xdrawable-mdpi/icon_payload.png"), None);
    assert_eq!(icon_density_for("icon_payload.png"), None);
    assert_eq!(icon_density_for("res/drawable-mdpi/icon_payload.png/"), None);
}

#[test]
fn package_id_rules() {
    assert!(validate_package_id("com.example.app").is_ok());
    assert!(validate_package_id("one").is_err());
    assert!(validate_package_id("com.bad-name.app").is_err());
}

#[test]
fn relative_path_rules() {
    assert!(validate_relative_path("pages/index.html").is_ok());
    assert!(validate_relative_path("../secret").is_err());
}

#[test]
fn absolute_start_pages_are_refused() {
    assert_eq!(validate_relative_path("/etc/passwd"), Err(ValidationError::StartPageNotRelative));
    assert_eq!(validate_relative_path("a/../../b"), Err(ValidationError::StartPageNotRelative));
}

#[test]
fn colors_need_hash_and_hex_digits() {
    assert_eq!(validate_color("#202124"), Ok(()));
    assert_eq!(validate_color("#80202124"), Ok(()));
    assert_eq!(validate_color("202124"), Err(ColorError::MissingHash));
    assert_eq!(validate_color("#2021"), Err(ColorError::WrongLength));
    assert_eq!(validate_color("#20212g"), Err(ColorError::NotHex));
}

#[test]
fn requests_are_checked_in_order() {
    let config = AppConfig::default();
    assert_eq!(validate_request(&config, false, true), Err(ValidationError::WebRootMissing));
    assert_eq!(validate_request(&config, true, false), Err(ValidationError::StartPageMissing));
    assert_eq!(validate_request(&config, true, true), Ok(()));
    let mut bad = AppConfig::default();
    bad.version_code = 0;
    assert_eq!(validate_request(&bad, true, true), Err(ValidationError::VersionCodeZero));
    let mut bad = AppConfig::default();
    bad.app_name = "  ".to_string();
    assert_eq!(validate_request(&bad, true, true), Err(ValidationError::AppNameEmpty));
    let mut bad = AppConfig::default();
    bad.navigation_bar_color = "red".to_string();
    assert_eq!(
        validate_request(&bad, true, true),
        Err(ValidationError::NavigationBarColor(ColorError::MissingHash))
    );
}

fn request(format: OutputFormat, icon: Option<PathBuf>) -> BuildRequest {
    BuildRequest {
        web_root: PathBuf::from("web"),
        output_apk: PathBuf::from("out.apk"),
        icon,
        signing_key: None,
        config: AppConfig::default(),
        format,
    }
}

#[test]
fn build_decides_the_writer() {
    assert_eq!(build(&request(OutputFormat::Aab, None), true, true, false), Ok(OutputFormat::Aab));
    assert_eq!(build(&request(OutputFormat::Apk, None), true, true, false), Ok(OutputFormat::Apk));
    assert_eq!(
        build(&request(OutputFormat::Apk, Some(PathBuf::from("i.png"))), true, true, false),
        Err(PackageError::IconMissing)
    );
    assert_eq!(
        build(&request(OutputFormat::Apk, None), false, true, true),
        Err(PackageError::Invalid(ValidationError::WebRootMissing))
    );
}

#[test]
fn template_entries_to_replace() {
    assert!(should_replace("META-INF/CERT.RSA"));
    assert!(should_replace("assets/www/index.html"));
    assert!(should_replace("assets/app.json"));
    assert!(!should_replace("assets/app.json5"));
    assert!(!should_replace("AndroidManifest.xml"));
    assert!(aab::should_replace("base/assets/www/a.js"));
    assert!(aab::should_replace("base/assets/app.json"));
    assert!(aab::should_replace("META-INF/MANIFEST.MF"));
    assert!(!aab::should_replace("assets/www/a.js"));
}

#[test]
fn stored_entries_are_aligned_to_four() {
    assert!(stored_uncompressed("resources.arsc"));
    assert!(stored_uncompressed("lib/arm64-v8a/libx.so"));
    assert!(!stored_uncompressed("classes.dex"));
    assert_eq!(alignment_for("resources.arsc"), 4);
    assert_eq!(alignment_for("lib/x86/liba.so"), 4);
    assert_eq!(alignment_for("res/layout/main.xml"), 1);
    assert_eq!(alignment_padding(4, 30), 2);
    assert_eq!(alignment_padding(4, 32), 0);
    assert_eq!(alignment_padding(4, 33), 3);
    assert_eq!(alignment_padding(1, 33), 0);
}

#[test]
fn entry_names_use_forward_slashes() {
    assert_eq!(archive_name("res\\drawable\\a.png"), "res/drawable/a.png");
    assert_eq!(archive_name("plain"), "plain");
    assert_eq!(web_entry_name(OutputFormat::Apk, "js/app.js"), "assets/www/js/app.js");
    assert_eq!(web_entry_name(OutputFormat::Aab, "index.html"), "base/assets/www/index.html");
    assert_eq!(settings_entry_name(OutputFormat::Apk), "assets/app.json");
    assert_eq!(settings_entry_name(OutputFormat::Aab), "base/assets/app.json");
}

fn lookup(r: &Replacements, key: &str) -> Option<String> {
    r.get(&key.to_string()).cloned()
}

#[test]
fn replacements_hold_ids_and_disabled_permissions() {
    let mut config = AppConfig::default();
    config.package_id = "com.example.app".to_string();
    config.app_name = "テスト".to_string();
    config.internet = true;
    config.storage = StorageMode::Media;
    let r = manifest_replacements(&config);
    assert_eq!(lookup(&r, "io.html2apk.generated").as_deref(), Some("com.example.app"));
    assert_eq!(lookup(&r, "__H2A_APP_NAME__").as_deref(), Some("テスト"));
    assert_eq!(lookup(&r, "__H2A_VERSION_NAME__").as_deref(), Some("1.0.0"));
    assert_eq!(lookup(&r, "android.permission.INTERNET"), None);
    assert_eq!(
        lookup(&r, "android.permission.CAMERA").as_deref(),
        Some("io.html2apk.disabled.CAMERA")
    );
    assert_eq!(lookup(&r, "android.permission.READ_MEDIA_IMAGES"), None);
    assert_eq!(
        lookup(&r, "android.permission.MANAGE_EXTERNAL_STORAGE").as_deref(),
        Some("io.html2apk.disabled.MANAGE_EXTERNAL_STORAGE")
    );
    assert_eq!(r.len(), 9);
}

#[test]
fn replacement_table_is_a_map() {
    let mut r = Replacements::new();
    assert_eq!(r.len(), 0);
    r.insert("a".to_string(), "1".to_string());
    r.insert("b".to_string(), "2".to_string());
    r.insert("a".to_string(), "3".to_string());
    assert_eq!(r.len(), 2);
    assert_eq!(lookup(&r, "a").as_deref(), Some("3"));
    assert_eq!(lookup(&r, "b").as_deref(), Some("2"));
    assert_eq!(lookup(&r, "c"), None);
}

fn normal(parts: &[&str]) -> Vec<PathPart> {
    parts.iter().map(|p| PathPart::Normal(p.to_string())).collect()
}

#[test]
fn web_files_are_named_filtered_and_sorted() {
    assert_eq!(web_entry_wanted(true, true, false), Err(PackageError::SymbolicLink));
    assert_eq!(web_entry_wanted(false, false, false), Ok(false));
    assert_eq!(web_entry_wanted(false, true, true), Ok(false));
    assert_eq!(web_entry_wanted(false, true, false), Ok(true));
    let mut scan = WebFileScan::new();
    scan.add(PathBuf::from("w/z.js"), 10, normal(&["z.js"])).unwrap();
    scan.add(PathBuf::from("w/css/a.css"), 10, normal(&["css", "a.css"])).unwrap();
    scan.add(PathBuf::from("w/.git/HEAD"), 10, normal(&[".git", "HEAD"])).unwrap();
    scan.add(PathBuf::from("w/index.html"), 10, normal(&["index.html"])).unwrap();
    scan.add(PathBuf::from("w/a.gitx"), 10, normal(&["a.gitx"])).unwrap();
    let files = scan.finish();
    let names: Vec<&str> = files.iter().map(|f| f.1.as_str()).collect();
    assert_eq!(names, vec!["a.gitx", "css/a.css", "index.html", "z.js"]);
    assert_eq!(files[1].0, PathBuf::from("w/css/a.css"));
}

#[test]
fn web_files_must_be_plain_and_small() {
    let mut scan = WebFileScan::new();
    assert_eq!(
        scan.add(PathBuf::from("x"), 1, vec![PathPart::Other, PathPart::Normal("x".into())]),
        Err(PackageError::UnsafePath)
    );
    assert_eq!(scan.add(PathBuf::from("big"), MAX_WEB_BYTES, normal(&["big"])), Err(PackageError::WebTooLarge));
    let mut scan = WebFileScan::new();
    scan.add(PathBuf::from("a"), MAX_WEB_BYTES, normal(&["a"])).unwrap();
    assert_eq!(scan.add(PathBuf::from("b"), u64::MAX, normal(&["b"])), Err(PackageError::WebTooLarge));
}

fn template_zip(entries: &[(&str, &[u8])]) -> Vec<u8> {
    let mut writer = zip::ZipWriter::new(std::io::Cursor::new(Vec::new()));
    for (name, data) in entries {
        writer.start_file(*name, zip::write::FileOptions::default()).unwrap();
        writer.write_all(data).unwrap();
    }
    writer.finish().unwrap().into_inner()
}

fn context(format: OutputFormat, icons: Option<Vec<(u32, Vec<u8>)>>) -> TemplateContext {
    TemplateContext {
        format,
        replacements: Replacements::new(),
        version_code: 1,
        allow_cleartext_http: false,
        bundle_manifest: Some(b"patched".to_vec()),
        icons,
    }
}

#[test]
fn template_plan_keeps_order_and_replaces_icons() {
    let bytes = template_zip(&[
        ("META-INF/CERT.SF", b"old"),
        ("res/drawable-hdpi-v4/icon_payload.png", b"template icon"),
        ("resources.arsc", b"table"),
        ("assets/www/old.html", b"old"),
        ("classes.dex", b"dex"),
    ]);
    let mut archive = open_template(bytes).unwrap();
    let icons = vec![(48, b"i48".to_vec()), (72, b"i72".to_vec())];
    let plan = plan_template(&mut archive, &context(OutputFormat::Apk, Some(icons))).unwrap();
    let names: Vec<&str> = plan.iter().map(|e| e.name.as_str()).collect();
    assert_eq!(names, vec!["res/drawable-hdpi-v4/icon_payload.png", "resources.arsc", "classes.dex"]);
    assert_eq!(plan[0].data, b"i72".to_vec());
    assert_eq!((plan[1].stored, plan[1].alignment), (true, 4));
    assert!(plan[1].needs_alignment());
    assert_eq!(plan[2].data, b"dex".to_vec());
    assert!(!plan[2].stored);
}

#[test]
fn bundle_plan_takes_the_patched_manifest() {
    let bytes = template_zip(&[
        ("base/manifest/AndroidManifest.xml", b"raw"),
        ("base/assets/www/x.html", b"old"),
        ("base/dex/classes.dex", b"dex"),
    ]);
    let mut archive = open_template(bytes).unwrap();
    let plan = plan_template(&mut archive, &context(OutputFormat::Aab, None)).unwrap();
    assert_eq!(plan.len(), 2);
    assert_eq!(plan[0].data, b"patched".to_vec());
    assert_eq!((plan[0].stored, plan[0].alignment), (false, 1));
    assert_eq!(plan[1].name, "base/dex/classes.dex");
}

#[test]
fn icon_must_find_an_entry() {
    let bytes = template_zip(&[("classes.dex", b"dex")]);
    let mut archive = open_template(bytes).unwrap();
    let icons = vec![(48, b"i48".to_vec())];
    assert!(matches!(
        plan_template(&mut archive, &context(OutputFormat::Apk, Some(icons))),
        Err(PackageError::IconNotInTemplate)
    ));
    assert!(matches!(open_template(b"not a zip".to_vec()), Err(PackageError::TemplateCorrupt)));
}

#[test]
fn broken_binary_manifest_stops_the_plan() {
    let bytes = template_zip(&[("AndroidManifest.xml", b"tiny")]);
    let mut archive = open_template(bytes).unwrap();
    assert!(matches!(
        plan_template(&mut archive, &context(OutputFormat::Apk, None)),
        Err(PackageError::Manifest(html2apk::axml::AxmlError::ManifestTooShort))
    ));
}

#[test]
fn project_names_are_slugs() {
    assert_eq!(slug("My App"), "my_app");
    assert_eq!(slug("  -Hello_World- "), "hello_world");
    assert_eq!(slug("テスト"), "myapp");
    assert_eq!(slug("___"), "myapp");
    assert_eq!(slug("A1-b2"), "a1_b2");
}

#[test]
fn storage_modes_have_labels() {
    assert_eq!(storage_label(StorageMode::Private), "アプリ専用（権限不要）");
    assert_eq!(storage_label(StorageMode::Media), "音楽・画像・動画");
    assert_eq!(storage_label(StorageMode::Saf), "ユーザー選択フォルダ（推奨）");
    assert_eq!(storage_label(StorageMode::AllFiles), "全ファイル（サイドロード向け）");
}

#[test]
fn defaults_and_extensions() {
    let config = AppConfig::default();
    assert_eq!(config.app_name, "My App");
    assert_eq!(config.package_id, "com.example.myapp");
    assert_eq!(config.orientation, Orientation::Auto);
    assert_eq!(config.status_bar_color, "#202124");
    assert!(config.file_api && config.open_external_links && !config.internet);
    assert_eq!(OutputFormat::default(), OutputFormat::Apk);
    assert_eq!(StorageMode::default(), StorageMode::Private);
    assert_eq!(OutputFormat::Apk.extension(), "apk");
    assert_eq!(OutputFormat::Aab.extension(), "aab");
}

#[test]
fn plain_relative_start_pages_are_accepted() {
    assert_eq!(validate_relative_path("./pages/index.html"), Ok(()));
    assert_eq!(validate_relative_path("a//b.html"), Ok(()));
    assert_eq!(validate_relative_path("a/..b/c.html"), Ok(()));
    assert_eq!(validate_relative_path("index.html"), Ok(()));
    assert_eq!(validate_relative_path("a/.."), Err(ValidationError::StartPageNotRelative));
    assert_eq!(validate_relative_path("//server/share"), Err(ValidationError::StartPageNotRelative));
}

fn stored_zip(name: &str, data: &[u8]) -> Vec<u8> {
    let mut writer = zip::ZipWriter::new(std::io::Cursor::new(Vec::new()));
    let options = zip::write::FileOptions::default().compression_method(zip::CompressionMethod::Stored);
    writer.start_file(name, options).unwrap();
    writer.write_all(data).unwrap();
    writer.finish().unwrap().into_inner()
}

#[test]
fn unreadable_entries_make_the_template_corrupt() {
    let mut bytes = stored_zip("classes.dex", b"dex-data-payload");
    let at = bytes.windows(16).position(|w| w == b"dex-data-payload").unwrap();
    bytes[at] ^= 0xff;
    let mut archive = open_template(bytes.clone()).unwrap();
    assert!(matches!(
        plan_template(&mut archive, &context(OutputFormat::Apk, None)),
        Err(PackageError::TemplateCorrupt)
    ));
    let mut bundle = stored_zip("base/manifest/AndroidManifest.xml", b"manifest-payload");
    let at = bundle.windows(16).position(|w| w == b"manifest-payload").unwrap();
    bundle[at] ^= 0xff;
    let mut archive = open_template(bundle).unwrap();
    assert!(matches!(bundle_manifest_data(&mut archive), Err(PackageError::TemplateCorrupt)));
    let mut archive = open_template(stored_zip("base/manifest/AndroidManifest.xml", b"raw")).unwrap();
    assert_eq!(bundle_manifest_data(&mut archive).unwrap(), Some(b"raw".to_vec()));
}

#[test]
fn icons_are_scaled_and_encoded_for_each_size() {
    let source = image::DynamicImage::new_rgba8(10, 10);
    let icons = prepare_icons(&source).unwrap();
    let sizes: Vec<u32> = icons.iter().map(|(size, _)| *size).collect();
    assert_eq!(sizes, vec![48, 72, 96, 144, 192]);
    for (size, png) in &icons {
        assert_eq!(png[..4], [0x89, b'P', b'N', b'G']);
        let decoded = image::load_from_memory(png).unwrap();
        assert_eq!((decoded.width(), decoded.height()), (*size, *size));
    }
}

#[test]
fn bundle_entries_come_in_order_with_their_digests() {
    let bytes = template_zip(&[
        ("base/manifest/AndroidManifest.xml", b"raw"),
        ("base/dex/classes.dex", b"dex"),
    ]);
    let mut archive = open_template(bytes).unwrap();
    let plan = plan_template(&mut archive, &context(OutputFormat::Aab, None)).unwrap();
    let web = vec![("index.html".to_string(), b"<html>".to_vec())];
    let (entries, digests) = aab::bundle_contents(&plan, b"{}".to_vec(), web);
    let names: Vec<&str> = entries.iter().map(|(n, _)| n.as_str()).collect();
    assert_eq!(
        names,
        vec![
            "base/manifest/AndroidManifest.xml",
            "base/dex/classes.dex",
            "base/assets/app.json",
            "base/assets/www/index.html",
        ]
    );
    assert_eq!(entries[0].1, b"patched".to_vec());
    assert_eq!(entries[3].1, b"<html>".to_vec());
    assert_eq!(digests.len(), 4);
    for ((name, data), digest) in entries.iter().zip(digests.iter()) {
        assert_eq!(*digest, aab::entry_digest(name, data));
    }
}

#[test]
fn unreadable_skipped_entries_do_not_stop_the_plan() {
    let mut writer = zip::ZipWriter::new(std::io::Cursor::new(Vec::new()));
    let stored = zip::write::FileOptions::default().compression_method(zip::CompressionMethod::Stored);
    writer.start_file("META-INF/CERT.SF", stored).unwrap();
    writer.write_all(b"old-signature-xx").unwrap();
    writer.start_file("classes.dex", stored).unwrap();
    writer.write_all(b"dex").unwrap();
    let mut bytes = writer.finish().unwrap().into_inner();
    let at = bytes.windows(16).position(|w| w == b"old-signature-xx").unwrap();
    bytes[at] ^= 0xff;
    let mut archive = open_template(bytes).unwrap();
    let plan = plan_template(&mut archive, &context(OutputFormat::Apk, None)).unwrap();
    assert_eq!(plan.len(), 1);
    assert_eq!(plan[0].name, "classes.dex");
}
