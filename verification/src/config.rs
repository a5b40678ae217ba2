//! The settings of an app to build.

use vstd::prelude::*;

verus! {

/// Screen orientation of the generated app.
#[derive(Debug, Clone, Copy, PartialEq, Eq, Structural)]
pub enum Orientation {
    Auto,
    Portrait,
    Landscape,
}

impl Default for Orientation {
    fn default() -> (o: Self)
        ensures
            o == Orientation::Auto,
    {
        Orientation::Auto
    }
}

/// Which storage the generated app may use.
#[derive(Debug, Clone, Copy, PartialEq, Eq, Structural)]
pub enum StorageMode {
    Private,
    Media,
    Saf,
    AllFiles,
}

impl Default for StorageMode {
    fn default() -> (m: Self)
        ensures
            m == StorageMode::Private,
    {
        StorageMode::Private
    }
}

/// The kind of package to produce.
#[derive(Debug, Clone, Copy, PartialEq, Eq, Structural)]
pub enum OutputFormat {
    Apk,
    Aab,
}

impl Default for OutputFormat {
    fn default() -> (f: Self)
        ensures
            f == OutputFormat::Apk,
    {
        OutputFormat::Apk
    }
}

impl OutputFormat {
    /// The file extension of the package, without the dot.
    pub fn extension(self) -> (ext: &'static str)
        ensures
            ext@ == (match self {
                OutputFormat::Apk => "apk"@,
                OutputFormat::Aab => "aab"@,
            }),
    {
        match self {
            OutputFormat::Apk => "apk",
            OutputFormat::Aab => "aab",
        }
    }
}

/// Everything the generated app is configured with.
#[derive(Debug, Clone)]
pub struct AppConfig {
    pub app_name: String,
    pub package_id: String,
    pub version_name: String,
    pub version_code: u32,
    pub start_page: String,
    pub orientation: Orientation,
    pub fullscreen: bool,
    pub keep_screen_on: bool,
    pub open_external_links: bool,
    pub allow_cleartext_http: bool,
    pub storage: StorageMode,
    pub internet: bool,
    pub camera: bool,
    pub microphone: bool,
    pub location: bool,
    pub notifications: bool,
    pub file_api: bool,
    pub disable_splash: bool,
    pub status_bar_color: String,
    pub navigation_bar_color: String,
}

impl Default for AppConfig {
    fn default() -> (c: Self)
        ensures
            c.app_name@ == "My App"@,
            c.package_id@ == "com.example.myapp"@,
            c.version_name@ == "1.0.0"@,
            c.version_code == 1,
            c.start_page@ == "index.html"@,
            c.orientation == Orientation::Auto,
            !c.fullscreen,
            !c.keep_screen_on,
            c.open_external_links,
            !c.allow_cleartext_http,
            c.storage == StorageMode::Private,
            !c.internet,
            !c.camera,
            !c.microphone,
            !c.location,
            !c.notifications,
            c.file_api,
            !c.disable_splash,
            c.status_bar_color@ == "#202124"@,
            c.navigation_bar_color@ == "#000000"@,
    {
        AppConfig {
            app_name: String::from_str("My App"),
            package_id: String::from_str("com.example.myapp"),
            version_name: String::from_str("1.0.0"),
            version_code: 1,
            start_page: String::from_str("index.html"),
            orientation: Orientation::Auto,
            fullscreen: false,
            keep_screen_on: false,
            open_external_links: true,
            allow_cleartext_http: false,
            storage: StorageMode::Private,
            internet: false,
            camera: false,
            microphone: false,
            location: false,
            notifications: false,
            file_api: true,
            disable_splash: false,
            status_bar_color: String::from_str("#202124"),
            navigation_bar_color: String::from_str("#000000"),
        }
    }
}

} // verus!
