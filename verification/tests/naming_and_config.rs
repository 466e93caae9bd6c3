use immich_album_sync::config::Config;
use immich_album_sync::endpoints::{album_url, asset_url};
use immich_album_sync::naming::{expected_filename, extension_token, stem_of_name};
use immich_album_sync::privileges::elevation_indicated;
use immich_album_sync::strings::{contains_sub, trim_trailing_slashes};

fn config_with_url(api_url: &str) -> Config {
    Config {
        api_url: String::from(api_url),
        api_key: String::from("key"),
        album_id: String::from("album"),
        local_folder: String::from("photos"),
        interval_minutes: None,
        background_interval_minutes: Some(30),
    }
}

#[test]
fn stem_is_everything_before_the_first_dot() {
    assert_eq!(stem_of_name("a1.png"), "a1");
    assert_eq!(stem_of_name("archive.tar.gz"), "archive");
    assert_eq!(stem_of_name("noext"), "noext");
    assert_eq!(stem_of_name(".hidden"), "");
    assert_eq!(stem_of_name(""), "");
}

#[test]
fn extension_comes_from_the_file_name_component() {
    assert_eq!(extension_token("foo/bar.png"), ".png");
    assert_eq!(extension_token("x/a.tar.gz"), ".gz");
    assert_eq!(extension_token("y/2"), ".jpg");
    assert_eq!(extension_token("dir.v/file"), ".jpg");
    assert_eq!(extension_token("x/.hidden"), ".jpg");
    assert_eq!(extension_token("x/name."), ".");
    assert_eq!(extension_token(""), ".jpg");
}

#[test]
fn expected_filename_is_id_plus_extension() {
    assert_eq!(expected_filename("id", "foo/bar.png"), "id.png");
    assert_eq!(expected_filename("id", "y/2"), "id.jpg");
    assert_eq!(expected_filename("a1", "upload/2023/IMG_0001.HEIC"), "a1.HEIC");
}

#[test]
fn trim_removes_only_trailing_slashes() {
    assert_eq!(trim_trailing_slashes("http://h/api///"), "http://h/api");
    assert_eq!(trim_trailing_slashes("http://h"), "http://h");
    assert_eq!(trim_trailing_slashes("///"), "");
    assert_eq!(trim_trailing_slashes(""), "");
}

#[test]
fn normalize_appends_api_suffix_when_missing() {
    let mut c = config_with_url("http://host");
    c.normalize_api_url();
    assert_eq!(c.api_url, "http://host/api");

    let mut c = config_with_url("http://host///");
    c.normalize_api_url();
    assert_eq!(c.api_url, "http://host/api");
}

#[test]
fn normalize_keeps_url_that_already_ends_with_api() {
    let mut c = config_with_url("http://host/api");
    c.normalize_api_url();
    assert_eq!(c.api_url, "http://host/api");

    // Trailing slashes are only set aside for the check, not removed.
    let mut c = config_with_url("http://host/api/");
    c.normalize_api_url();
    assert_eq!(c.api_url, "http://host/api/");
}

#[test]
fn normalize_touches_no_other_field() {
    let mut c = config_with_url("http://host");
    c.normalize_api_url();
    assert_eq!(c.api_key, "key");
    assert_eq!(c.album_id, "album");
    assert_eq!(c.local_folder, "photos");
    assert_eq!(c.interval_minutes, None);
    assert_eq!(c.background_interval_minutes, Some(30));
}

#[test]
fn album_url_names_the_album_with_assets() {
    assert_eq!(
        album_url("http://h/api", "alb1"),
        "http://h/api/albums/alb1?withoutAssets=false"
    );
    assert_eq!(
        album_url("http://h/api//", "alb1"),
        "http://h/api/albums/alb1?withoutAssets=false"
    );
}

#[test]
fn asset_url_names_the_original_content() {
    assert_eq!(asset_url("http://h/api", "a9"), "http://h/api/assets/a9/original");
    assert_eq!(asset_url("http://h/api/", "a9"), "http://h/api/assets/a9/original");
}

#[test]
fn substring_search_finds_needles() {
    assert!(contains_sub("abcdef", "cde"));
    assert!(contains_sub("abcdef", ""));
    assert!(contains_sub("abcdef", "abcdef"));
    assert!(!contains_sub("abcdef", "abcdefg"));
    assert!(!contains_sub("abcdef", "ce"));
}

#[test]
fn elevation_needs_enabled_admin_group_or_high_level() {
    assert!(elevation_indicated(
        "BUILTIN\\Administrators S-1-5-32-544 Enabled group"
    ));
    assert!(!elevation_indicated("BUILTIN\\Administrators S-1-5-32-544 Group used for deny only"));
    assert!(elevation_indicated("Mandatory Label\\High Mandatory Level S-1-16-12288"));
    assert!(!elevation_indicated("Enabled group S-1-5-32-545"));
    assert!(!elevation_indicated(""));
}
