use creeper_cli::release::{batch_script, find_binary_in_tarball, find_download_url, release_download_url, ListingError, find_exe_in_zip, release_file_name, release_is_zip, Asset};
use std::io::Write;

fn asset(name: Option<&str>, url: Option<&str>) -> Asset {
    Asset { name: name.map(|s| s.to_string()), download_url: url.map(|s| s.to_string()) }
}

#[test]
fn release_names_by_system() {
    assert_eq!(release_file_name("windows"), Some("creeper_cli-x86_64-pc-windows-msvc.zip"));
    assert_eq!(release_file_name("linux"), Some("creeper_cli-x86_64-unknown-linux-gnu.tar.gz"));
    assert_eq!(release_file_name("macos"), Some("creeper_cli-x86_64-apple-darwin.tar.gz"));
    assert_eq!(release_file_name("freebsd"), None);
    assert!(release_is_zip("windows"));
    assert!(!release_is_zip("linux"));
}

#[test]
fn download_url_of_first_matching_asset() {
    let assets = vec![
        asset(None, Some("u0")),
        asset(Some("notes.txt"), Some("u1")),
        asset(Some("creeper_cli-x86_64-unknown-linux-gnu.tar.gz"), Some("u2")),
        asset(Some("creeper_cli-x86_64-unknown-linux-gnu.tar.gz.sha"), Some("u3")),
    ];
    assert_eq!(find_download_url(&assets, "unknown-linux-gnu.tar.gz"), Some("u2".to_string()));
    assert_eq!(find_download_url(&assets, "apple-darwin"), None);
    let no_url = vec![asset(Some("a.zip"), None), asset(Some("a.zip"), Some("later"))];
    assert_eq!(find_download_url(&no_url, "a.zip"), None);
    assert_eq!(find_download_url(&vec![], "a"), None);
}

#[test]
fn batch_script_moves_new_program_over_current() {
    let s = batch_script("C:\\bin\\creeper_cli.exe");
    assert!(s.contains("move /Y creeper_cli_new.exe \"C:\\bin\\creeper_cli.exe\"\n"));
    assert!(s.starts_with("\n        @echo off\n        color 0A\n"));
    assert!(s.ends_with("    color 07\n    exit\n        "));
}

fn zip_of(entries: &[(&str, &[u8])]) -> Vec<u8> {
    let mut out = std::io::Cursor::new(Vec::new());
    {
        let mut w = zip::ZipWriter::new(&mut out);
        for (name, data) in entries {
            w.start_file(*name, zip::write::SimpleFileOptions::default()).unwrap();
            w.write_all(data).unwrap();
        }
        w.finish().unwrap();
    }
    out.into_inner()
}

#[test]
fn exe_taken_from_zip() {
    let data = zip_of(&[("README.md", b"hi"), ("creeper_cli.exe", b"MZbinary"), ("other.exe", b"no")]);
    assert_eq!(find_exe_in_zip(&data), Ok(Some(b"MZbinary".to_vec())));
    let none = zip_of(&[("README.md", b"hi")]);
    assert_eq!(find_exe_in_zip(&none), Ok(None));
}

#[test]
fn broken_zip_is_an_error() {
    assert!(find_exe_in_zip(b"not a zip").is_err());
}

fn tarball_of(entries: &[(&str, &[u8])]) -> Vec<u8> {
    let encoder = flate2::write::GzEncoder::new(Vec::new(), flate2::Compression::default());
    let mut builder = tar::Builder::new(encoder);
    for (path, data) in entries {
        let mut header = tar::Header::new_gnu();
        header.set_size(data.len() as u64);
        header.set_mode(0o755);
        header.set_cksum();
        builder.append_data(&mut header, *path, *data).unwrap();
    }
    builder.into_inner().unwrap().finish().unwrap()
}

#[test]
fn program_entry_found_in_tarball() {
    let data = tarball_of(&[("dir/README", b"r"), ("dir/creeper_cli", b"ELF"), ("creeper_cli", b"x")]);
    assert_eq!(find_binary_in_tarball(&data), Ok(Some(1)));
    let none = tarball_of(&[("creeper_cli.txt", b"r"), ("bin/creeper", b"x")]);
    assert_eq!(find_binary_in_tarball(&none), Ok(None));
    assert_eq!(find_binary_in_tarball(&tarball_of(&[])), Ok(None));
}

#[test]
fn broken_tarball_is_an_error() {
    assert!(find_binary_in_tarball(b"not gzip").is_err());
}

#[test]
fn release_download_url_reads_the_listing() {
    let listing = r#"{"tag_name": "v2", "assets": [
        {"name": "creeper_cli-x86_64-pc-windows-msvc.zip", "browser_download_url": "https://x/win.zip"},
        {"name": 7, "browser_download_url": "https://x/bad"},
        {"name": "creeper_cli-x86_64-unknown-linux-gnu.tar.gz", "browser_download_url": "https://x/linux.tar.gz"}
    ]}"#;
    assert_eq!(release_download_url(listing, "creeper_cli-x86_64-unknown-linux-gnu.tar.gz").ok(), Some("https://x/linux.tar.gz".to_string()));
    assert_eq!(release_download_url(listing, "pc-windows-msvc.zip").ok(), Some("https://x/win.zip".to_string()));
    assert!(matches!(release_download_url(listing, "apple-darwin"), Err(ListingError::AssetNotFound)));
}

#[test]
fn release_download_url_errors() {
    assert!(matches!(release_download_url("<html>", "a"), Err(ListingError::NotJson)));
    assert!(matches!(release_download_url(r#"{"message": "rate limited"}"#, "a"), Err(ListingError::NoAssets)));
    assert!(matches!(release_download_url(r#"{"assets": {"a": 1}}"#, "a"), Err(ListingError::NoAssets)));
    assert!(matches!(release_download_url(r#"{"assets": [{"name": "a.zip"}]}"#, "a.zip"), Err(ListingError::AssetNotFound)));
}
