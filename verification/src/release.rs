//! Self-update: which release asset to fetch, and what to take out of it.
use vstd::prelude::*;
use crate::json::{json_member_field_strings, json_member_fields, opt_text, opt_texts_of, rows_view, texts_of};
use crate::paths::{file_name_of, path_file_name};
use crate::text::{join_texts, contains_text, ends_with, ends_with_text, has_text, same_text};

verus! {

/// The release asset built for an operating system (as `std::env::consts::OS` names it).
pub open spec fn release_file_name_spec(os: Seq<char>) -> Option<Seq<char>> {
    if os == "windows"@ {
        Some("creeper_cli-x86_64-pc-windows-msvc.zip"@)
    } else if os == "linux"@ {
        Some("creeper_cli-x86_64-unknown-linux-gnu.tar.gz"@)
    } else if os == "macos"@ {
        Some("creeper_cli-x86_64-apple-darwin.tar.gz"@)
    } else {
        None
    }
}

/// The release asset built for an operating system; none for other systems.
pub fn release_file_name(os: &str) -> (r: Option<&'static str>)
    ensures
        match r {
            Some(name) => release_file_name_spec(os@) == Some(name@),
            None => release_file_name_spec(os@) is None,
        },
{
    if same_text(os, "windows") {
        Some("creeper_cli-x86_64-pc-windows-msvc.zip")
    } else if same_text(os, "linux") {
        Some("creeper_cli-x86_64-unknown-linux-gnu.tar.gz")
    } else if same_text(os, "macos") {
        Some("creeper_cli-x86_64-apple-darwin.tar.gz")
    } else {
        None
    }
}

/// Whether the release for the system comes as a zip archive (Windows) rather than a
/// gzipped tarball.
pub fn release_is_zip(os: &str) -> (r: bool)
    ensures
        r == (os@ == "windows"@),
{
    same_text(os, "windows")
}

/// A release asset as the release listing describes it: its name and download address,
/// where they are strings.
pub struct Asset {
    pub name: Option<String>,
    pub download_url: Option<String>,
}

/// An asset's value: name and download address.
pub open spec fn asset_view(a: Asset) -> (Option<Seq<char>>, Option<Seq<char>>) {
    (opt_text(a.name), opt_text(a.download_url))
}

pub open spec fn assets_view(v: Seq<Asset>) -> Seq<(Option<Seq<char>>, Option<Seq<char>>)> {
    Seq::new(v.len(), |i: int| asset_view(v[i]))
}

/// The asset's name holds `file_name`.
pub open spec fn asset_matches(a: (Option<Seq<char>>, Option<Seq<char>>), file_name: Seq<char>) -> bool {
    match a.0 {
        Some(n) => contains_text(n, file_name),
        None => false,
    }
}

/// Index of the first asset from `from` on whose name holds `file_name`.
pub open spec fn first_matching_asset(
    assets: Seq<(Option<Seq<char>>, Option<Seq<char>>)>,
    file_name: Seq<char>,
    from: int,
) -> Option<int>
    decreases assets.len() - from,
{
    if from < 0 || from >= assets.len() {
        None
    } else if asset_matches(assets[from], file_name) {
        Some(from)
    } else {
        first_matching_asset(assets, file_name, from + 1)
    }
}

/// The download address of the first asset whose name holds `file_name`; none when no
/// asset matches or the first that does has no address.
pub open spec fn download_url_spec(assets: Seq<(Option<Seq<char>>, Option<Seq<char>>)>, file_name: Seq<char>) -> Option<Seq<char>> {
    match first_matching_asset(assets, file_name, 0) {
        None => None,
        Some(i) => assets[i].1,
    }
}

/// The download address of the asset to fetch (see `download_url_spec`).
pub fn find_download_url(assets: &Vec<Asset>, file_name: &str) -> (r: Option<String>)
    ensures
        opt_text(r) == download_url_spec(assets_view(assets@), file_name@),
{
    let ghost av = assets_view(assets@);
    let mut i: usize = 0;
    while i < assets.len()
        invariant
            av == assets_view(assets@),
            i <= assets.len(),
            first_matching_asset(av, file_name@, 0) == first_matching_asset(av, file_name@, i as int),
        decreases assets.len() - i,
    {
        let hit = match &assets[i].name {
            Some(n) => has_text(n.as_str(), file_name),
            None => false,
        };
        assert(av[i as int] == asset_view(assets@[i as int]));
        if hit {
            return match &assets[i].download_url {
                Some(u) => Some(u.clone()),
                None => None,
            };
        }
        i = i + 1;
    }
    None
}

/// Why no download address came out of the release listing.
pub enum ListingError {
    /// The listing is not JSON.
    NotJson,
    /// The listing has no `assets` array.
    NoAssets,
    /// No asset matches, or the first that does has no download address.
    AssetNotFound,
}

/// The members read from each listed asset: `name` and `browser_download_url`.
pub open spec fn asset_fields() -> Seq<Seq<char>> {
    seq!["name"@, "browser_download_url"@]
}

/// The assets of the listing's rows of field values.
pub open spec fn assets_of(rows: Seq<Seq<Option<Seq<char>>>>) -> Seq<(Option<Seq<char>>, Option<Seq<char>>)> {
    Seq::new(rows.len(), |i: int| (rows[i][0], rows[i][1]))
}

/// The download address the release listing gives for the asset named like `file_name`
/// (see `download_url_spec`), or why there is none.
pub open spec fn release_download_url_spec(listing: Seq<char>, file_name: Seq<char>) -> Result<Seq<char>, int> {
    match json_member_field_strings(listing, "assets"@, asset_fields()) {
        None => Err(0),
        Some(None) => Err(1),
        Some(Some(rows)) => match download_url_spec(assets_of(rows), file_name) {
            Some(u) => Ok(u),
            None => Err(2),
        },
    }
}

pub open spec fn listing_result_view(r: Result<String, ListingError>) -> Result<Seq<char>, int> {
    match r {
        Ok(s) => Ok(s@),
        Err(ListingError::NotJson) => Err(0),
        Err(ListingError::NoAssets) => Err(1),
        Err(ListingError::AssetNotFound) => Err(2),
    }
}

/// Reads the release listing (JSON text) and gives the download address of the asset
/// named like `file_name`: the listing must be JSON with an `assets` array, and the
/// first asset whose `name` holds `file_name` must have a `browser_download_url`.
pub fn release_download_url(listing: &str, file_name: &str) -> (r: Result<String, ListingError>)
    ensures
        listing_result_view(r) == release_download_url_spec(listing@, file_name@),
{
    let fields = vec![String::from_str("name"), String::from_str("browser_download_url")];
    proof {
        assert(texts_of(fields@) =~= asset_fields());
    }
    let rows = match json_member_fields(listing, "assets", &fields) {
        None => return Err(ListingError::NotJson),
        Some(None) => return Err(ListingError::NoAssets),
        Some(Some(rows)) => rows,
    };
    let ghost rv = rows_view(rows@);
    let mut assets: Vec<Asset> = Vec::new();
    let mut i: usize = 0;
    while i < rows.len()
        invariant
            rv == rows_view(rows@),
            forall|j: int| 0 <= j < rv.len() ==> #[trigger] rv[j].len() == 2,
            i <= rows.len(),
            assets_view(assets@) == assets_of(rv).subrange(0, i as int),
        decreases rows.len() - i,
    {
        assert(rv[i as int].len() == 2);
        assert(rv[i as int] == opt_texts_of(rows@[i as int]@));
        let name = match &rows[i][0] {
            Some(t) => Some(t.clone()),
            None => None,
        };
        let url = match &rows[i][1] {
            Some(t) => Some(t.clone()),
            None => None,
        };
        assert(opt_text(name) == rv[i as int][0] && opt_text(url) == rv[i as int][1]);
        let a = Asset { name, download_url: url };
        let ghost av_new = asset_view(a);
        assert(av_new == assets_of(rv)[i as int]);
        let ghost before = assets@;
        assets.push(a);
        assert(assets_view(assets@) =~= assets_view(before).push(av_new));
        assert(assets_view(assets@) =~= assets_of(rv).subrange(0, i + 1));
        i = i + 1;
    }
    assert(assets_view(assets@) =~= assets_of(rv));
    match find_download_url(&assets, file_name) {
        Some(u) => Ok(u),
        None => Err(ListingError::AssetNotFound),
    }
}

/// The Windows batch script before the path of the running program.
pub const BATCH_HEAD: &'static str = "\n        @echo off\n        color 0A\n        timeout /t 2 /nobreak >nul\n        move /Y creeper_cli_new.exe \"";

/// The Windows batch script after the path of the running program.
pub const BATCH_TAIL: &'static str = "\"\n    echo Successfully updated CreeperCLI-2! You may close this window.\n    \n    color 07\n    exit\n        ";

/// The batch script that moves the extracted program over the running one.
pub fn batch_script(current_exe: &str) -> (r: String)
    ensures
        r@ == BATCH_HEAD@ + current_exe@ + BATCH_TAIL@,
{
    let mut r = join_texts(BATCH_HEAD, current_exe);
    r.append(BATCH_TAIL);
    r
}

/// `zip::ZipArchive::new` on the bytes, then `len`: the number of entries, or the
/// error's text.
pub uninterp spec fn zip_entry_count(data: Seq<u8>) -> Result<nat, Seq<char>>;

/// `by_index(index)` on the archive of the bytes, then `name`: the entry's name, or the
/// error's text.
pub uninterp spec fn zip_entry_name(data: Seq<u8>, index: nat) -> Result<Seq<char>, Seq<char>>;

/// `by_index(index)` on the archive of the bytes, then reading the entry to its end:
/// the entry's uncompressed bytes, or the error's text.
pub uninterp spec fn zip_entry_data(data: Seq<u8>, index: nat) -> Result<Seq<u8>, Seq<char>>;

/// Opens the bytes as a zip archive (`zip::ZipArchive::new`) and counts its entries;
/// named by `zip_entry_count`.
#[verifier::external_body]
fn zip_count(data: &[u8]) -> (r: Result<usize, String>)
    ensures
        match r {
            Ok(n) => zip_entry_count(data@) == Ok::<nat, Seq<char>>(n as nat),
            Err(e) => zip_entry_count(data@) == Err::<nat, Seq<char>>(e@),
        },
{
    match zip::ZipArchive::new(std::io::Cursor::new(data)) {
        Ok(archive) => Ok(archive.len()),
        Err(e) => Err(e.to_string()),
    }
}

/// The name of entry `index` (`ZipArchive::by_index`, `ZipFile::name`); named by
/// `zip_entry_name`.
#[verifier::external_body]
fn zip_name(data: &[u8], index: usize) -> (r: Result<String, String>)
    ensures
        match r {
            Ok(n) => zip_entry_name(data@, index as nat) == Ok::<Seq<char>, Seq<char>>(n@),
            Err(e) => zip_entry_name(data@, index as nat) == Err::<Seq<char>, Seq<char>>(e@),
        },
{
    let mut archive = zip::ZipArchive::new(std::io::Cursor::new(data)).map_err(|e| e.to_string())?;
    let file = archive.by_index(index).map_err(|e| e.to_string())?;
    Ok(file.name().to_string())
}

/// The contents of entry `index` (`ZipArchive::by_index`, read to the end); named by
/// `zip_entry_data`.
#[verifier::external_body]
fn zip_data(data: &[u8], index: usize) -> (r: Result<Vec<u8>, String>)
    ensures
        match r {
            Ok(b) => zip_entry_data(data@, index as nat) == Ok::<Seq<u8>, Seq<char>>(b@),
            Err(e) => zip_entry_data(data@, index as nat) == Err::<Seq<u8>, Seq<char>>(e@),
        },
{
    let mut archive = zip::ZipArchive::new(std::io::Cursor::new(data)).map_err(|e| e.to_string())?;
    let mut file = archive.by_index(index).map_err(|e| e.to_string())?;
    let mut bytes: Vec<u8> = Vec::new();
    std::io::Read::read_to_end(&mut file, &mut bytes).map_err(|e| e.to_string())?;
    Ok(bytes)
}

/// The search through the entries from `from` on: the first entry whose name ends in
/// `.exe` gives its contents; an entry that cannot be opened stops the search with its error.
pub open spec fn exe_search(data: Seq<u8>, count: nat, from: nat) -> Result<Option<Seq<u8>>, Seq<char>>
    decreases count - from,
{
    if from >= count {
        Ok(None)
    } else {
        match zip_entry_name(data, from) {
            Err(e) => Err(e),
            Ok(name) => if ends_with_text(name, ".exe"@) {
                match zip_entry_data(data, from) {
                    Ok(b) => Ok(Some(b)),
                    Err(e) => Err(e),
                }
            } else {
                exe_search(data, count, from + 1)
            },
        }
    }
}

/// The program in a zip release: the contents of its first `.exe` entry, none when it
/// has no such entry, or the error that stopped the search.
pub open spec fn zip_exe(data: Seq<u8>) -> Result<Option<Seq<u8>>, Seq<char>> {
    match zip_entry_count(data) {
        Err(e) => Err(e),
        Ok(n) => exe_search(data, n, 0),
    }
}

pub open spec fn exe_result_view(r: Result<Option<Vec<u8>>, String>) -> Result<Option<Seq<u8>>, Seq<char>> {
    match r {
        Ok(Some(b)) => Ok(Some(b@)),
        Ok(None) => Ok(None),
        Err(e) => Err(e@),
    }
}

/// Takes the program out of a zip release (see `zip_exe`).
pub fn find_exe_in_zip(data: &[u8]) -> (r: Result<Option<Vec<u8>>, String>)
    ensures
        exe_result_view(r) == zip_exe(data@),
{
    let n = match zip_count(data) {
        Ok(n) => n,
        Err(e) => return Err(e),
    };
    let mut i: usize = 0;
    while i < n
        invariant
            i <= n,
            zip_entry_count(data@) == Ok::<nat, Seq<char>>(n as nat),
            zip_exe(data@) == exe_search(data@, n as nat, i as nat),
        decreases n - i,
    {
        let name = match zip_name(data, i) {
            Ok(name) => name,
            Err(e) => return Err(e),
        };
        if ends_with(name.as_str(), ".exe") {
            return match zip_data(data, i) {
                Ok(b) => Ok(Some(b)),
                Err(e) => Err(e),
            };
        }
        i = i + 1;
    }
    Ok(None)
}

/// `tar::Archive` over `flate2::read::GzDecoder` over the bytes: `entries()`, then item
/// `index` of that walk and its `path()`, as text (lossily, where it is not UTF-8);
/// `Ok(None)` past the last entry; the error's text where opening the walk, the item or
/// its path fails.
pub uninterp spec fn tarball_entry_path(data: Seq<u8>, index: nat) -> Result<Option<Seq<char>>, Seq<char>>;

/// Reads the path of entry `index` of a gzipped tarball held in memory; named by
/// `tarball_entry_path`.
#[verifier::external_body]
fn tarball_entry(data: &[u8], index: usize) -> (r: Result<Option<String>, String>)
    ensures
        match r {
            Ok(Some(p)) => tarball_entry_path(data@, index as nat) == Ok::<Option<Seq<char>>, Seq<char>>(Some(p@)),
            Ok(None) => tarball_entry_path(data@, index as nat) == Ok::<Option<Seq<char>>, Seq<char>>(None),
            Err(e) => tarball_entry_path(data@, index as nat) == Err::<Option<Seq<char>>, Seq<char>>(e@),
        },
{
    let mut archive = tar::Archive::new(flate2::read::GzDecoder::new(std::io::Cursor::new(data)));
    let mut entries = archive.entries().map_err(|e| e.to_string())?;
    match entries.nth(index) {
        None => Ok(None),
        Some(entry) => {
            let entry = entry.map_err(|e| e.to_string())?;
            let path = entry.path().map_err(|e| e.to_string())?;
            Ok(Some(path.to_string_lossy().into_owned()))
        },
    }
}

/// The name of the program inside a tarball release.
pub open spec fn binary_name() -> Seq<char> {
    "creeper_cli"@
}

/// The walk through a tarball's entries from `from` on: the first entry whose file name
/// is `creeper_cli` gives its index; the end of the archive gives none; an entry whose
/// path cannot be read stops the walk with its error.
pub open spec fn tarball_search(data: Seq<u8>, from: nat) -> Result<Option<nat>, Seq<char>>
    decreases usize::MAX - from,
{
    if from >= usize::MAX {
        Ok(None)
    } else {
        match tarball_entry_path(data, from) {
            Err(e) => Err(e),
            Ok(None) => Ok(None),
            Ok(Some(p)) => if file_name_of(p) == Some(binary_name()) {
                Ok(Some(from))
            } else {
                tarball_search(data, from + 1)
            },
        }
    }
}

pub open spec fn index_result_view(r: Result<Option<usize>, String>) -> Result<Option<nat>, Seq<char>> {
    match r {
        Ok(Some(i)) => Ok(Some(i as nat)),
        Ok(None) => Ok(None),
        Err(e) => Err(e@),
    }
}

/// The index of the program's entry in a gzipped tarball release (see `tarball_search`).
pub fn find_binary_in_tarball(data: &[u8]) -> (r: Result<Option<usize>, String>)
    ensures
        index_result_view(r) == tarball_search(data@, 0),
{
    proof {
        reveal_strlit("creeper_cli");
    }
    let mut i: usize = 0;
    while i < usize::MAX
        invariant
            tarball_search(data@, 0) == tarball_search(data@, i as nat),
        decreases usize::MAX - i,
    {
        match tarball_entry(data, i) {
            Err(e) => return Err(e),
            Ok(None) => return Ok(None),
            Ok(Some(path)) => {
                let hit = match path_file_name(path.as_str()) {
                    Some(name) => same_text(name.as_str(), "creeper_cli"),
                    None => false,
                };
                if hit {
                    return Ok(Some(i));
                }
            },
        }
        i = i + 1;
    }
    Ok(None)
}

proof fn lemma_first_matching(assets: Seq<(Option<Seq<char>>, Option<Seq<char>>)>, file_name: Seq<char>, from: int)
    requires
        0 <= from,
    ensures
        match first_matching_asset(assets, file_name, from) {
            Some(i) => from <= i < assets.len() && asset_matches(assets[i], file_name)
                && forall|j: int| from <= j < i ==> !asset_matches(#[trigger] assets[j], file_name),
            None => forall|j: int| from <= j < assets.len() ==> !asset_matches(#[trigger] assets[j], file_name),
        },
    decreases assets.len() - from,
{
    if from < assets.len() && !asset_matches(assets[from], file_name) {
        lemma_first_matching(assets, file_name, from + 1);
    }
}

/// The download address chosen is that of an asset whose name holds the file name, and
/// no earlier asset's name holds it; there is none only when no asset's name holds it or
/// the first that does has no address.
pub proof fn lemma_download_url_first_match(assets: Seq<(Option<Seq<char>>, Option<Seq<char>>)>, file_name: Seq<char>)
    ensures
        match download_url_spec(assets, file_name) {
            Some(u) => exists|i: int| {
                &&& 0 <= i < assets.len()
                &&& #[trigger] assets[i].1 == Some(u)
                &&& (assets[i].0 matches Some(n) && contains_text(n, file_name))
                &&& forall|j: int| 0 <= j < i ==> !(#[trigger] assets[j].0 matches Some(m) && contains_text(m, file_name))
            },
            None => forall|i: int| 0 <= i < assets.len() && (#[trigger] assets[i].0 matches Some(n)
                && contains_text(n, file_name)) ==> exists|j: int| 0 <= j <= i && (assets[j].0 matches Some(m)
                && contains_text(m, file_name)) && #[trigger] assets[j].1 is None,
        },
{
    lemma_first_matching(assets, file_name, 0);
    match first_matching_asset(assets, file_name, 0) {
        Some(i) => {
            if assets[i].1 is Some {
                assert(assets[i].0 matches Some(n) && contains_text(n, file_name));
                assert forall|j: int| 0 <= j < i implies !(#[trigger] assets[j].0 matches Some(m) && contains_text(m, file_name)) by {
                    assert(!asset_matches(assets[j], file_name));
                }
            } else {
                assert forall|k: int| 0 <= k < assets.len() && (#[trigger] assets[k].0 matches Some(n)
                    && contains_text(n, file_name)) implies exists|j: int| 0 <= j <= k && (assets[j].0 matches Some(m)
                    && contains_text(m, file_name)) && #[trigger] assets[j].1 is None by {
                    assert(asset_matches(assets[k], file_name));
                    assert(i <= k);
                    assert(assets[i].1 is None);
                }
            }
        },
        None => {
            assert forall|k: int| 0 <= k < assets.len() && (#[trigger] assets[k].0 matches Some(n)
                && contains_text(n, file_name)) implies exists|j: int| 0 <= j <= k && (assets[j].0 matches Some(m)
                && contains_text(m, file_name)) && #[trigger] assets[j].1 is None by {
                assert(asset_matches(assets[k], file_name));
            }
        },
    }
}

} // verus!
