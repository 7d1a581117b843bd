//! File names and extensions of paths held as text.
use vstd::prelude::*;
use crate::text::{chars_of, suffix_from};

verus! {

/// The final component of a path as `std::path::Path::file_name` reads it
/// (after its normalisation of separators and `.` components; `None` where the
/// path ends in `..` or has no normal final component). Components are split at the
/// separators of the platform the library is built for (`/`, and also `\` on Windows).
pub uninterp spec fn file_name_of(path: Seq<char>) -> Option<Seq<char>>;

/// Index of the last `.` in `name`.
pub open spec fn last_dot(name: Seq<char>) -> Option<int>
    decreases name.len(),
{
    if name.len() == 0 {
        None
    } else if name.last() == '.' {
        Some(name.len() - 1)
    } else {
        last_dot(name.drop_last())
    }
}

/// The extension of a file name: what follows its last `.`, unless that `.`
/// is the name's first character or the name has none.
pub open spec fn name_extension(name: Seq<char>) -> Option<Seq<char>> {
    match last_dot(name) {
        None => None,
        Some(i) => if i == 0 {
            None
        } else {
            Some(name.subrange(i + 1, name.len() as int))
        },
    }
}

/// The extension of a path: that of its file name.
pub open spec fn extension_of(path: Seq<char>) -> Option<Seq<char>> {
    match file_name_of(path) {
        None => None,
        Some(name) => name_extension(name),
    }
}

/// `std::path::Path::file_name` on a path held as text. The result is named by
/// `file_name_of`; a component of a UTF-8 path is itself UTF-8, so the
/// conversion back to text loses nothing.
#[verifier::external_body]
pub(crate) fn path_file_name(path: &str) -> (r: Option<String>)
    ensures
        match r {
            Some(name) => file_name_of(path@) == Some(name@),
            None => file_name_of(path@) is None,
        },
{
    std::path::Path::new(path).file_name().map(|name| name.to_string_lossy().into_owned())
}

proof fn lemma_last_dot(name: Seq<char>, k: int)
    requires
        0 <= k <= name.len(),
        forall|j: int| k <= j < name.len() ==> name[j] != '.',
    ensures
        last_dot(name) == last_dot(name.subrange(0, k)),
    decreases name.len() - k,
{
    if k < name.len() {
        assert(name.last() != '.');
        assert(name.drop_last() =~= name.subrange(0, name.len() - 1));
        lemma_last_dot(name.drop_last(), k);
        assert(name.drop_last().subrange(0, k) =~= name.subrange(0, k));
    } else {
        assert(name.subrange(0, k) =~= name);
    }
}

/// The extension of a path, from its file name as `std::path::Path::extension` documents
/// it: what follows the file name's last `.`, unless there is none or it begins the name.
pub fn path_extension(path: &str) -> (r: Option<String>)
    ensures
        match r {
            Some(ext) => extension_of(path@) == Some(ext@),
            None => extension_of(path@) is None,
        },
{
    let name = match path_file_name(path) {
        Some(name) => name,
        None => return None,
    };
    let chars = chars_of(name.as_str());
    let n = chars.len();
    let mut k: usize = n;
    while k > 0
        invariant
            k <= n,
            n == chars@.len(),
            chars@ == name@,
            file_name_of(path@) == Some(name@),
            forall|j: int| k <= j < n ==> chars@[j] != '.',
        decreases k,
    {
        if chars[k - 1] == '.' {
            proof {
                lemma_last_dot(name@, k as int);
                assert(name@.subrange(0, k as int).last() == '.');
            }
            if k - 1 == 0 {
                return None;
            }
            let ext = suffix_from(name.as_str(), k);
            return Some(ext);
        }
        k = k - 1;
    }
    proof {
        lemma_last_dot(name@, 0);
        assert(name@.subrange(0, 0).len() == 0);
    }
    None
}

} // verus!
