//! File paths as `file://` URIs, the form language servers name documents
//! by, and back. Turning a path into its canonical absolute form reads the
//! file system and is the caller's part.
use vstd::prelude::*;

verus! {

/// What `url::Url::from_file_path` serializes path `path` to (`None` when
/// it refuses the path).
pub uninterp spec fn file_uri_of(path: Seq<char>) -> Option<Seq<char>>;

/// The path `url::Url::parse` followed by `to_file_path` gives for `uri`
/// (`None` when either refuses it, or the path is not UTF-8).
pub uninterp spec fn uri_path_of(uri: Seq<char>) -> Option<Seq<char>>;

/// Whether `path` is absolute on a Unix-like system: it starts at the root.
pub open spec fn is_absolute(path: Seq<char>) -> bool {
    path.len() > 0 && path[0] == '/'
}

/// `url::Url::from_file_path`, serialized by `to_string`. On Unix-like
/// systems it refuses exactly the paths that are not absolute, and its
/// URI starts with `file://`; the percent-encoding of each component is
/// left to the name `file_uri_of`.
#[verifier::external_body]
fn url_from_file_path(path: &str) -> (r: Option<String>)
    ensures
        match r {
            Some(u) => file_uri_of(path@) == Some(u@),
            None => file_uri_of(path@) is None,
        },
        r is Some <==> is_absolute(path@),
        r matches Some(u) ==> u@.len() >= 7 && u@.subrange(0, 7) == "file://"@,
{
    match url::Url::from_file_path(path) {
        Ok(u) => Some(u.to_string()),
        Err(()) => None,
    }
}

/// `url::Url::parse`, then `to_file_path` on the URL, as a string. The
/// path it gives is absolute; which URIs it takes, and the percent-decoding
/// of the path, are left to the name `uri_path_of`.
#[verifier::external_body]
fn url_to_file_path(uri: &str) -> (r: Option<String>)
    ensures
        match r {
            Some(p) => uri_path_of(uri@) == Some(p@),
            None => uri_path_of(uri@) is None,
        },
        r matches Some(p) ==> is_absolute(p@),
{
    match url::Url::parse(uri) {
        Ok(u) => match u.to_file_path() {
            Ok(p) => p.into_os_string().into_string().ok(),
            Err(()) => None,
        },
        Err(_) => None,
    }
}

/// The `file://` URI of the absolute path `path`.
pub fn uri(path: &str) -> (r: String)
    requires
        is_absolute(path@),
    ensures
        file_uri_of(path@) == Some(r@),
        r@.len() >= 7 && r@.subrange(0, 7) == "file://"@,
{
    match url_from_file_path(path) {
        Some(u) => u,
        None => {
            assert(false);
            String::new()
        },
    }
}

/// The absolute path a `file://` URI names; `None` for a URI that cannot
/// be read, one of another host, or one whose path is not UTF-8.
pub fn from_uri(uri: &str) -> (r: Option<String>)
    ensures
        match r {
            Some(p) => uri_path_of(uri@) == Some(p@) && is_absolute(p@),
            None => uri_path_of(uri@) is None,
        },
{
    url_to_file_path(uri)
}

} // verus!
