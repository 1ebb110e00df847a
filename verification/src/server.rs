//! Decisions of the server entry point: whether the configured base URL
//! can be used, and where the cover image of an album comes from.

use crate::text::chars_of;
use vstd::prelude::*;

verus! {

/// Whether `prefix` begins `s`.
pub open spec fn starts_with(s: Seq<char>, prefix: Seq<char>) -> bool {
    prefix.len() <= s.len() && s.subrange(0, prefix.len() as int) == prefix
}

/// Whether the text `s` begins with `prefix`.
pub fn has_prefix(s: &str, prefix: &str) -> (r: bool)
    ensures
        r == starts_with(s@, prefix@),
{
    let sc = chars_of(s);
    let pc = chars_of(prefix);
    if pc.len() > sc.len() {
        return false;
    }
    let mut i: usize = 0;
    while i < pc.len()
        invariant
            sc@ == s@,
            pc@ == prefix@,
            pc.len() <= sc.len(),
            i <= pc.len(),
            forall|j: int| 0 <= j < i ==> sc@[j] == pc@[j],
        decreases pc.len() - i,
    {
        if sc[i] != pc[i] {
            assert(s@.subrange(0, prefix@.len() as int)[i as int] != prefix@[i as int]);
            return false;
        }
        i = i + 1;
    }
    assert(s@.subrange(0, prefix@.len() as int) =~= prefix@);
    true
}

/// How the server may use its base URL.
#[derive(Debug, PartialEq, Eq)]
pub enum BaseUrlStatus {
    /// Neither "http://" nor "https://" begins it: the server does not start.
    Invalid,
    /// It begins with "http://": usable, but insecure in production.
    Insecure,
    /// It begins with "https://".
    Secure,
}

/// The status of base URL `url`.
pub open spec fn base_url_status(url: Seq<char>) -> BaseUrlStatus {
    if starts_with(url, "https://"@) {
        BaseUrlStatus::Secure
    } else if starts_with(url, "http://"@) {
        BaseUrlStatus::Insecure
    } else {
        BaseUrlStatus::Invalid
    }
}

/// Checks the base URL the OAuth callbacks are built from.
pub fn check_base_url(url: &str) -> (r: BaseUrlStatus)
    ensures
        r == base_url_status(url@),
{
    if has_prefix(url, "https://") {
        BaseUrlStatus::Secure
    } else if has_prefix(url, "http://") {
        BaseUrlStatus::Insecure
    } else {
        BaseUrlStatus::Invalid
    }
}

/// Where the cover image of an album is served from.
#[derive(Debug)]
pub enum CoverArtSource {
    /// The image stored in the database.
    Stored(Vec<u8>),
    /// The image is fetched from this address (and stored for next time).
    Remote(String),
    /// No image is known: the answer is "not found".
    Unavailable,
}

/// The source of an album's cover image, given the album's database row:
/// `None` when the album is unknown, else its stored image and image
/// address, each possibly missing. A stored image is served first, then
/// the image address is tried.
pub fn cover_art_source(row: Option<(Option<Vec<u8>>, Option<String>)>) -> (r: CoverArtSource)
    ensures
        match row {
            None => r is Unavailable,
            Some((Some(bytes), _)) => r matches CoverArtSource::Stored(b) && b@ == bytes@,
            Some((None, Some(url))) => r matches CoverArtSource::Remote(u) && u@ == url@,
            Some((None, None)) => r is Unavailable,
        },
{
    match row {
        None => CoverArtSource::Unavailable,
        Some((Some(bytes), _)) => CoverArtSource::Stored(bytes),
        Some((None, Some(url))) => CoverArtSource::Remote(url),
        Some((None, None)) => CoverArtSource::Unavailable,
    }
}

} // verus!
