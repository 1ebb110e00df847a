//! Albums, tracks and search results as the server hands them to the pages.

use vstd::prelude::*;

verus! {

/// A Spotify album as returned by search/lookup.
#[derive(Debug, Clone)]
pub struct SpotifyAlbum {
    pub spotify_id: String,
    pub title: String,
    pub artists: Vec<String>,
    pub album_type: String,
    pub release_year: Option<u32>,
    /// True once the cover art has been stored in the database. The first
    /// search response may be false; subsequent ones will be true after the
    /// background fetch completes.
    pub has_cover_art: bool,
}

/// A single track as returned by the album detail lookup.
#[derive(Debug, Clone)]
pub struct Track {
    pub track_id: String,
    pub disc_number: u32,
    pub track_number: u32,
    pub name: String,
    pub artists: Vec<String>,
    pub duration_ms: Option<u32>,
}

/// Album metadata combined with its full track listing.
#[derive(Debug, Clone)]
pub struct AlbumDetail {
    pub album: SpotifyAlbum,
    pub tracks: Vec<Track>,
}

/// A page of search results together with the total result count.
/// `total` is the total number of cached results, used by the client
/// to compute the page count without an extra round-trip.
#[derive(Debug, Clone)]
pub struct SearchPage {
    pub albums: Vec<SpotifyAlbum>,
    pub total: usize,
}

} // verus!
