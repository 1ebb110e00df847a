//! What the search results list and the album page show of an album and
//! of each of its tracks.

use crate::model::{SpotifyAlbum, Track};
use crate::text::{
    duration_text,
    format_duration,
    format_year,
    join_artists,
    joined,
    list_separator,
    string_views,
    year_text,
};
use vstd::prelude::*;

verus! {

/// The text of one album as the pages show it.
#[derive(Debug)]
pub struct AlbumCard {
    /// Link to the album's page.
    pub href: String,
    /// Address of the album's cover image.
    pub cover_src: String,
    pub title: String,
    /// The artists, separated by ", ".
    pub artists: String,
    pub album_type: String,
    /// The release year, or "????" when it is unknown.
    pub year: String,
}

/// The link to the page of the album `id`: "/album/" and the id.
pub open spec fn album_href(id: Seq<char>) -> Seq<char> {
    "/album/"@ + id
}

/// The address of the cover image of the album `id`: "/album-art/" and the id.
pub open spec fn cover_src(id: Seq<char>) -> Seq<char> {
    "/album-art/"@ + id
}

/// The link to the page of the album `id`.
pub fn album_href_of(id: &str) -> (r: String)
    ensures
        r@ == album_href(id@),
{
    let mut s = String::from_str("/album/");
    s.append(id);
    s
}

/// The address of the cover image of the album `id`.
pub fn cover_src_of(id: &str) -> (r: String)
    ensures
        r@ == cover_src(id@),
{
    let mut s = String::from_str("/album-art/");
    s.append(id);
    s
}

/// The card shown for `album` in the search results and at the head of
/// its page.
pub fn album_card(album: &SpotifyAlbum) -> (c: AlbumCard)
    ensures
        c.href@ == album_href(album.spotify_id@),
        c.cover_src@ == cover_src(album.spotify_id@),
        c.title@ == album.title@,
        c.artists@ == joined(string_views(album.artists@), list_separator()),
        c.album_type@ == album.album_type@,
        c.year@ == year_text(album.release_year),
{
    AlbumCard {
        href: album_href_of(album.spotify_id.as_str()),
        cover_src: cover_src_of(album.spotify_id.as_str()),
        title: album.title.clone(),
        artists: join_artists(&album.artists),
        album_type: album.album_type.clone(),
        year: format_year(album.release_year),
    }
}

/// One row of an album's track list.
#[derive(Debug)]
pub struct TrackRow {
    pub number: u32,
    pub name: String,
    /// The track's artists separated by ", ", shown only when that text is
    /// not empty.
    pub artists: Option<String>,
    /// The track's length, e.g. "3:35"; empty when unknown.
    pub duration: String,
}

/// The row shown for `track` in its album's track list.
pub fn track_row(track: &Track) -> (r: TrackRow)
    ensures
        r.number == track.track_number,
        r.name@ == track.name@,
        r.duration@ == duration_text(track.duration_ms),
        ({
            let names = joined(string_views(track.artists@), list_separator());
            if names.len() == 0 {
                r.artists is None
            } else {
                r.artists matches Some(a) && a@ == names
            }
        }),
{
    let names = join_artists(&track.artists);
    let artists = if names.as_str().is_empty() {
        None
    } else {
        Some(names)
    };
    TrackRow {
        number: track.track_number,
        name: track.name.clone(),
        artists,
        duration: format_duration(track.duration_ms),
    }
}

} // verus!
