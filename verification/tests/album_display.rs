use musicboxd::display::{album_card, album_href_of, cover_src_of, track_row};
use musicboxd::model::{SpotifyAlbum, Track};
use musicboxd::server::{cover_art_source, check_base_url, has_prefix, BaseUrlStatus, CoverArtSource};

#[test]
fn album_card_fields() {
    let a = SpotifyAlbum {
        spotify_id: "6dVIqQ8qmQ5GBnJ9shOYGE".to_string(),
        title: "OK Computer".to_string(),
        artists: vec!["Radiohead".to_string()],
        album_type: "album".to_string(),
        release_year: Some(1997),
        has_cover_art: true,
    };
    let c = album_card(&a);
    assert_eq!(c.href, "/album/6dVIqQ8qmQ5GBnJ9shOYGE");
    assert_eq!(c.cover_src, "/album-art/6dVIqQ8qmQ5GBnJ9shOYGE");
    assert_eq!(c.title, "OK Computer");
    assert_eq!(c.artists, "Radiohead");
    assert_eq!(c.album_type, "album");
    assert_eq!(c.year, "1997");
}

#[test]
fn album_card_unknown_year() {
    let a = SpotifyAlbum {
        spotify_id: "x".to_string(),
        title: String::new(),
        artists: vec!["A".to_string(), "B".to_string()],
        album_type: "single".to_string(),
        release_year: None,
        has_cover_art: false,
    };
    let c = album_card(&a);
    assert_eq!(c.year, "????");
    assert_eq!(c.artists, "A, B");
}

#[test]
fn album_paths() {
    assert_eq!(album_href_of(""), "/album/");
    assert_eq!(cover_src_of("abc"), "/album-art/abc");
}

#[test]
fn track_row_fields() {
    let t = Track {
        track_id: "t1".to_string(),
        disc_number: 1,
        track_number: 4,
        name: "Exit Music".to_string(),
        artists: vec!["Radiohead".to_string(), "Guest".to_string()],
        duration_ms: Some(264_000),
    };
    let r = track_row(&t);
    assert_eq!(r.number, 4);
    assert_eq!(r.name, "Exit Music");
    assert_eq!(r.artists.as_deref(), Some("Radiohead, Guest"));
    assert_eq!(r.duration, "4:24");
}

#[test]
fn track_row_without_artists_or_length() {
    let t = Track {
        track_id: "t2".to_string(),
        disc_number: 2,
        track_number: 1,
        name: "Intro".to_string(),
        artists: vec![],
        duration_ms: None,
    };
    let r = track_row(&t);
    assert!(r.artists.is_none());
    assert_eq!(r.duration, "");
}

#[test]
fn base_url_statuses() {
    assert_eq!(check_base_url("https://musicboxd.example"), BaseUrlStatus::Secure);
    assert_eq!(check_base_url("http://127.0.0.1:3000"), BaseUrlStatus::Insecure);
    assert_eq!(check_base_url("ftp://x"), BaseUrlStatus::Invalid);
    assert_eq!(check_base_url("http:/x"), BaseUrlStatus::Invalid);
    assert_eq!(check_base_url(""), BaseUrlStatus::Invalid);
    assert_eq!(check_base_url("HTTPS://x"), BaseUrlStatus::Invalid);
}

#[test]
fn prefix_examples() {
    assert!(has_prefix("abc", ""));
    assert!(has_prefix("abc", "ab"));
    assert!(has_prefix("abc", "abc"));
    assert!(!has_prefix("ab", "abc"));
    assert!(!has_prefix("abc", "b"));
}

#[test]
fn cover_art_sources() {
    match cover_art_source(Some((Some(vec![1, 2, 3]), Some("u".to_string())))) {
        CoverArtSource::Stored(b) => assert_eq!(b, vec![1, 2, 3]),
        other => panic!("expected the stored image, got {other:?}"),
    }
    match cover_art_source(Some((None, Some("https://i.scdn.co/x".to_string())))) {
        CoverArtSource::Remote(u) => assert_eq!(u, "https://i.scdn.co/x"),
        other => panic!("expected the remote image, got {other:?}"),
    }
    assert!(matches!(cover_art_source(Some((None, None))), CoverArtSource::Unavailable));
    assert!(matches!(cover_art_source(None), CoverArtSource::Unavailable));
}
