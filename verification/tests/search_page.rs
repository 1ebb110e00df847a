use musicboxd::model::{SearchPage, SpotifyAlbum};
use musicboxd::search::{
    search_destination, search_page_number, PageSource, SearchStatus, SearchView,
};

fn album(id: &str) -> SpotifyAlbum {
    SpotifyAlbum {
        spotify_id: id.to_string(),
        title: format!("Title {id}"),
        artists: vec!["Artist".to_string()],
        album_type: "album".to_string(),
        release_year: Some(2001),
        has_cover_art: false,
    }
}

fn ids(v: &SearchView) -> Vec<String> {
    v.albums().iter().map(|a| a.spotify_id.clone()).collect()
}

#[test]
fn page_number_zero_reads_as_one() {
    assert_eq!(search_page_number(0), 1);
    assert_eq!(search_page_number(1), 1);
    assert_eq!(search_page_number(7), 7);
    assert_eq!(search_page_number(u32::MAX), u32::MAX);
}

#[test]
fn destination_for_blank_and_plain_queries() {
    assert_eq!(search_destination(""), "/");
    assert_eq!(search_destination("  \t"), "/");
    assert_eq!(search_destination("ok computer"), "/?q=ok+computer");
    assert_eq!(search_destination(" a&b "), "/?q=+a%26b+");
}

#[test]
fn blank_query_needs_no_lookup() {
    let v = SearchView::new("   ".to_string());
    match v.source() {
        PageSource::Ready(p) => {
            assert!(p.albums.is_empty());
            assert_eq!(p.total, 0);
        }
        PageSource::Fetch { .. } => panic!("a blank query must not be looked up"),
    }
}

#[test]
fn query_is_looked_up_on_current_page() {
    let mut v = SearchView::new("beck".to_string());
    v.load_more();
    match v.source() {
        PageSource::Fetch { query, page } => {
            assert_eq!(query, "beck");
            assert_eq!(page, 2);
        }
        PageSource::Ready(_) => panic!("a query must be looked up"),
    }
}

#[test]
fn pages_accumulate_while_scrolling() {
    let mut v = SearchView::new("q".to_string());
    v.receive_page(vec![album("1"), album("2")]);
    v.load_more();
    v.receive_page(vec![album("3")]);
    v.load_more();
    v.receive_page(vec![]);
    assert_eq!(v.page(), 3);
    assert_eq!(ids(&v), vec!["1", "2", "3"]);
}

#[test]
fn first_page_replaces_results() {
    let mut v = SearchView::new("q".to_string());
    v.receive_page(vec![album("1")]);
    v.receive_page(vec![album("9")]);
    assert_eq!(ids(&v), vec!["9"]);
}

#[test]
fn new_query_resets_scroll() {
    let mut v = SearchView::new("a".to_string());
    v.receive_page(vec![album("1")]);
    v.load_more();
    v.receive_page(vec![album("2")]);
    v.set_query("b".to_string());
    assert_eq!(v.query(), "b");
    assert_eq!(v.page(), 1);
    assert!(v.albums().is_empty());
}

#[test]
fn same_query_keeps_scroll() {
    let mut v = SearchView::new("a".to_string());
    v.receive_page(vec![album("1")]);
    v.load_more();
    v.set_query("a".to_string());
    assert_eq!(v.page(), 2);
    assert_eq!(ids(&v), vec!["1"]);
}

#[test]
fn status_lines() {
    let blank = SearchView::new(String::new());
    assert_eq!(blank.status(&None), SearchStatus::Hidden);

    let mut v = SearchView::new("q".to_string());
    assert_eq!(v.status(&None), SearchStatus::Searching);
    assert_eq!(
        v.status(&Some(Err("boom".to_string()))),
        SearchStatus::Failed("boom".to_string())
    );
    let empty = SearchPage { albums: vec![], total: 0 };
    assert_eq!(v.status(&Some(Ok(empty))), SearchStatus::NoResults);
    let one = SearchPage { albums: vec![album("1")], total: 1 };
    assert_eq!(v.status(&Some(Ok(one))), SearchStatus::LoadMore);

    v.receive_page(vec![album("1")]);
    v.load_more();
    assert_eq!(v.status(&None), SearchStatus::Loading);
    // an empty later page still offers more
    let empty_later = SearchPage { albums: vec![], total: 1 };
    assert_eq!(v.status(&Some(Ok(empty_later))), SearchStatus::LoadMore);
}
