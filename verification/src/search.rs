//! The search page: the query in the URL, infinite scrolling through pages
//! of results, and the status line under the results.
//!
//! The page runs these decisions in a loop: the query changes, a page of
//! results is requested and arrives, the user asks for more.

use crate::model::{SearchPage, SpotifyAlbum};
use crate::text::{is_blank, is_blank_text, url_encode_query, url_encoded};
use vstd::prelude::*;

verus! {

/// The page the search server function looks up for a requested page
/// number: page numbers start at 1, and 0 is read as 1.
pub open spec fn effective_page(page: u32) -> u32 {
    if page >= 1 {
        page
    } else {
        1
    }
}

/// The page of results to look up for a requested page number.
pub fn search_page_number(page: u32) -> (r: u32)
    ensures
        r == effective_page(page),
{
    if page >= 1 {
        page
    } else {
        1
    }
}

/// Where submitting the search form leads: "/" for a blank query, else
/// "/?q=" and the encoded query.
pub open spec fn destination(query: Seq<char>) -> Seq<char> {
    if is_blank_text(query) {
        "/"@
    } else {
        "/?q="@ + url_encoded(query)
    }
}

/// The address the search form navigates to when submitted with `query`.
pub fn search_destination(query: &str) -> (r: String)
    ensures
        r@ == destination(query@),
{
    if is_blank(query) {
        String::from_str("/")
    } else {
        let mut s = String::from_str("/?q=");
        let enc = url_encode_query(query);
        s.append(enc.as_str());
        s
    }
}

/// The list after a page of results arrives while `page` is the current
/// page: page 1 (a fresh query) replaces the list, later pages extend it.
pub open spec fn after_page(page: u32, albums: Seq<SpotifyAlbum>, fetched: Seq<SpotifyAlbum>) -> Seq<
    SpotifyAlbum,
> {
    if page == 1 {
        fetched
    } else {
        albums + fetched
    }
}

/// Where the results for the current query and page come from.
#[derive(Debug)]
pub enum PageSource {
    /// A blank query has no results; nothing is asked of the server.
    Ready(SearchPage),
    /// The server is asked for page `page` of the results for `query`.
    Fetch { query: String, page: u32 },
}

/// What stands under the results list.
#[derive(Debug, PartialEq, Eq)]
pub enum SearchStatus {
    /// The query is blank: neither results nor status are shown.
    Hidden,
    /// The first results are awaited.
    Searching,
    /// More results are awaited.
    Loading,
    /// The search failed with this message.
    Failed(String),
    /// The first page holds no result.
    NoResults,
    /// Results are shown and more can be asked for.
    LoadMore,
}

/// The search page's state: the query from the URL, the last page asked
/// for, and the results gathered so far.
pub struct SearchView {
    query: String,
    page: u32,
    albums: Vec<SpotifyAlbum>,
}

impl SearchView {
    /// The query from the URL.
    pub closed spec fn spec_query(&self) -> Seq<char> {
        self.query@
    }

    /// The last page asked for, counting from 1.
    pub closed spec fn spec_page(&self) -> u32 {
        self.page
    }

    /// The results gathered so far, in order.
    pub closed spec fn spec_albums(&self) -> Seq<SpotifyAlbum> {
        self.albums@
    }

    /// The state in the abstract.
    pub open spec fn model(&self) -> SearchModel {
        SearchModel {
            query: self.spec_query(),
            page: self.spec_page(),
            albums: self.spec_albums(),
        }
    }

    /// The page for `query` before any result arrives: page 1, no results.
    pub fn new(query: String) -> (v: Self)
        ensures
            v.spec_query() == query@,
            v.spec_page() == 1,
            v.spec_albums() == Seq::<SpotifyAlbum>::empty(),
    {
        SearchView { query, page: 1, albums: Vec::new() }
    }

    /// The query from the URL.
    pub fn query(&self) -> (r: &String)
        ensures
            r@ == self.spec_query(),
    {
        &self.query
    }

    /// The last page asked for.
    pub fn page(&self) -> (r: u32)
        ensures
            r == self.spec_page(),
    {
        self.page
    }

    /// The results gathered so far.
    pub fn albums(&self) -> (r: &Vec<SpotifyAlbum>)
        ensures
            r@ == self.spec_albums(),
    {
        &self.albums
    }

    /// The URL's query is now `query`. A query other than the current one
    /// restarts from page 1 with no results; the same query keeps both.
    pub fn set_query(&mut self, query: String)
        ensures
            final(self).spec_query() == query@,
            query@ != old(self).spec_query() ==> final(self).spec_page() == 1
                && final(self).spec_albums() == Seq::<SpotifyAlbum>::empty(),
            query@ == old(self).spec_query() ==> final(self).spec_page() == old(self).spec_page()
                && final(self).spec_albums() == old(self).spec_albums(),
    {
        if query != self.query {
            self.page = 1;
            self.albums = Vec::new();
        }
        self.query = query;
    }

    /// Where the results of the current query and page come from: a blank
    /// query gives an empty page at once, any other query is looked up.
    pub fn source(&self) -> (r: PageSource)
        ensures
            is_blank_text(self.spec_query()) ==> (r matches PageSource::Ready(p) && p.albums@.len()
                == 0 && p.total == 0),
            !is_blank_text(self.spec_query()) ==> (r matches PageSource::Fetch { query, page }
                && query@ == self.spec_query() && page == self.spec_page()),
    {
        if is_blank(self.query.as_str()) {
            PageSource::Ready(SearchPage { albums: Vec::new(), total: 0 })
        } else {
            PageSource::Fetch { query: self.query.clone(), page: self.page }
        }
    }

    /// A page of results arrived: on page 1 it replaces the list, on a
    /// later page it is added at the end.
    pub fn receive_page(&mut self, fetched: Vec<SpotifyAlbum>)
        ensures
            final(self).spec_query() == old(self).spec_query(),
            final(self).spec_page() == old(self).spec_page(),
            final(self).spec_albums() == after_page(
                old(self).spec_page(),
                old(self).spec_albums(),
                fetched@,
            ),
            final(self).model() == received(old(self).model(), fetched@),
            old(self).spec_page() == 1 ==> final(self).spec_albums() == fetched@,
            old(self).spec_page() != 1 ==> final(self).spec_albums() == old(self).spec_albums()
                + fetched@,
    {
        let mut fetched = fetched;
        if self.page == 1 {
            self.albums = fetched;
        } else {
            self.albums.append(&mut fetched);
        }
    }

    /// The user asks for more results: the next page is asked for.
    pub fn load_more(&mut self)
        requires
            old(self).spec_page() < u32::MAX,
        ensures
            final(self).spec_query() == old(self).spec_query(),
            final(self).spec_page() == old(self).spec_page() + 1,
            final(self).spec_albums() == old(self).spec_albums(),
            final(self).model() == loaded_more(old(self).model()),
    {
        self.page = self.page + 1;
    }

    /// What stands under the results, given how the lookup of the current
    /// page stands: `None` while it is awaited, else its outcome (an error
    /// message or the page).
    pub fn status(&self, outcome: &Option<Result<SearchPage, String>>) -> (r: SearchStatus)
        ensures
            r == status_of(self.spec_query(), self.spec_page(), self.spec_albums().len(), *outcome),
            is_blank_text(self.spec_query()) ==> r == SearchStatus::Hidden,
            !is_blank_text(self.spec_query()) ==> match *outcome {
                None => if self.spec_albums().len() == 0 {
                    r == SearchStatus::Searching
                } else {
                    r == SearchStatus::Loading
                },
                Some(Err(e)) => r == SearchStatus::Failed(e),
                Some(Ok(p)) => if p.albums@.len() == 0 && self.spec_page() == 1 {
                    r == SearchStatus::NoResults
                } else {
                    r == SearchStatus::LoadMore
                },
            },
    {
        if is_blank(self.query.as_str()) {
            return SearchStatus::Hidden;
        }
        match outcome {
            None => {
                if self.albums.len() == 0 {
                    SearchStatus::Searching
                } else {
                    SearchStatus::Loading
                }
            },
            Some(Err(e)) => SearchStatus::Failed(e.clone()),
            Some(Ok(p)) => {
                if p.albums.len() == 0 && self.page == 1 {
                    SearchStatus::NoResults
                } else {
                    SearchStatus::LoadMore
                }
            },
        }
    }
}

/// What stands under the results for `query` on page `page` with `shown`
/// results listed, given the lookup's outcome.
pub open spec fn status_of(
    query: Seq<char>,
    page: u32,
    shown: nat,
    outcome: Option<Result<SearchPage, String>>,
) -> SearchStatus {
    if is_blank_text(query) {
        SearchStatus::Hidden
    } else {
        match outcome {
            None => if shown == 0 {
                SearchStatus::Searching
            } else {
                SearchStatus::Loading
            },
            Some(Err(e)) => SearchStatus::Failed(e),
            Some(Ok(p)) => if p.albums@.len() == 0 && page == 1 {
                SearchStatus::NoResults
            } else {
                SearchStatus::LoadMore
            },
        }
    }
}

/// A blank query shows neither results nor a status line, however its
/// lookup stands; any other query always shows a status line.
pub proof fn lemma_blank_query_hidden(
    query: Seq<char>,
    page: u32,
    shown: nat,
    outcome: Option<Result<SearchPage, String>>,
)
    ensures
        is_blank_text(query) <==> status_of(query, page, shown, outcome) == SearchStatus::Hidden,
{
}

/// The search page's state in the abstract: query, last page asked for,
/// and results gathered.
pub struct SearchModel {
    pub query: Seq<char>,
    pub page: u32,
    pub albums: Seq<SpotifyAlbum>,
}

/// The state after a page of results `fetched` arrives.
pub open spec fn received(m: SearchModel, fetched: Seq<SpotifyAlbum>) -> SearchModel {
    SearchModel { query: m.query, page: m.page, albums: after_page(m.page, m.albums, fetched) }
}

/// The state after the user asks for more results.
pub open spec fn loaded_more(m: SearchModel) -> SearchModel {
    SearchModel { query: m.query, page: (m.page + 1) as u32, albums: m.albums }
}

/// The state after receiving `pages` in order, asking for more before
/// each page after the first.
pub open spec fn scrolled(m: SearchModel, pages: Seq<Seq<SpotifyAlbum>>) -> SearchModel
    decreases pages.len(),
{
    if pages.len() == 0 {
        m
    } else if pages.len() == 1 {
        received(m, pages[0])
    } else {
        received(loaded_more(scrolled(m, pages.drop_last())), pages.last())
    }
}

/// Infinite scroll shows every page received since the query was set, in
/// order and once each: from the state a new query starts in (page 1, no
/// results), after `n` pages the list is their concatenation, page `n` was
/// the last asked for, and the query is unchanged.
pub proof fn lemma_scroll_collects_pages(m: SearchModel, pages: Seq<Seq<SpotifyAlbum>>)
    requires
        m.page == 1,
        m.albums.len() == 0,
        pages.len() <= u32::MAX,
    ensures
        scrolled(m, pages).albums == pages.flatten_alt(),
        scrolled(m, pages).query == m.query,
        pages.len() > 0 ==> scrolled(m, pages).page == pages.len(),
    decreases pages.len(),
{
    if pages.len() == 0 {
        assert(m.albums =~= Seq::<SpotifyAlbum>::empty());
    } else if pages.len() == 1 {
        assert(pages.drop_last() =~= Seq::<Seq<SpotifyAlbum>>::empty());
        assert(pages.drop_last().flatten_alt() =~= Seq::<SpotifyAlbum>::empty());
        assert(pages.flatten_alt() =~= pages[0]);
    } else {
        lemma_scroll_collects_pages(m, pages.drop_last());
    }
}

} // verus!
