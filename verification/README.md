# musicboxd

The verified core of Musicboxd, a web application for searching albums on
Spotify and browsing their track lists.

- `src/` is the library, written in Verus:
  - `text.rs`: decimal numbers, track durations, release years, artist
    lists, blank-query detection (Unicode white space) and the encoding of
    a search query in a URL, with proofs that the encoding is injective and
    never yields `&`, `#` or a space.
  - `model.rs`: albums, tracks, album details and pages of search results.
  - `display.rs`: what the pages show of an album and of each track.
  - `search.rs`: the search page's state (query, page, gathered results),
    its status line and the form's destination, with a proof that infinite
    scrolling lists every received page once, in order.
  - `rate_limit.rs`: the per-address sliding-window rate limiter, with
    proofs that no span of one window admits more than the limit, that
    addresses are independent over whole request sequences, that a zero
    limit refuses everything, and of what the store keeps per address.
  - `server.rs`: the base-URL check and the choice of a cover image source.
- `tests/` runs the library on concrete values.
- `app/` is the server and the leptos pages around the library.
