# taurus

A desktop player for zipped static sites and web archives (WACZ / WARC),
with its logic verified by Verus.

- `src/` — the verified library:
  - `text` — character-level specifications (trimming, splitting, search,
    case, decimal numbers) and their executable versions;
  - `uri` — which archive URLs are web pages, their origins, and the path
    under the site at which a record is stored;
  - `http` — the status, `Content-Type` and payload of archived responses;
  - `warc` — the WARC record stream and what a site is built from; the
    stream can be read in pieces, each record decided as soon as its bytes
    are in, so that at most one record is held in memory;
  - `rewrite` — offline rewriting of pages (origins, figure URLs) and the
    set of archived origins;
  - `order` — natural ordering of page names and the index page;
  - `pack` — pack names, the choice of archive and site root, and how the
    local server answers requests.
- `tests/` — tests of the library.
- `app/` — the desktop shell (Tauri), file and network I/O.
