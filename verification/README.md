# Season Centralizer

This addon sits in front of the MAL, AniList, and Kitsu metadata addons and presents split seasons
as one centralized show. `Attack on Titan`, `Attack on Titan Season 2` and `Attack on Titan 3rd
Season` become one `Attack on Titan` with all seasons attached; opening it fetches every season and
merges them into one show with season-numbered episodes.

- `src/` is the library. It is written in Verus. Its functions are verified against the contracts in
  their headers, but for the small wrappers around `base64`, `chrono`, `regex`, `serde_json`,
  `urlencoding` and the standard library: these are marked `external_body`, and their contracts are
  trusted. Laws that span several functions are the public proof functions whose
  names start with `law_`.
- `app/` is the HTTP service around it: routes, requests to upstream catalogues, settings.
- `tests/` runs the library on concrete documents.

| module | what it holds |
| --- | --- |
| `text`, `decimal`, `dates` | texts, whole numbers, calendar dates |
| `json`, `json_text` | JSON documents, and their compact text |
| `titles`, `queries` | titles of shows and seasons, and what to search for |
| `ordering`, `seasons` | stable sorting, the order and the numbers of seasons |
| `combine`, `fill` | one show out of many seasons, dates and pictures of its episodes |
| `previews`, `refs`, `tokens`, `models` | lists of shows, and the identifiers that carry their seasons |
| `discovery`, `tvmaze` | more seasons, other sources, and pictures from TVMaze |
| `service`, `upstream` | what the service says, and where it asks |

The service listens on `PORT` (8790 unless it is set). It asks the addresses in
`TYPENX_SEASON_SOURCES`, a list separated by commas, by default `http://127.0.0.1:8787`,
`http://127.0.0.1:8788` and `http://127.0.0.1:8789`. `TYPENX_TVMAZE_EPISODE_IMAGES` set to `0`,
`false` or `no` keeps it from asking TVMaze for pictures.
