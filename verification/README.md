# rust_downloader

A resumable, chunked HTTP downloader that can also search Thenkiri for a title
and collect the download links of its episodes.

- `src/` is the verified library:
  - `episodes` finds episode numbers in links, parses episode-range answers,
    numbers, sorts and selects episode links;
  - `nkiri` builds the search URL, reads search hits, host links, download
    buttons and forms from pages, resolves redirects and confirmation pages, and
    steps through form submissions;
  - `chunks`, `meta`, `headers`, `tuning` cut a download into chunks, keep the
    resumable record, read file sizes from response headers and size the worker
    pool;
  - `links`, `text`, `urls`, `html` hold the link set, character helpers and the
    calls into `url`, `urlencoding` and `scraper`.
- `app/` is the command-line program: argument parsing, HTTP requests, prompts,
  progress bars, threads, files and the JSON form of the resumable record.
- `tests/` exercise the library on concrete inputs.
