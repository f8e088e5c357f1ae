# assetcanon

Cleaning and validation of domain and asset lists, with the rules verified in Verus.

Dirty input (URLs, host names, addresses, JSON, certificate names) is searched for
candidates. Each candidate is normalized and classified as an apex, a subdomain, a
wildcard, an address or garbage. Assets are deduplicated, held against scope rules, and
validated by DNS with wildcard detection.

## Layout

- `src/` is the library. Every function states what it returns, and Verus proves it.
  - `text`, `numbers`, `big`, `lists`, `order`: characters, digits, whole numbers of any
    size, lists and sorting.
  - `ip`: addresses and socket addresses, read and written.
  - `model`: the asset record.
  - `extract`, `normalize`, `psl`, `classify`, `dedupe`, `scope`, `pipeline`: the stages.
  - `cdn`: CDN ranges and CNAME targets.
  - `dns`: what is asked, what answers mean, and the state of a validation run.
  - `options`, `output`: configurations from options, and what is shown.
- `app/` is the program: arguments, files, DNS traffic and JSON.
- `tests/` runs the library.

Calls into other crates stand behind small functions marked
`#[verifier::external_body]`; the comment above each says what is taken on trust.

## Data files

The program reads `public_suffix_list.dat` and `cdn_ranges.txt` from the directory
`ASSETCANON_DATA`, or else from `assets`. The first is the Mozilla Public Suffix List. The
second has one provider (`cloudflare`, `fastly` or `github_pages`) and one CIDR block per
line.
