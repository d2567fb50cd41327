# webfuzzy

A web security testing tool for HTTP endpoints. It sends a request with payload
after payload in place of a marked value, clusters the responses, and reports
the outliers.

```
webfuzzy --url 'https://target/api/v1/get?id=§1§'
```

The value between two markers (`§`) is the original one. The baseline sends it
as it is; fuzzing replaces the whole span with the payload.

## Layout

- `src/` is the library, verified with Verus. It decides what is sent, what is
  recorded, which clusters are reported and what is printed.
  - `marker`, `spans_in_text`: payload spans in bytes and in text
  - `encoding`, `http_client`: request targets, headers, requests, responses
  - `cli`: arguments and run configuration
  - `baseline`, `fuzzing`: the two stages of a run
  - `grouping`, `feature_rows`, `families`, `clustering`: from responses to
    clusters
  - `independence`: status codes do not influence each other's clusters
  - `observations`, `reporting`, `logging`: what is told of a run
  - `text`, `numbers`, `positions`, `ranking`, `status`, `wordlist`: building
    blocks
- `app/` is the program around it: the command line, the HTTP client, files,
  and everything in floating point (scaling, regression, DBSCAN).
- `tests/` run the library from outside.

## Wordlists

The program reads `wordlists/CrazyDoIsDiscountFuzzList.txt` unless a wordlist is
named with `-w`, and the listed content types from
`wordlists/content_types.txt`. Both hold one entry per line.
