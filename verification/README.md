# bookmark_launcher

A keyboard-driven bookmark and application launcher whose search understands
romaji queries against Japanese titles ("gen" finds 言, "puro" finds プロ), and
a shell completion helper that ranks directory entries the same way.

The library in `src/` is written in Verus and verified:

- `romaji`, `mora_table`: kana to romaji morae, and romaji queries to morae.
- `skk`, `dictionary`: the SKK-JISYO dictionary (EUC-JP text, okuri-nasi
  section, first-seen reading per word), parsed into a map or loaded from the
  compiled format.
- `compiled`, `fst_map`: the compiled dictionary format (a length header, an
  FST from word bytes to packed blob ranges, a blob of comma-joined mora
  lists) and the trusted interface to the `fst` crate.
- `searcher`: the romaji-mora index and its search, highlighting and scoring.
- `complete`: token splitting, candidate ranking and the command line of the
  completion helper.
- `launcher`: entries, the bookmark list, fuzzy, migemo and combined search.
- `tui`: what each key press does in the terminal front end.
- `text`: char-level string helpers.

`app/` holds the program around it: file storage in TOML, the terminal front
end, network fetches of page titles, opening URLs and applications, and the
`complete` subcommand.
