# barometre_prix_web_fr

A verified library for the price observations of the Baromètre des prix de
création de site web en France. The crate holds no data: it parses the
dataset's CSV text that it is given, and `app/` reads that text from the
dataset file.

- `src/` (Verus): parsing of CSV text into `PriceRecord`s (`all`,
  `parse_row`), selection by category or provider type (`by_category`,
  `by_provider_type`) and the sorted, duplicate-free lists of categories and
  provider types (`categories`, `provider_types`), each with a contract over
  character sequences, and laws that relate them (`src/query.rs`). The text
  handling they rest on (splitting, lines, trimming, joining, string order) is
  proved against spec functions written to describe what `str`'s `split`,
  `lines`, `trim`, `join`, `starts_with` and ordering do; that these spec
  functions agree with std is not proved, and is checked only at run time by
  the tests in `tests/parsing.rs`, which compare the results with std's.
- `app/`: reading the dataset file, turning the price text into `f64`, the
  floating-point statistics (`stats`), and the queries over the dataset file.
- `tests/`: the tests, on sample CSV text.
