# wca_scorecards_lib

Scorecards for WCA competitions, as a Verus-verified library with a small
command-line program around it.

- `src/` — the verified library:
  - `text.rs`: characters, splitting, lines, decimal numbers (parsing and printing);
  - `language.rs`: the words printed on scorecards and language files;
  - `pdf/csv.rs`: the groups and time-limit CSV files of a first round;
  - `pdf/mod.rs`: seating the competitors of a later round in groups;
  - `pdf/scorecard.rs`: scorecards, time limits, their printed texts, their order
    and their layout on pages of six;
  - `wcif/`: rounds, advancement and time limits from a WCIF document, and the
    answers of the WCA website;
  - `localhost/`: the download page and its round requests.
- `app/` — the program: reading files, the local web server, the WCA website,
  JSON, fonts and PDF drawing.
- `tests/` — tests of the library.
