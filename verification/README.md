# Scallion Vocab

A vocabulary trainer compatible with Anki decks: a library of decks and
folders, imports from Anki packages, Anki text exports and Quizlet links, and
multiple-choice quizzes with spaced review scheduled by FSRS.

## Layout

- `src/` — the library, verified with Verus:
  - `text.rs` — trimming, replacing, splitting and parsing text, over `Seq<char>`;
  - `model.rs` — words, FSRS grades, cards and settings;
  - `quiz.rs` — the quiz session: what is asked next, the options shown, answers,
    skips, grades and the review queue;
  - `import.rs` — Anki text and notes, Quizlet links, recent links, fetched cards;
  - `apkg.rs` — finding the collection inside an Anki package (a zip archive);
  - `library.rs` — deck colours, dates, names, tags, folder paths;
  - `arrange.rs` — how the library lists its items and groups search results;
  - `selection.rs` — choosing the words of an exam;
  - `session.rs` — versions and updates, themes, exam records, settings;
  - `logging.rs` — the log switch and levels.
- `app/` — the command-line program around it: the SQLite database, reading
  files, the log output, and the FSRS scheduler (which computes in floating point).
- `tests/` — tests of the library.
