# changelint

Validates a `CHANGELOG.md` against the [Keep a Changelog](https://keepachangelog.com/)
format, and scaffolds a fresh skeleton from git tags. The library is written in
Verus: every function of `src/` carries a contract, and the rules are proved.

## Layout

- `src/text.rs` — characters: whitespace trimming, prefixes, searching, splitting,
  decimal numbers, building strings.
- `src/semver.rs` — SemVer 2.0.0 parsing (core numbers without leading zeros,
  valid pre-release identifiers, one leading `v` and `+build` metadata dropped)
  and §11 precedence, with the laws that make precedence a total order.
- `src/date.rs` — strict `YYYY-MM-DD` calendar dates (ASCII digits only), leap
  years included; dates are ordered as their texts are.
- `src/changelog.rs` — the line-based reading of a changelog into title, release
  sections, categories, bullet items, link references and malformed headings.
- `src/validate.rs` — the lint rules, their exact report, and the laws that each
  violation is reported at its line.
- `src/generate.rs` — the stable newest-first sort of tags (whose order is
  unique, so sorting twice changes nothing) and the skeleton text.
- `src/git.rs` — reading the `tag|date` listing that `git for-each-ref` prints,
  split at the last `|` of each line, since a tag name may hold one.
- `src/roundtrip.rs` — a skeleton reads back as the releases it was made from,
  and the skeleton of consistent tags, in any order, lints with one
  missing-link warning per tag and no error.
- `app/main.rs` — the command line: file and `git` I/O around the library.

## Usage

```bash
changelint                          # lint ./CHANGELOG.md
changelint lint path/to/CHANGELOG.md
changelint scaffold                 # print a skeleton built from `git tag` history
changelint scaffold -o CHANGELOG.md # write it to a file
```

Exit code `0` means no errors (warnings are printed but do not fail the run);
`1` means at least one error; `2` means the file could not be read or `git`
failed.
