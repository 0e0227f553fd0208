# qoder-statusline

The status line of a coding session: a program that reads a JSON document from standard input
and prints two lines of text, and a library, verified with Verus, that does the work behind it.

```text
[INSERT] | dfmodel | 1M ctx ▓▓▓▓░░░░░░ 37% | 额度: 820/1000
D:\code\demo | +12/-3 lines | branch: main
```

The branch is read from the files under `.git`, without running git. Where a commit is checked
out, the tag that stands for it is shown, or else its first seven digits.

## Layout

- `src/` is the library.
  - The lines: `status` (what is shown), `fields` and `json` (the document), `home` (paths with
    `~`), `text`.
  - The repository: `refs` (`.git`, `HEAD`), `tags` and `packed_refs` (references), `search` (the
    tag of a commit, step by step), `object`, `hex`, `index`, `scan` and `pack` (where objects
    stand and what they name).
  - The decoder of zlib streams: `inflate`, `block`, `tables`, `huffman`, `bits`, `adler`,
    `bytes`. `limits` states what limits and cut-off data do, `roundtrip` and `codes` that what
    is written is read back.
- `app/` reads the files, computes with floating point, and prints.
- `tests/` runs the library.

The library trusts `serde_json` for JSON, and the standard library for UTF-8 and for appending to
a `String`; the items that say so stand in `json`, `object` and `text`.
