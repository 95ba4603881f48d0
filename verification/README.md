# Playrite

A terminal writing desk for character-driven stories, with a standalone HTML reader.
Stories are written in small, movable blocks (narration, dialogue, action, thought,
quotation, scene headings, scene breaks and private notes), saved in a compact binary
`.playrite` format, and exported to a single self-contained HTML page.

## Layout

The library under `src/` is written in Verus and verified against its contracts, except
for a few small trusted functions that call outside code: `String::push`,
`str::from_utf8`, `Path::with_extension`, and the grapheme and display-width functions of
`unicode-segmentation` and `unicode-width`. Verus believes their contracts, which say
what the outside code's documentation and source promise, without proof.

| Module | What it holds |
| --- | --- |
| `text` | Character-level helpers: whitespace, UTF-8 byte lengths, trimming, decimals |
| `story` | The manuscript model, validation, word counts and the sample story |
| `format` | The binary manuscript format: encoding, decoding, and its round-trip laws |
| `export` | The inline formatting language and the HTML page |
| `keys` | Keyboard input as the editor reads it |
| `editor` | The text field: grapheme-aware editing, sanitised paste, soft wrapping |
| `document` | An open manuscript: when to write it, and when a save must be refused |
| `app` | The session state machine: outline, writing pane, dialogs, undo history |
| `view` | What the screen shows, apart from drawing it |

The program under `app/` is ordinary Rust around the library: command-line handling,
the terminal loop (crossterm), drawing (ratatui), file reading and atomic writing
(tempfile), and reading legacy JSON manuscripts (serde).

## Run

```sh
playrite my-story.playrite
playrite demo
playrite export my-story.playrite -o my-story.html
```
