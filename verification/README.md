# termcopy

Restore a Codex TUI selection to the text it was rendered from.

Copying from a terminal gives text reconstructed from a rendered pane: wrapped at
the pane width, prefixed with gutters and indentation, without Markdown markers.
termcopy looks the selection up in the session transcript and returns the slice
of the transcript that it stands for. What it returns as verified is proved to
stand in the transcript, character by character.

## Layout

The library under `src/` is verified with Verus. Every function has a contract
over a mathematical model of its data: texts are sequences of characters, an
index is the sequence of grapheme clusters of its text, a transcript is a sequence
of blocks.

| Module | Responsibility |
| --- | --- |
| `text`, `bytes`, `lists` | Character classes, trimming, lines, UTF-8, lists without repeats |
| `segment` | Grapheme clusters |
| `normalize` | The dense view of a text and the map back to its bytes |
| `search` | Every place where a needle stands in a dense form |
| `align` | Locating a selection in a transcript: exact, trimmed, anchored |
| `json`, `record` | JSON values, and the texts inside transcript records |
| `codex` | Reading rollout files into blocks |
| `sessions` | Choosing among the rollout files of the Codex home directory |
| `herdr` | Ranking the sessions of panes |
| `heuristic` | Tidying a selection that was not found |
| `clipboard` | Base64 and the OSC 52 escape sequence |
| `automatic`, `watcher` | Deciding when a copy is restored automatically |
| `restore` | The one-off pipeline |

Proof functions whose names begin with `law_` state what holds of the library as a
whole: that a match is part of the transcript, that the last occurrence wins, that
no block is read twice, that every automatic write was earned, that Base64 reads
back, and so on.

The program under `app/` is ordinary Rust around the library: arguments, files, the
clipboard, processes. It performs what the library asks for and hands back what
came of it.

## What is trusted

A few outside functions are called behind contracts that are believed, not
proved: grapheme segmentation (`unicode-segmentation`), substring search
(`memchr`), JSON parsing (`serde_json`), and three functions of the standard
library (`String::push`, `str::from_utf8`, `str::to_lowercase`). Each contract
stands beside its call with a comment that says what it claims.

## Usage

```console
$ termcopy [OPTIONS]
$ termcopy run codex
```

Exit codes of the one-off mode:

| Code | Meaning |
| --- | --- |
| `0` | Matched against a transcript; the result is verified against stored text |
| `2` | No match; the result was not verified against a transcript |
| `1` | Error |
