# chonk

A subtractive synthesizer. This is its control logic, written in Verus and
proved, with the program that plays it around it.

## The library (`src/`)

| Module | What it holds |
| --- | --- |
| `ieee754` | comparing and rounding single-precision numbers by their bit patterns |
| `params` | the parameter table, the current values and stored patches |
| `factory` | the patches that come with the synthesizer, and how they are installed |
| `names`, `listing` | safe patch names, patch files, sorted lists of patches |
| `queue` | the bounded queue of note events |
| `chords`, `arpeggio`, `performance` | from keys to notes |
| `noise`, `synth` | noise, envelopes, and which voice plays which note |
| `history` | the session log |
| `ipc`, `web` | what the desktop and the web version do with a request |

Numbers that are not whole are held as bit patterns (`u32`): the library decides
by them and never computes with them. Requests that need the disk come in two
parts. `handle_msg` says what to read or write, and a `finish` function turns
what came of it into the answer.

The contracts are stated over mathematical models: `PerfState` for the
performer, `LogState` for the logger, `AppView` for the whole synthesizer. The
`lemma_` functions that are public say what holds across operations.

What is taken on trust is small: the queue of `crossbeam-queue` (new, push, pop),
and of the standard library the equality of strings, `String::push`,
`char::is_alphanumeric` and `str::to_lowercase`.

## The program (`app/`)

Sound, files, sockets and threads, and everything that computes with samples.
What is played, stored, answered and logged is decided by the library.
