# pokergoat-solver

The command line around a postflop solver engine: it reads a job, has the engine solve the game and
writes the solution as blobs, one per street and card, with a manifest beside them.

`src/` is the verified library. It holds every decision and every byte of the format; no function of
it reads a file, a clock or the engine. `app/` is the program: arguments, JSON, files, and the calls
into the engine, whose answers it hands to the library as plain values. `tests/` runs the library.

Numbers of the engine and of jobs are IEEE 754 numbers. The library carries them as bit patterns
(`ieee`), and does with them in integer arithmetic what hardware would do, proved against exact
rounding (`rounding`, `arith`, `difference`, `signed`, `sums`).

| module | what it holds |
|---|---|
| `cards`, `text`, `range`, `range_laws`, `weights` | card codes, combos, boards, range notation, how much a range weighs |
| `config`, `cli`, `sizes`, `plan`, `job` | jobs and flags, what is wrong with them, what the engine is given, the blob header |
| `tree`, `suit_laws`, `count` | suit isomorphism, node counts |
| `strategy`, `apportion`, `ev` | strategies as bytes, EVs as sixteen-bit numbers |
| `blob`, `le`, `blob_laws` | the blob format, writing and reading |
| `solution`, `export`, `files`, `packing`, `export_laws`, `deal_laws`, `walk_laws` | from a solved game to files |
| `solve` | when to iterate, measure and stop |
| `validate` | the toy game whose solution is known |

Functions whose names start with `law_` state what holds across functions: that reading gives back
what was written, that a hand's units are 255, that a card leads where its stand-in does, and so on.

Trusted are the brotli encoder and decoder (`packing`) and `String::push` (`text`).
