# zhis

A shell history store for zsh. It records every command with its working
directory, exit status and duration, and answers the queries of an fzf picker.

The library in `src/` holds the logic and is verified with Verus: every function
states what it returns or changes, and Verus proves it.

| module     | what it is about                                                     |
| ---------- | -------------------------------------------------------------------- |
| `text`     | numbers, splitting, trimming and padding of text                     |
| `json`     | the JSON records of the stores, read and written value by value      |
| `entry`    | entries, rows, queries, errors, and the line that stores an entry    |
| `ids`      | the IDs of stored entries                                            |
| `scan`     | lines of a file, counted from either end                             |
| `order`    | newest first                                                         |
| `rows`     | the rows of a history, their order, and the folding of repeats       |
| `query`    | what a picker asks for, read back from the end of the file           |
| `store`    | appending, finding and deleting entries, and the sequence counter    |
| `inflight` | commands that have started but not finished                          |
| `import`   | zsh histories and newline-delimited JSON                             |
| `render`   | rows, ages, durations and previews                                   |
| `cli`      | flags and exits                                                      |
| `commands` | what the commands are asked for and what they print                  |

Functions whose names start with `law_` state what holds of the library as a
whole: that IDs find their entries through any appends and deletes, that an
appended entry gets a number that no other row has, that a limited answer is the
start of the unlimited one where the history is in time order, that folding loses
no row, that ending a command takes just its own row away.

The library works on bytes and text in memory. The program in `app/` reads and
writes the files, takes the locks and asks the system which processes are alive.
It reads only the end of a history where the library says that this is enough.

Values of JSON are read and written by `serde_json`, column widths come from
`unicode-width`, and paths and the decoding of UTF-8 are left to the standard
library; the doc comments of the functions that call them say what is taken on
trust.
