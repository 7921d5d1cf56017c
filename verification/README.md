# logquery

SQL-like queries over structured log lines: JSON Lines, logfmt, and plain text
read with a pattern. The library is written in Verus, and every function of it is
proved to do what its contract says.

```console
$ logquery 'select level, count(*) as n group by level order by n desc' app.log
level  n
-----  -
info   7
error  4
warn   2
```

## Layout

`src/` is the library.

| Module | What it holds |
| --- | --- |
| `text`, `decimal`, `big`, `num` | characters, digits, large naturals, and 64-bit binary floating point numbers as bit patterns |
| `value`, `json` | values, records, and their JSON text |
| `timeutil` | durations, dates, RFC 3339 timestamps, zones |
| `lexer`, `ast`, `parser` | from the text of a query to the query |
| `record` | log lines, and paths into what they hold |
| `pattern_syntax`, `pattern` | patterns for plain text: reading them, and matching with them |
| `like` | the `like` operator |
| `eval` | expressions, functions, and the rules of coercion |
| `group`, `arrange`, `engine` | folding, sorting, and running a query |
| `output` | tables, JSON Lines, CSV and Markdown |
| `stream` | from bytes to lines to rows, and following a file that grows |
| `args` | the command line |

The contract of a function speaks of a model: a record is a sequence of named
trees, a number is the rational that its bits stand for, a query is the tree that
its tokens describe. A record that the library makes is sound: no name stands
twice in it, nor in any object within it, which `sound_laws` follows from the log
line to the row. What holds of several functions together is stated by the
proof functions whose names begin with `law_`, next to what they speak of or in
the modules whose names end in `_laws`.

`app/` is the program: arguments, files, and the terminal. `tests/` runs the
library on examples.

## What is taken on trust

- `serde_json` reads a document from text, opens it one level at a time, and
  quotes a string.
- The standard library says which characters are letters and what their other
  case is, appends a character to a string, decodes UTF-8, and reads the clock.

Each of these is declared in `text`, `json`, `stream` or `timeutil`, with what is
claimed of it.
