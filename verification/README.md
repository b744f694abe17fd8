# guit

A small desktop front end for git. The library reads what git prints and keeps
the state of an open repository; the program around it draws the window and
runs git.

- `src/` is the library, written in Verus, every function with a contract:
  - `text`: decoding git's output, lines, words, trimming, searching.
  - `order`: the order of `String` (bytes, lexicographic), with its laws.
  - `parser`: changed paths, diff hunks, `git branch`, `git log`, numstat.
  - `common`: the values the views and requests use, and ordered branch sets.
  - `repo`: the log grouped by day, the diffs ordered by path, the branches
    read from the repository, and the state of an open repository.
  - `git`: the arguments of each git command and what each request runs.
  - `input`: how the list of changed paths and the commit and branch fields
    answer what the user does.
  - `config`: the recently opened repositories.
  - `log`: the program's own log.
  - `diff`, `action`: the first, smaller model of changed paths and requests.
- `app/` is the program: the window (eframe), the file dialogs (rfd), running
  git, reading the repository with git2, and the configuration file (serde).
- `tests/` runs the library on concrete inputs.
