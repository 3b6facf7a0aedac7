# zero_shell

A small interactive shell for Unix systems (`echo`, `cd`, `pwd`, `ls` with `-l -a -F`,
`cat`, `cp`, `mv`, `rm` with `-r`, `mkdir`, `exit`) whose decision logic is a
library verified with Verus.

- `src/` — the verified library:
  - `parse.rs`: splitting a command line into words with single and double quotes;
  - `shell.rs`: trimming an input line and naming the command it runs;
  - `paths.rs`: resolving paths against the current directory, last path component
    (Unix path rules only: `/` separates, a leading `/` makes a path absolute);
  - `commands.rs`: what `echo` prints, where `cd` goes, the paths of `cat`,
    `mkdir`, `rm`, the transfers of `cp`/`mv`, usage messages;
  - `listing.rs`, `order.rs`, `format.rs`: everything `ls` prints — option
    parsing, hidden entries, name order, permission strings, block counts,
    calendar dates and column layout;
  - `text.rs`: shared string helpers.
- `app/main.rs` — the read–eval loop and all file-system, terminal and
  environment access.
- `tests/` — tests of the library on concrete values.
