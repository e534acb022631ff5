# blaze

A small version-control tool: line diff, three-way merge, a content-addressed
key-value store and commit bookkeeping. The library in `src/` is verified with
Verus; `app/` is the command-line program around it (argument parsing, files,
the terminal).

## Library modules

- `lcs`: longest common subsequence of two sequences (dynamic programming over
  an `array2d` table, declared in `table`), proved longest.
- `diff`: the diff of two files as maximal runs of equal, deleted and inserted
  lines; proved to be an edit of the first file into the second.
- `merge`: three-way merge of two versions against their common original, with
  conflicts where both sides change the same line; proved symmetric in the two
  versions, and equal to the changed version when the other is unchanged and
  the change only inserts or only deletes lines.
- `render`: the text the `diff` and `merge` commands print.
- `text`: a file's text split into lines.
- `key`: content keys, the lower-case hex SHA-256 digest of a payload.
- `kv`: the on-disk layout of the key-value store and the steps of a `put`,
  with a model of the file system on which a `get` reads what a `put` wrote.
- `commit`, `partition`: commits, their names (hex SHA-512) and the commit
  graph entries that linking a commit writes.
- `vfs`, `command`, `cli`: repository paths, the commands as data, and the
  decisions they make on what the program has read.
