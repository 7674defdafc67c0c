# tailfall

`tailfall` follows new data in all matching files, including files that appear
after the command starts. It is useful for watching a directory where log files
are created or rotated over time.

```sh
tailfall '*.log'
tailfall 'logs/*.log'
tailfall .
tailfall
```

Quote glob patterns so the shell does not expand them before `tailfall` sees
them.

Files that exist during the initial scan start at their current end. A file
discovered later is read from its beginning. File truncation and replacement
are detected and followed correctly. A directory operand watches only its
direct regular files; use an explicit recursive glob such as `**/*.log` to
watch nested directories.

Filename headers are printed by default, similar to multi-file `tail`:

```text
==> /var/log/application.log <==
new log data
```

Use `--no-headers` when the output is being consumed as a raw byte stream.
Unreadable files and directories are skipped silently; use `--verbose` to report
filesystem errors while continuing to follow the other matches. Stop the command
with Ctrl-C.

## Layout

`src/` is a library, verified with Verus. It performs no system call: walks and
passes say what to do next and are told what came of it.

| Module | What it holds |
| --- | --- |
| `path`, `order`, `table` | Unix paths by component, their order, and maps under them |
| `text`, `glob` | the calls into the standard library and `globset` that are trusted |
| `prefix`, `watch` | what an operand means: the root, the pattern, how deep to look |
| `walk`, `tree` | the walk through directories, and what it finds in a tree |
| `follow`, `engine` | where a file is read from, headers, and the passes over files |
| `passes`, `rounds` | what events and whole passes write and leave behind |
| `event`, `schedule` | which events call for a pass, and when passes are made |
| `error`, `report` | errors, and what is told about files that cannot be read |

`app/` is the program: arguments, the file system watcher, files and output.
Paths are those of Unix.
