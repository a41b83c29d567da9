# rust_playground

A small collection of programs whose logic lives in a library verified with
Verus, and whose system calls live in a thin program around it.

- `src/islands.rs`: counting islands of `1` cells in a grid given row by row;
  proved to add up across a row of water and to be unchanged when every row
  is reversed.
- `src/fences.rs`: the fence-painting puzzle: merging painted sections and
  listing the unpainted ones, with a trace of the merged blocks.  For a
  fence of positive length whose blocks are nonempty sections within it, the
  answers are proved to list exactly the maximal unpainted sections, or to
  report that all is painted.
- `src/text.rs`: reading `i32` numbers, trimming white space, splitting on
  spaces, substring search.
- `src/buffers.rs`: byte-buffer growth, UTF-16 encoding, Win32 error codes.
- `src/paths.rs`: a zero-terminated wide path buffer that names are appended
  to and taken off again (proved to restore the path), wide-string decoding
  of paths.
- `src/walk.rs`: the bookkeeping of a directory walk; every directory's
  totals are proved to be its own files plus its finished subdirectories'
  totals, and directories finish after their subdirectories.
- `src/file_stats.rs`: directory size statistics, byte-count formatting,
  ordering directories by size.
- `src/devices.rs`: decisions for switching a device on or off and for
  reacting to power events.
- `src/record_regex.rs`: recognising record lines with the `regex` crate.

`app/` holds the programs: the fence puzzle on standard input, the directory
walker, the power listener, the device query and watcher, the Windows
service, and the functions exported over the C ABI. The Windows parts call
the `windows` and `windows-service` crates and run on Windows only.
