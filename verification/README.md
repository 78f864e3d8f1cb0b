# duplicant

Finds lines of text that are similar to each other and writes, in a compact binary form, where they
are.

`src/` is the library. It is verified with Verus, on the trust that is listed below:

* `text` and `scan` decide which lines of a file are compared, and in which form;
* `files` keeps each file that was found once;
* `setup` decides where the output goes, and whether a run can start;
* `pool` keeps the account of a pool of worker threads and plans its end;
* `progress` tells how far a run has come;
* `corpus` holds the lines of all files and compares a line with all others;
* `report` groups similar lines by file;
* `encoding` writes a report as bytes, and `layout` proves where a reader finds what.

`app/` is the program around it: the command line, the file system, threads and channels, and the
score of two lines, which is a floating point number.

## What is trusted

Verus believes these nine items without proof:

* `cpu_count` in `pool`: `num_cpus::get` returns at least 1;
* `format_duration` in `progress`: `humantime::format_duration` writes a text that depends on the
  duration alone, which has the name `duration_text`;
* `sha1_digest` in `encoding`: `sha1::Sha1` gives a digest that depends on the data alone, which has
  the name `sha1_of`;
* `write_u32` and `write_u64` in `encoding`: `byteorder` appends the bytes of a number to a vector,
  the lowest first;
* `char::is_whitespace` and `String::push` of std, in `text`.
