# git_starter_rust

A small git: `init`, `cat-file -p`, `hash-object -w` and `ls-tree`, with the
object formats, hashing and tree handling proved with Verus.

- `src/` is the verified library.
  - `git_object_utils`: reading a stored object back (`blob <size>\0<data>`),
    hashing content, preparing a blob for the object database.
  - `entry`: tree entries, reading a tree, sorting entries by name, writing a
    tree, modes.
  - `utils`: decoding a stored object as text; where an object is stored.
  - `backup_files`: a text tree writer whose lines are kept in a map ordered
    by file name.
  - `text`, `order`: numerals, hexadecimal, searching, and the byte order of
    strings.
  - `codec`: the calls into `ring` (SHA-256), `flate2` (zlib) and
    `String::from_utf8`, whose contracts are trusted.
- `app/` is the command-line program: argument parsing and all file access.
- `tests/` runs the library on concrete values.
