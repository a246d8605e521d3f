# pk2

Reading and writing Silkroad Online's pk2 archives, with the format logic verified by Verus.

- `src/` is the verified library: byte-level encoding (`bytes`, `parse`), the salted Blowfish
  cipher (`blowfish`), timestamps (`filetime`), the on-disk format (`format`: header, entries,
  blocks and block chains, the chain index and its incremental parser, paths), the writes that
  keep a stream in step with the index (`io`), what a stream holds after those writes
  (`stream`), the archive operations (`archive`: opening, creating and deleting entries) and the
  decisions of file handles (`file_handle`) and the order of a directory listing
  (`listing`).
- `app/` is the archive handle over a stream (`Pk2`, files and directories) and the command
  line tool built on it.
- `tests/` exercises the library on concrete archives built in memory.
