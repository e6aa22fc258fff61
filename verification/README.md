# nxpch

A library for patches to the programs of a game console. Patch sources are read, for each of the
builds that they make, into code; code becomes a patch, a map from addresses to bytes; and patches
are written as patch text files or IPS files, or laid out in an archive.

- `src/` holds the library. Its functions state what they return, and Verus proves it of all of
  them but the few that call another crate. The functions whose names start with `law_` state what
  holds of several functions taken together.
- `tests/` runs the library on given values.
- `app/` is the command line program: arguments, files, the assembler and the archive writer.

Calls into other crates stand behind small functions marked `external_body`. Their contracts are
not proved but taken as they are stated; a comment above each says what it claims.
