# pe-sigscan

Byte-pattern ("signature") scanning over the sections of a loaded PE (Portable Executable)
module, and over plain slices, verified with Verus.

A pattern is a sequence of bytes and wildcards. It is parsed from text such as
`48 8B 05 ?? ?? ?? ?? 48 89 41 08`, where each token is two hex digits or one of `?` and `??`, or
made of a list of slots. The scanners find the first match, count the matches, or iterate over
them; matches that are counted or iterated over do not overlap. A pattern that is counted once
matches at one place alone, which is what to check before patching what it finds.

## Layout

- `src/` is the library.
  - `matching` says what a match is, and `hits` which addresses a scan gives: the contracts of the
    scanners are stated over them, and the laws that relate finding, counting and iterating are
    proved there.
  - `scan` and `iter` hold the scanners, of a mapped module, of its sections mapped one by one, and
    of slices; `fastscan` the search for a single byte that they lean on.
  - `pe` walks PE headers, through a mapped region or any other `MemoryReader`.
  - `memory` holds the mapped region, `endian` little-endian integers, `instr` the resolution of
    32-bit displacements, `pattern` and `error` the patterns and their textual form.
- `app/` offers the scanners on bare addresses of the running process, the `pattern!` macro, and
  iterators and errors with the traits of the standard library.
- `tests/` holds the tests.

## What is trusted

- `memchr::memchr` finds the first occurrence of a byte.
- A slice ends inside the address space.
- A `MemoryReader` whose code is not verified gives the same answer to the same request.

Everything else in `src/` is proved.
