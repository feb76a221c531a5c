# gimli

A reader of DWARF debugging information, written and proved in Verus. It parses
the `.debug_info` and `.debug_abbrev` sections that its caller hands it as byte
slices; it loads no files.

## Layout

- `src/error.rs`: the ways in which parsing can fail, and what it means for a
  parser to agree with its specification.
- `src/endianity.rs`: byte orders, over the `byteorder` crate.
- `src/leb.rs`: LEB128 integers, over the `leb128` crate.
- `src/reader.rs`: buffers with a byte order, plain integers, runs of bytes.
- `src/constants.rs`: the constants of the format that the parser knows.
- `src/unit.rs`: the headers of compilation units and type units.
- `src/info.rs`: the `.debug_info` section and its units.
- `src/abbrev.rs`: abbreviations and the `.debug_abbrev` section.
- `src/attribute.rs`: the values of attributes, in all forms of DWARF 4.
- `src/entry.rs`: entries and iterating over their attributes.
- `src/cursor.rs`: moving through the tree of a unit's entries.
- `src/tree.rs`: that tree, and what moving through it comes to.
- `app/`: the traits of the standard library around the parser.

## How it is specified

What a parser does is a function from the bytes to an `Outcome`: a value and the
number of bytes that it takes up, or an error. These functions, most of which
have names that end in `_at`, are what the contracts speak of. The laws of the library, functions
whose names start with `law_`, are proved of them: that the units of a section
fill it, that an attribute is as large as its form says, that moving a cursor in
depth first order visits a whole tree, that the next sibling is what follows
everything below an entry.

The calls into `byteorder` and `leb128` are trusted. Each stands in a function of
its own, whose contract says what is believed of it.
