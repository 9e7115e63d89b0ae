# newtua_stuffit

Verified decoders for the StuffIt family of Macintosh archives: the classic container
(`.sit`), StuffIt 5 and its self-extracting form, and StuffItX (`.sitx`).

The library under `src/` reads archives from memory. Each function states in its
contract exactly what it returns, as a function of the bytes it is given, and Verus
proves that it does and that it cannot panic or overflow.

| Module | What it holds |
| --- | --- |
| `stuffit`, `sit5`, `sitx` | the three containers: recognising, cataloguing, extracting |
| `catalog`, `methods` | what the first two have in common |
| `stuffit5`, `stuffit13`, `stuffit15` | compression methods 5 (LZ with an adaptive tree), 13 (LZ with prefix codes) and 15 (block sorting) |
| `rle90`, `compress`, `huffman` | methods 1, 2 and 3 |
| `sitx::elements`, `sitx::nodes`, `sitx::stream` | the parts of a StuffItX archive: elements, the catalog, streams |
| `sitx::p2` | its bit-level fields |
| `sitx::brimstone`, `sitx::ppmd` | context modelling |
| `sitx::cyanide`, `sitx::iron`, `sitx::bwt` | block sorting |
| `sitx::darkhorse`, `sitx::blend` | LZ with a range coder, and mixed streams |
| `sitx::x86`, `sitx::english` | preprocessors |
| `sitx::rangecoder` | the range coder under most of these |
| `bits`, `prefix_code`, `lzss`, `checksum`, `rc4` | building blocks |

What holds of the formats as a whole is stated and proved beside them: that what a
writer puts into a stream by the rules of the format is read back (`canonical`,
`stuffit_laws`, `sit5_laws`, `stuffit5_laws`, `stuffit13_laws`, `stuffit13_meta`,
`stuffit13_sets`, `stuffit15_encoding`, `stuffit15_laws`, `sitx::writing`,
`sitx::range_encoding`, `sitx::rotations`, `sitx::archive_laws`,
`sitx::archive_writing`, `sitx::blend_laws`, `sitx::catalog_laws`,
`sitx::cyanide_laws`, `sitx::darkhorse_laws`, `sitx::english_laws`,
`sitx::iron_laws`, `sitx::ppmd::coding_laws`, and the proof functions within the other
modules). What holds of every catalog, and the sizes of what is read, stand in
`method_laws`, `stuffit_laws`, `sit5_laws`, `sitx::archive_laws` and
`sitx::entry_laws`.

Two things are left to the caller. StuffItX has a deflate variant of its own: where a
stream uses it, `SitxArchive::open` and `read_entry` hand out the deflated bytes, and are
called again with what inflating them gave (`sitx::archive::Aids`, `sitx::aids_laws`).
And its preprocessor for English text needs a dictionary, which is passed in.

`app/` wraps the library for readers and writers of the standard library.
