# yadict

Looks words up in MDict (`.mdx`) dictionaries and renders their HTML definitions as
coloured terminal text; browses, downloads and removes dictionaries from the index
of mdx.mdict.org.

The library in `src/` is written in Verus: each function states what it does in its
contract and Verus proves it.

- `parser/`, `mdict.rs`, `bytes.rs`, `cipher.rs`, `codec.rs`: the `.mdx` format
  (header, key block index, key blocks, record blocks) and word lookup.
- `lang.rs`, `text.rs`: text codecs, collation and the text helpers the rest uses.
- `render/`: HTML definition → Markdown (html2text) → tidied lists → comrak's
  CommonMark XML read back into a tree → terminal text.
- `registry/`: the index entries, their sizes, search, de-duplication, and the crawl
  of the site's directory listings as a state machine.
- `browse/`: the category tree, the rows of the browser, what each key does, and
  the confirmation of the changes.
- `cache.rs`: the index of downloaded files.

`app/main.rs` is the command line around it: arguments, files, network, threads and
the terminal user interface. `tests/` runs the library on concrete inputs.
