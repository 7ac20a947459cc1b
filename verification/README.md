# rayfish_gui

The desktop front end of the `ray` command line: the language file that the
window chrome and the dashboard read, the loopback dashboard server, and the
decisions of the Windows window and tray. The library under `src/` is written
in Verus. Its functions are verified against their contracts, except a few
small functions marked `#[verifier::external_body]` that call `std`, `serde_json`,
`hex`, `rand` and `image`: their contracts are trusted, not proved.

## Layout

- `src/json.rs`, `src/order.rs`: JSON documents as the program holds them,
  lookup and store. Object entries are held in key order where they come
  from the parse or from the library's stores; `settings::ordered_file` states
  this for the language file, and the producers of files ensure it.
- `src/jsontext.rs`: the library's own JSON writer, compact and pretty (two
  spaces per level), laid out after `serde_json`'s `to_string` and
  `to_string_pretty`; the tests compare its output with `serde_json`'s, which
  is all that ties the two together.
- `src/text.rs`, `src/scan.rs`: text operations (replace, HTML escaping,
  splitting, trimming, lines, numbers).
- `src/catalog.rs`: the built-in catalog of interface texts and the default
  file.
- `src/settings.rs`: the language file's shape and validation, translation,
  page locale, the language cycle, the dashboard table and page, and the
  written file layout (built-in languages first).
- `src/merge.rs`: parsing the language file (through `serde_json`), bringing it
  up to date with the catalog, and what the program starts with.
- `src/command.rs`: the `ray` command lines the dashboard may run and how their
  outcome is reported.
- `src/http.rs`: reading requests, checking the session token, routing and
  writing responses.
- `src/desktop.rs`: window title, tray menu, update offer, single-instance
  handshake and the reactions of the window's event loop.
- `app/`: the parts that do I/O (files, sockets, processes, the Windows window
  through `tao`, `wry` and `tray-icon`), built on the library.
- `tests/`: tests of the library.
