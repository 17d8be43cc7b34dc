# demoscope

Reads the demo files of three families of game engines (Source, GoldSrc and Quake) and
writes what they hold: listings, CSV, JSON, and a page that shows the paths of the players
in the map they were recorded in.

`src/` is the library. Every function in it is verified with Verus: its contract says what
it returns for every file, and no file makes it panic. `app/` is the program around it: it
reads and writes files, parses arguments, and does the arithmetic on floating-point numbers,
which the library handles by their bits.

| Module | What it holds |
|--------|---------------|
| `bytes`, `bits`, `text`, `ieee`, `number` | integers, bit streams, texts and numbers |
| `protobuf` | the wire format of protobuf messages |
| `header`, `packets`, `session`, `dump`, `export` | the container of Source demos, and what a listing of one says |
| `source` | events, string tables, entities and players of Source demos, CS:GO's among them |
| `goldsrc`, `quake` | demos of the other two families |
| `bsp` | the geometry of maps |
| `multi_player`, `overlay`, `report`, `json`, `page`, `html` | what a page shows, and the page |
| `check` | whether a demo decodes |

Two outside crates do work in the library: `base64` encodes the geometry of maps, and
`lzma-rs` unpacks the lumps of Source maps. Their calls, and those of the standard library
that have no contract of their own, stand behind small functions whose doc comments say what
is taken on trust.

The program reads its page templates, `template.html` and `dual_template.html`, from beside
itself.
