# nvram_editor

An editor for the setup dumps (`nvram.txt`) that AMI's SCEWIN exports from and imports into a PC's
firmware. The library in `src/` holds everything that is decided or computed, with contracts and
laws proved by Verus; `app/` is the window around it.

| module          | what it is about                                                        |
|-----------------|-------------------------------------------------------------------------|
| `text`          | strings as sequences of characters: trimming, words, lines, numbers     |
| `codec`         | the bytes of dump files: Windows-1252                                   |
| `grammar`       | the lines of a dump: comments, keys, options                            |
| `nvram`         | reading the settings of a dump, writing changed settings back           |
| `stars`         | laws: what moving the star of a list of options leaves as it is         |
| `roundtrip`     | laws: what a written dump reads back as                                 |
| `layout`        | laws: what writing leaves as it is                                      |
| `presets`       | `Setting [Option]` lines: matching, parsing, applying                   |
| `validation`    | checks of free-form values                                              |
| `change_format` | `old → new` entries of the history                                      |
| `search`        | searching by words                                                      |
| `scewin`        | finding SCEWIN and running it with elevated rights, step by step        |
| `editor`        | the state of the editor and everything that can happen to it            |

Paths are sequences of names in the library; `app/` converts them. Outside code is called from the
library in three places: `codec::decode` and `codec::encode_char` call `encoding_rs`, and
`text::lowercase` calls `str::to_lowercase`. Their contracts, and that of `String::push` in `text`,
are trusted; everything else is proved.
