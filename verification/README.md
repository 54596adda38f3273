# sub_font_loader

Tools for the fonts that ASS/SSA subtitles use: which fonts a script needs,
which aliases a font file answers to, a local index that maps those aliases
to font files, and the temporary loading of fonts so that other Windows
programs can see them.

The library in `src/` is verified with Verus; `app/` holds the programs
around it (file system, SQLite, archive extraction and the Windows calls).

## Layout

- `text`, `sort`, `name_set`: strings as character sequences, a stable
  sort, and sets of names compared without ASCII case.
- `subtitle`: decoding subtitle files (`encoding`), parsing scripts (`ass`)
  and the fonts they declare and need (`fonts`).
- `font`: aliases from font name tables (`names`), lookup keys, alias rows
  and resolution of required fonts (`index`), and the bookkeeping of scans
  (`scan`).
- `discover`: which paths are fonts or subtitles.
- `session`, `windows_api_wrapper`, `report`: the books of a load session
  and its report.
- `gui`: the state of the loader window and how it reacts to events.
- `listing`: what the command-line tools list and export.
