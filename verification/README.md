# packwiz-modlist

`packwizml` turns a [packwiz](https://packwiz.infra.link/) Minecraft modpack
into a human-readable markdown (or JSON) modlist: it reads the pack's
`pack.toml` and mod metadata files, resolves each mod against Modrinth and
CurseForge, and renders one line per project from a format string.

## Layout

- `src/` — the library, verified with Verus:
  - `text.rs`: character-sequence primitives (decimal numbers, `u32`
    parsing, trimming, splitting, search and replace, text order).
  - `object.rs`: the pack model and the Modrinth/CurseForge project records,
    with the accessors used by the placeholders.
  - `output.rs`: placeholder expansion (`display_project`), sorting and the
    lines of the modlist.
  - `cache.rs`: projects remembered by mod file hash.
  - `data.rs`: directory checks, which mods go to which store, request
    addresses, pairing replies with mods, caching, CurseForge placeholders,
    attaching Modrinth team members.
  - `ignore.rs`: the entries kept in `.gitignore` / `.packwizignore`.
  - `local.rs`: mod metadata read from a jar (NeoForge, Forge, Fabric).
- `tests/` — tests of the library.
- `app/` — the command-line program: argument handling, file and network
  I/O, the async runtime, and the serde copies of the library's records.
