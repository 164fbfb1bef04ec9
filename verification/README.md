# fomod_oxide

A library for evaluating [FOMOD](https://fomod-docs.readthedocs.io/) mod
installer configurations, with its logic proved correct by Verus.

- `src/` — the verified library:
  - `condition` — AND/OR dependency trees over file states (paths matched
    ignoring ASCII case), flags and the game version;
  - `version` — the numeric, component-wise version order (a total preorder);
  - `config` — the `ModuleConfig.xml` data model;
  - `order` — steps, groups and plugins put in the order their `order`
    attribute asks for (a stable sort by name);
  - `installer` — step visibility, group constraints, default choices, flag
    propagation on selection, and the install plan (stably sorted by priority);
  - `declarative` — name-based configs: templates from a module, applying them
    to an installer, summaries and differences;
  - `digest` — the SRI hash (`sha256-<base64>`) of installer XML, through `sha2`
    and `base64`;
  - `str_map`, `text`, `info` — an insertion-ordered text-keyed map, text
    helpers, and the choice of a config's revision.
- `app/` — the command-line program: XML parsing (`quick-xml` + `serde`),
  JSON/RON/Nix output (`serde_json`, `ron`, `ronix`), argument handling
  (`clap`) and file I/O.
- `tests/` — tests of the library on concrete values.
