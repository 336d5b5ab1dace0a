# l3ms

Building blocks of a terminal workbench for serving local language models with
`llama-server` behind the `llama-swap` router. The library is verified with Verus: what
each function returns or changes is stated in its contract and proved.

## What is in it

- `param_registry`, `registry_table` – the curated `llama-server` flags and presets.
- `param_values`, `param_builder` – the Param Builder: editable values, selection,
  single-line editor, import and generation of command lines.
- `cmd_block` – the `cmd:` block of an entry: tokens, parsing, replacement.
- `swap_yaml` – the entries of `llama-swap.yaml` and the switch that disables them.
- `swap_files`, `civil_date` – names of snapshots, sizes of sharded models, the router's
  process ids.
- `telemetry` – process tables, device listings and kernel counters.
- `boot_anim`, `theme` – what the boot animation draws, and in which colors.
- `text`, `number` – characters, lines, words and decimal numbers.

The files whose names end in `_laws`, and `round_trip`, state what holds over several
functions. The central one is `save_laws::saved_import_reads_back`: a command that was
imported from an entry and saved into it is imported again as the same state.

`app/` is the part that touches the machine: files, processes, devices and the terminal.
It hands plain values to the library and carries out what the library decides. Fractions
are turned into floating-point numbers there only.

## What is taken on trust

Two facts about the standard library: that `String::push` appends its character, and that
the `Debug` text of a string is a function of that string.
