# namuppuli

Hyperlink analysis of a namu wiki database dump, verified with Verus.

`src/` is the verified library:

- `text`: byte-level string helpers (`remove_suffix`, decimal numerals, `parse_u32`).
- `scan`: the eight-byte-window scanner that finds document titles and `[[...]]` links.
- `tally`: counting links and link targets, in order of first occurrence.
- `rank`: the stable heaviest-first ordering used by `--sort` and the frequency output.
- `filter`: the date-page filter and the minimum weight.
- `graph`: the keyword graph on top of `petgraph`, one node per keyword.
- `network`: building the network from counts or from a saved CSV network.
- `search`: the depth-first neighbour search, heaviest links first, as a list of actions.
- `gephi`, `stopword`: the Gephi streaming endpoint and messages; stop-word presets.

`app/` is the command-line program: argument parsing, file and terminal I/O, the scanning
threads, CSV reading and the HTTP requests to Gephi. `tests/` runs the library on
concrete inputs.
