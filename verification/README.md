# fastscan-mcp

The core of a disk-space analyser that reads an NTFS volume's Master File
Table directly (or walks the directories where it cannot), builds the
directory tree with sizes and counts gathered from the leaves up, and answers
queries over the finished tree. The library in `src/` is written in Verus:
every function carries a contract that the verifier proves, except four
small wrappers around standard-library functions (`String::from_iter`,
`String::from_utf16_lossy`, `Path::extension` and `slice::sort`), whose
contracts state what the standard library documents and are trusted.

## Layout

- `src/` — the verified library
  - `bytes`, `runs`, `boot`, `record`: little-endian reads, NTFS mapping
    pairs, the boot sector, FILE records (update sequence fix-up, attributes,
    names), and the `$MFT` stream.
  - `mft_reader`: reading the MFT in chunks or mapped regions, as a state
    machine that the program drives with disk reads.
  - `tree`, `ntfs_tree`, `walk`: tree nodes, trees built from MFT records or
    from a directory walk, and finishing a tree (pruning child lists,
    aggregating totals breadth first, ordering children).
  - `desktop_tree`: the desktop application's way of finishing a tree, with a
    depth-first walk and saturating sums.
  - `query`, `stats`, `treemap`, `duplicates`, `order`: the queries answered
    over a finished scan.
  - `laws`, `desktop_laws`: what the two aggregations give on trees whose
    children point back to their parent.
  - `drive`, `volume`, `hardware`, `elevate`, `elevation`, `launcher`,
    `explorer`, `rpc`: platform rules, display texts, and the server's
    request routing.
- `tests/` — tests run against the compiled library.
- `app/` — the MCP server program: argument handling, file-system and volume
  I/O, and the HTTP/SSE transport around the library.
