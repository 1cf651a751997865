# bgp_analyzer

A BGP routing-data analyzer for MRT archives (RouteViews / RIPE RIS dumps),
written in Verus. The library decodes MRT records into BGP updates,
aggregates AS links and prefix origins, builds the AS-level topology,
infers Gao-Rexford business relationships from AS degrees, checks AS paths
for valley-free violations (route leaks), and reports prefix hijacks,
AS-path loops and zombie ASes. Every function of the library carries a
contract. Verus proves the contracts of the library's own code; the thin
wrappers around the outside crates (`dashmap`, `petgraph`, `byteorder`,
`flate2`, `bzip2`) and one std function are marked `external_body`, and
their contracts are trusted, stating only what those crates' sources show.

Layout:

- `src/error.rs`, `src/wire.rs`, `src/text.rs`: decoding errors, big-endian
  field access, decimal / dotted-quad / RFC 5952 text.
- `src/mrt_parser.rs`: MRT record framing and the PEER_INDEX_TABLE.
- `src/bgp_extract.rs`: BGP4MP UPDATE messages and TABLE_DUMP_V2 RIB entries,
  specified as functions on byte sequences.
- `src/parallel_processor.rs`: the prefix, link and update tables (kept in
  `dashmap` maps), file images (gzip / bzip2), and AS degrees.
- `src/topology.rs`: the AS graph (a `petgraph` graph), top hubs and hub
  paths.
- `src/valley_free.rs`: relationship inference and route-leak detection.
- `src/anomaly.rs`: hijack, AS-path loop and zombie detection.
- `src/ranking.rs`: the stable descending ordering used for reports.
- `src/file_names.rs`: which file names mark MRT data.
- `app/`: the command-line program: argument parsing, file reading,
  parallel decoding, confidence scores and the terminal report.
- `tests/`: tests of the library on concrete inputs.
