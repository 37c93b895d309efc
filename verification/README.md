# eve_sde_mcp

An MCP server over EVE Online's Static Data Export (SDE), with its logic
written in Verus and proved against its contracts.

- `src/` is the verified library: the JSONL line scanners and record
  extractors that build the in-memory indexes, the downloader's build-number,
  staleness and zip-path rules, name search and Type selection, dogma text
  search and modifier tables, jump routes, market-group walks, skill plans,
  and the build router and production-chain engine.
- `app/` is the program around it: command-line handling, the download and
  the scan of the SDE files, the MCP tools that turn library results into
  JSON, and the HTTP transport.
- `tests/` runs the library on concrete data.

Run the server with `stdio` (the default) or `http` transport; the SDE is
downloaded into the data directory on first start and refreshed when a newer
build is published.
