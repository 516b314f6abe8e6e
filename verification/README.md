# context-snipe

Reads a project's dependency files, looks each resolved package up on
OSV.dev, and hands an AI coding assistant a short, ranked advisory report
over the Model Context Protocol (or prints it in a terminal).

## Layout

- `src/` — the library, verified with Verus.
  - `document.rs`: JSON and TOML text decoded (by `serde_json` and `toml`)
    into plain trees, and reading members out of them.
  - `deps.rs`: which dependency files a project's presence of files selects
    (lockfiles before manifests), their decoding, and the parsers of each format
    (Cargo.lock, pnpm-lock.yaml, yarn.lock, package-lock.json,
    package.json, poetry.lock / uv.lock, requirements.txt, go.sum, go.mod).
  - `osv.rs`: advisories, their severities, the collapsing of records
    that share a CVE, the reading of OSV.dev replies, and the two-phase
    lookup as a state machine.
  - `cvss.rs`: the base metrics of a CVSS v3.x vector string.
  - `scan.rs`: the dependency listing and the vulnerability report.
  - `mcp.rs`: reading the tools server's input lines and how each is answered.
  - `order.rs`, `text.rs`: string order, sorting, and character-level
    helpers with their specifications.
- `tests/` — tests of the library on concrete inputs.
- `app/` — the program: command line, file reading, HTTP, the stdio server
  loop and the writing of its replies, and the floating-point CVSS score.
