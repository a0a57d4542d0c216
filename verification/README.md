# clos_dragonfly

Generators for two data-centre network topologies, written in Verus: each
function's behaviour is stated in its contract and verified.

- **CLOS** (`src/clos.rs`): a two-layer leaf/spine fabric. Half of every
  leaf's ports face hosts and half face spines; the number of parallel links
  per leaf/spine pair is the largest divisor of half the port count that lets
  a spine reach every leaf.
- **High-bandwidth Dragonfly** (`src/dragonfly_high_bw.rs` and
  `src/dragonfly_high_bw/`): groups of fully meshed routers plus global links
  between groups. `config.rs` enumerates and ranks the possible shapes,
  `hosts.rs` deals hosts round-robin over the routers, `wiring.rs` pairs the
  groups and attaches every global link to the least loaded router.
- `src/text.rs` renders the reports and error messages; `src/json.rs`
  writes and reads link lists as JSON (with serde_json); `src/links.rs`
  counts the links and bandwidth at each node.

A topology is a list of links `[src, dst, bandwidth]`: hosts take ids
`0 .. num_hosts`, switches or routers the ids after them.

`app/` is the command-line front end: writing the JSON files, the router budget factor
(a floating-point value), and the visualize commands. Diagrams are not drawn
here: those commands run, or print how to run, the external
`clos-visualize` tool of the sibling simulation project.
