# rsomics_reaching_centrality

Global and local reaching centrality (Mones, Vicsek & Vicsek 2012) for
directed and undirected edge-list graphs, matching NetworkX's
`global_reaching_centrality` / `local_reaching_centrality`
(`weight=None, normalized=True`).

The library under `src/` is verified with Verus:

- `text` — the edge-list format stated over characters (lines, `#`
  comments, trimming, the first two tokens of a line) and its scanners;
- `io` — the interned `Graph` and `parse_edges`, whose contract gives the
  labels (first-seen order) and every adjacency list exactly;
- `paths` — reachability and shortest-path distance layers as sets, with
  the lemmas the traversals rest on;
- `reaching` — the breadth-first traversals: the number of nodes each node
  reaches and the number of nodes at each distance, with the laws that tie
  them together;
- `order` — nodes ordered by label for label-sorted output.

`app/` is the command-line tool: it reads the input, and turns the verified
counts into the floating-point centrality values (directed: `count / (n-1)`;
undirected: a compensated sum of `1/d` per node; global:
`Σ (max − local) / (n − 1)`).
