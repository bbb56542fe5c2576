# swindex

A hierarchical small-world index of property graphs, written in Verus: what each
function does is stated in its contract and proved.

swindex is an index, not a database. The rows stay in the store that holds them;
swindex says which nodes belong together, and answers "what is related to X" with a
short list of identifiers.

## Layout

- `src/` is the library. All of it is verified.
  - `id`, `node`, `source`, `graph`, `weighted`: identifiers, nodes and edges, and the
    undirected graph that the algorithms read.
  - `gml`, `edgelist`, `sql_dump`: the formats that graphs are read from.
  - `partition`, `modularity`, `moving`, `community`: Louvain and Leiden clustering over
    exact integer modularity; `components`, `cohesion`, `gains` and `adjacency` hold what
    is proved of the clusters.
  - `region`, `hub`, `hub_graph`, `betweenness`, `corridor`, `bfs`, `quality`: what is
    computed over clusters and nodes.
  - `codec`, `index`, `labels`, `neighbors`, `layout`, `query`, `insert`, `listing`: the
    stored form of the index, how it is built, read, queried, grown and listed.
    `consistency` and `built` hold what is proved of a store.
  - `maintenance`: drift, and policies that act on it.
  - `bytes`, `text`, `sort`, `sums`, `distinct`, `tally`: what the others share.
- `tests/` runs the library, and stores an index with Fjall.
- `app/` is the command-line program. It reads files, keeps the index in a Fjall keyspace
  and turns exact results into floating-point ones.

## Reading and writing the store

The library does no input or output. `layout::build_from_source` takes a source and the
betweenness of its nodes, as integers that order them, and returns the values to write.
A `query::Query` and an `insert::Insert` say which value they want next and take what the
store holds, until they have a result. A function of a store is so proved for whatever
the store answers.

## Numbers

Weights, degrees and gains are integers, and modularity is an exact ratio. A hub link is
stored with the bit pattern of its weight, a 32-bit float.
