# bfhl

A service that reads entries of the form `X->Y` (an edge from parent `X` to
child `Y`, both uppercase letters), sorts them into valid edges, invalid entries
and repeated edges, groups the nodes into connected hierarchies and shows each
hierarchy as a nested tree, or as a cycle where one is reached from its root.

- `src/` is the verified library (Verus):
  - `parser.rs`: the entry grammar, white-space trimming, de-duplication;
  - `labels.rs`: the order of node labels and the sorted node table;
  - `union_find.rs`: the disjoint-set forest that finds the groups;
  - `graph.rs`: walks over child lists, three-colour cycle detection, depth and
    the nested tree below a node;
  - `hierarchy.rs`: one hierarchy per connected group, with its root;
  - `response.rs`: the summary and the whole answer to a request;
  - `models.rs`: the data types.
- `app/` is the HTTP server (actix-web), logging, and the serde copies of the
  data types with their conversions.
- `tests/` runs the library on concrete inputs.
