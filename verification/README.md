# vectx

A vector search engine: collections of points with dense, multi and sparse vectors and JSON
payloads, searched exactly or through an HNSW graph, behind an HTTP and a gRPC interface.

- `src/` is the library, verified with Verus. It holds the collections, the index, filters, and
  what each request comes to. Every function states what it returns or changes.
- `app/` is the code around it: the HTTP server, the gRPC services and the floating-point
  arithmetic.
- `tests/` runs the library.

Floating-point numbers are held in the library by their bits. It compares and ranks them; the
arithmetic itself comes from outside through the trait `Kernels` in `src/kernels.rs`, of whose
results nothing is taken for granted. A contract that speaks of a score says which operation was
given which numbers and what was done with what came back.

Where to start reading:

- `collection.rs` and `store.rs`: what a collection is and what its operations do
- `hnsw.rs`, `walk.rs`, `graph.rs`, `visited.rs`: the index and its greedy search
- `order.rs`, `similarity.rs`, `scoring.rs`: comparing, ranking and taking the best
- `filter.rs`, `matching.rs`: filters in JSON
- `rest_write.rs`, `rest_read.rs`, `rest_search.rs`, `fusion.rs`, `rest_explore.rs`,
  `recommend.rs`, `admin.rs`: HTTP requests
- `grpc.rs`, `grpc_values.rs`: gRPC messages
- `collection_laws.rs`: what holds of several operations together
