# netflow

Multicommodity flow routing over capacitated networks read from SNDlib XML.

The library (`src/`) holds what the flow methods decide about the network
itself, verified with Verus:

- `nodes`: the table from node names to indices.
- `path`: routes and commodities, adding a route only when its edge list is
  new, the edges on exactly one of two routes, and rebuilding a route from
  predecessor links.
- `graph_pm`: the network description, the graph built from it (two opposite
  edges per link, adjacency lists), and the breadth-first search for a route
  with the fewest edges.
- `multicommodity`: the network description with link costs, its graph, and
  reachability over a chosen set of edges.

Capacities, flows and demands are of a type parameter `F`; the library only
carries them. The program in `app/` instantiates it with `f64` and runs the
projection method and the flow deviation method, whose arithmetic is floating
point, over the verified graph and route logic. It also reads the XML with
serde.
