# shadow

The core of an entity–component–system game engine, with its behaviour
stated in contracts and proved.

- `storage`: dense maps and sets that keep insertion order with an index
  from key to position, sparse arrays, and column tables of rows.
- `entity`: live entities with generations, a free list, parents and
  children; every child listed for a live entity is alive and names it as
  its parent.
- `archetype`: archetypes of entities that share a set of components, the
  edges between them, queries, and moving an entity when components are
  added or removed.
- `event`: queues of typed requests with priorities, and their outputs.
- `world`: the world that ties entities, archetypes, requests and
  resources together; flushing carries out the queued requests in order.
- `resource`: resources shared by systems, and local ones.
- `schedule`, `phases`: trees of phases, where phases are put under, before
  or after others.
- `system`: what a system reads and writes, whether one system has to wait
  for another, and graphs of systems in which placing a system also places
  the systems it brings along, every dependency ahead of its dependent.
- `game`: the phases a game runs (starting up, executing, shutting down),
  each with the phases within it, and placing a phase before or after
  another at whatever depth its type is listed.
- `render_graph`: render graph builders, whose nodes are put in layers so
  that each runs after the nodes it depends on.
- `scene`, `window`, `shader`, `buffer`: scene tracking, window settings,
  shader slots and edges, and buffer layouts.

`app/` holds a runner that calls the systems of a graph in the order they
were placed, and thread pools that hand work to threads, with scoped pools
that wait for what they were given.
