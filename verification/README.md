# resource_collection_tui

Autonomous robots explore procedurally generated grid worlds and gather
resources; four worlds run side by side in a terminal.

The decision logic is a Verus library under `src/`, proved against its
contracts:

- `model` — positions, tiles, the world map and its mathematical view
  (`Grid`), robots, messages, and how messages update a world snapshot.
- `positions` — hash-keyed sets and maps of positions with exact views.
- `generation` — map generation from an obstacle mask, and resource seeding
  from a sequence of drawn cells and amounts.
- `random` — the calls into `rand` that the generation makes.
- `simulation` — neighbours, sightings, frontier tiles, recent-position
  trails and greedy steps towards a target.
- `search` — breadth-first search for the first move of a shortest walk to a
  goal.
- `robots` — one round of a scout and of a collector, as functions from the
  world and the robot's memory to the reports it sends; robots only read the
  world, and every change, harvests included, reaches it as a message.

`app/` holds the terminal program: worker threads, channels, the debug log, Perlin noise
sampling for the obstacle mask, and the `ratatui` rendering.
