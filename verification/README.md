# evetrade

Finds trade routes between markets of EVE Online: it reads the universe map
and the market orders, pairs buy and sell orders of each item, and searches
routes along the stargate network that earn the most per jump.

- `src/` is the verified library (Verus): number text (`text`), addresses
  (`urls`), the map model and system paths (`types`), a k-d tree over system
  positions (`kdtree`), A* routing with a route cache (`pathfinder`),
  decoding of the downloaded data (`esi`), configuration and cache decisions
  (`config`), order-list truncation (`processor`) and the error types
  (`errors`).
- `app/` is the program around it: downloads, files, configuration parsing,
  logging, and the price computations, which use floating point.
- `tests/` runs the library on concrete inputs.
