# decfec

Continuity indicators of electric distribution networks: DEC/FEC of a set of
consumers and DIC/FIC/DMIC of a consumer point, computed from a timeline of
fault, repair and switching events.

## Layout

- `src/` — the library, verified with Verus:
  - `topology.rs`: buses, branches and the network; lookups, sums of
    consumers, the line of a consumer point.
  - `reach.rs`: connectivity (reachability through conducting buses and
    branches), energized buses, the lines downstream of a switch, the hop depth of each
    bus from the substations (the layers of the drawing).
  - `validate.rs`: structural validation; it accepts exactly the well-formed
    networks and reports every problem in order.
  - `fault.rs`: the event simulation; the outage intervals of every branch.
  - `target.rs`: which lines a report covers (whole system, downstream of a
    switch, or a consumer point `bus:<id>`).
  - `edit.rs`, `commands.rs`: editor operations (fresh ids, copy/paste,
    add a junction or a line, delete a selection, rename a bus).
  - `text.rs`: message building and the string order.
- `app/` — the command-line front end: RON input/output (`ron`, `serde`) and
  the floating-point indicators over the simulated intervals.
- `tests/` — tests of the library.

Instants are carried by the library as order-preserving integer keys; the
front end maps minutes to keys and back, and computes durations and the
indicators from them.
