# tank_matchmaker

A tank matchmaker written in Verus: a registry of tanks weighted by how often
they are played, and two matchmaking algorithms that build balanced teams out of
a queue of tanks. The library in `src/` is verified; `app/` is the command-line
simulation around it (reading the tank list, threads, printing).

Layout of `src/`:

- `tank.rs`: tanks, their classes, and the registry with its weighted pick.
- `matchmaker.rs`: the queue-and-poll matchmaker, where `poll` draws the
  random values of a match and `poll_with` makes the match that given draws
  give; `match_sorting.rs`,
  `match_slots.rs`, `team_slots.rs`, `team_mask.rs` and `positions.rs` hold the
  order of a match, why equal teams match slot by slot, the slot bookkeeping,
  the team bit masks and the removal of queue positions that its proofs rest
  on.
- `matchmaker2.rs`: the matchmaker that places each queued player in the best
  open match as it arrives.
- `report.rs`: the counters of a simulation run.
- `data/tomato.rs`: the classes and nations of the tank list format.
- `random.rs`, `clock.rs`: the calls into `rand` and the monotonic clock, with
  what their contracts claim of them.
- `text.rs`: string comparison and its order.
