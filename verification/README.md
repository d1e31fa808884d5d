# polygon_nesting_core

The decision logic of a polygon-nesting search coordinator, written in Verus
and verified against its contracts.

`src/` is the verified library:

- `portfolio::archive` — the archive of retained basins: admission, eviction
  of a dominated and similar member, retirement, descent charging, the
  best-first distinct frontier, and the archive's report.
- `portfolio::meter` — the work meter, the settlement of an operator call's
  charge, plan tranches, and the scoped armings of process-wide flags.
- `portfolio::queue` — the ranked action queue's keys, ranking, sterile bit,
  barren counters, phase verdicts, and the sparse rotation disarm bit.
- `portfolio::race` — the basin race's rank-sum judge, halving and
  retirements.
- `portfolio::crossover` — which parent each piece of a cut hybrid comes
  from, and the occupied positions a cut can fall between.
- `portfolio::ledger` — the ledger's integer half: the genealogy of the
  basins (parent edges, ancestors, descendants, generations between two
  layouts, the incumbent's lineage in birth order), the descent, crossover
  and whole-archive selections with the reason a member is left out, the
  depth ranks, and the actions each member received.
- `portfolio::kinds` — the reporting vocabulary.
- `round_envelope_gate` — the envelope census's row order, trimming and
  placement lookup.
- `shadow_rescore` — the shadow-rescore audit's tallies and ulp distance.
- `bits`, `text`, `order` — `f64` bit patterns, text rendering and order,
  and stable insertion sorting as specifications.

Every `f64` the library reasons about is carried as its IEEE-754 bit pattern.

`app/` holds what the library does not: the process-wide tallies, the plan
calibration file, the configuration's floating-point defaults, and the
floating-point arithmetic around the library's integer decisions (the plan
ladder and its tranches, the probe's effective wall, the ledger's
percentiles and seconds). The engine-driven loops that call the library's
decisions need engine modules this crate does not have, and are not here. `tests/` runs the library on concrete values.
