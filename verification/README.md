# agent_polyrhythm

Polyrhythmic scheduling for heterogeneous agent fleets, with its behaviour stated in
Verus contracts and proved.

Time is counted in whole ticks: `TICKS_PER_BEAT` (one million) ticks make one beat, so
`Beat::beats(3)` is three beats and `Beat(TICKS_PER_BEAT / 2)` half a beat. Intensities
(velocities, priorities, syncopation strength, which runs from 0 on the grid to
`FULL_LEVEL` halfway between grid points) are whole numbers of millionths, with
`FULL_LEVEL` standing for full intensity; a syncopation ratio is an exact fraction in
lowest terms.

Layout of `src/`:

- `beat.rs`: beats and tick arithmetic.
- `arith.rs`: gcd and lcm, with Bezout's identity and the laws that make the lcm the
  least common multiple.
- `cycle.rs`: a single rhythmic cycle: triggers, next trigger, trigger listings, velocity.
- `groove.rs`: the groove point, and the proof that it is the first beat where every
  whole-beat period aligns.
- `polyrhythm.rs`: several cycles together and their merged trigger listing.
- `groups.rs`: voices grouped by the tick at which they trigger, in an ordered map.
- `alignment.rs`: beats where two or more cycles trigger together.
- `seq_facts.rs`: counting and ordering facts about sequences.
- `decimal.rs`: decimal rendering of task counters.
- `schedule.rs`: task assignment and schedule generation, ordered by beat.
- `syncopation.rs`: on-grid/off-grid classification, strength and ratio.

`app/` converts between `f64` beats/levels and the library's integer units, and checks
that every cycle's triggers can be listed before it asks the library for a listing.
