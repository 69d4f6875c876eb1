# deepwoken_planner

A build planner for Deepwoken: it reads the talent list of the Deepwoken wiki,
lets a player choose talents that must hold before (PRE), after (POST) or on
either side (ANY) of the Shrine of Order, and searches for the build that
leaves the most stat points to spend.

The library under `src/` is written in Verus; every function carries a
contract that Verus proves.

- `stats` — stat blocks, requirement merging, the POST requirements that PRE
  requirements imply, and the PRE variants worth trying for stats that are
  only needed after the shrine.
- `shrine` — the Shrine of Order: how it takes points from used stats and
  spreads them back, and how many points are left.
- `optimizer` — the search over every placement of the ANY talents, and the
  report of the best build.
- `talent` — talents, their search text and requirement lines, and the
  de-duplicated, sorted talent list.
- `nuxt` — the wiki page's Nuxt data script, its JSON parse (serde_json) and
  the JSON model read from it.
- `variants` — the expansion of a talent's requirements into its variants
  (grouped stat chips and alternatives give one variant per choice).
- `wiki` — the talents of a wiki page.
- `planner` — the planner state the window edits.
- `laws` — properties that relate several functions, proved once for all
  inputs.
- `text` — text helpers: decimal text, joining, searching, ordering, trimming.

`app/` is the desktop window (eframe), the wiki download (reqwest) and the
cache file (serde, serde_json); it hands every decision to the library.
