# Wish

Distributes people into slots. Each person grades every slot (0 is best); the assignment
minimises the sum of the squared grades of the slots people get, while each slot keeps between
its least and its most number of people. Grades must be fair: with `n` slots, at most `k` slots
may have a grade of `n - k` or more.

The library is written in Verus: every function carries a contract that Verus proves.

## What is proved

- The assignment (`pipeline::compute_assignment`) is a cheapest seating of the cost matrix
  built from the grades (`hungarian::hungarian` is proved optimal through its dual), and the
  random shuffle before solving does not change its cost (`pipeline::lemma_optimal_reorder`).
- No slot gets more people than its most (`pipeline::lemma_slot_capacity`); whenever some
  arrangement keeps every slot within its quotas, the assignment does too and costs no more,
  for grades below the number of slots as the sliders give (`quotas::lemma_assignment_within_quotas`).
- Read on the rectangular matrix, the Hungarian result gives each worker a job or none, no job
  twice, as many jobs as there are workers or jobs, and no such assignment costs less
  (`hungarian::lemma_hungarian_cheapest`).
- The wish sliders keep a fair wish fair, keep every grade in range and lower another slot by
  at most one (`fairness`); fairness is the quota rule above (`fairness::lemma_fair_iff_quotas`),
  does not depend on the order of the grades and survives lowering a grade.
- A text that parses without error has its bounds in order, one grade per slot, no mail twice
  and a participant count between the sums of the bounds (`parse::lemma_clean_parse`).
- The editor text reads back as the slots and participants it was written from, without error
  when the data is consistent (`editor::lemma_editor_text_reads_back`).
- The report's layout, line by line, and the results read back from it: each participant's
  mail and slot, in order (`results`).
- Parsing, report and editor formatting, mail templates, the help renderer and the page
  highlighter are specified exactly; HTML output only holds the library's own tags, every `>`
  ends one and every `&` starts an entity, and the highlighter only wraps the escaped text in
  spans (`safe_html`). Template variables are cut as far as their names go
  (`templates::lemma_scan_well_cut`).
- The server's rules: data checks, saving an administrator's data (`admin::set_admin_data`),
  saving an event's participants (after which the event's list and its participants in the
  database agree, `roster::lemma_saved_roster_consistent`, and each saved mail is where
  `roster::lemma_saved_members` says),
  wishes, mail recipients, new events, the history and the mails it writes (`server`,
  `roster`, `history`, `mails`).
- What the pages decide apart from drawing: routes, toasts, messages and the new event request
  (`pages`, `feedback`, `client`).

## Layout

- `src/` the verified library, one module per concern (see `src/lib.rs`).
- `tests/` tests on concrete values, including the ones each property above is about.
- `app/` a small command line around the library: runs the assignment on an editor text,
  shows and checks events of the database file `db.json`, and keeps its backups.
