# org_plugin

Part of the text logic of an org-mode editor plugin, with its behaviour
stated in contracts and proved by Verus: dates and the date prompt,
repeaters, the planning line, property drawers, plain lists, headline
subtrees and text objects, links, refile targets, and org-roam nodes,
backlinks and ids. Each answer is computed from plain values — the
document's lines, an option's value, today's date — and the host turns it
into an edit.

Not here: the agenda, TODO cycling and its logging, checkboxes, timestamp
stepping, promoting and demoting headlines, archiving, the clock and capture
templates, and everything that registers with or talks to the host.

## Layout

- `src/` — the verified library.
  - `calendar`, `timestamp`, `org_date`, `repeat`, `local_time`: days and
    dates, the date prompt's grammar, repeaters and how they move a date.
  - `planning`: the `SCHEDULED:`/`DEADLINE:` line under a headline, read and
    written as one line.
  - `properties`: writing one property into an entry's drawer.
  - `headline`, `subtree`: headline levels, subtrees, the headline text
    objects, moving a subtree past its sibling, inserting a sibling.
  - `list`: plain lists — items, siblings, children, renumbering, indenting
    and moving items.
  - `links`, `refile`: links at a point, refile targets and their tokens.
  - `roam`, `roam_backlinks`, `roam_capture`: org-roam nodes, backlinks and
    capture templates.
  - `todo`, `options`, `capture`: keyword sequences, list options, capture
    buffer names and titles.
  - `text`: the character-level vocabulary the rest is written in.
- `app/` — what the host side needs around the library: the wall clock,
  the guards in front of the library's preconditions, and a serialisable copy
  of the roam node.
- `tests/` — the behaviour on concrete documents.

Laws that relate several functions stand in `src/` as public proof
functions (`lemma_…`), next to the functions they are about.
