# procdrift

A process monitor for Windows that reports what changed since a reference
snapshot: new executables, executables at a different path, restart loops,
heavy and outlying resource use, and automatic startup entries. It states
observations and never verdicts.

## Layout

- `src/` is the library, verified with Verus. Every public function carries a
  `requires`/`ensures` contract over spec models (`Seq`, `Set`, `Map` and a
  view of each type), and the library's laws stand as public proof functions
  (`lemma_*`).
- `app/` is the Windows program around it: the window, the Win32 calls, the
  registry, file persistence, threads and the floating-point rates. It hands
  the library plain values and calls it under its real names.
- `tests/` runs the library on concrete values.

## Modules

| module | what it holds |
| --- | --- |
| `text` | character sequences, trimming, search, decimal text, UTF-16 |
| `paths` | path normalisation, `%VARIABLE%` expansion, command-line and service-image executables, registry strings |
| `model` | trust states, findings and their calm explanations, filters, the heavy leaderboards, peer outliers |
| `activity`, `activity_runs` | process starts, exits and restart detection between scans, and their laws over a run of scans |
| `kernel` | retrying the kernel's process-list query and walking the records it returns |
| `baseline`, `state`, `table` | the reference snapshot, its allowances, saving and loading, version-1 import |
| `process`, `scan`, `listing` | building, classifying, searching and sorting the rows shown |
| `action`, `details`, `signature`, `autostart`, `commands`, `invocation`, `knowledge`, `units` | actions and their refusals, the detail cache, signature verdicts, the startup index, UI commands, arguments, descriptions, number formatting |

## Trust

| Trust | Meaning |
| --- | --- |
| Protected | A process this tool cannot open, and will not act on |
| Allowed | Its exact path is in the reference snapshot, or was allowed by hand |
| Known | A Windows-shipped program the tool can describe, not in the snapshot |
| Unclassified | Nothing is known about it beyond this scan |

## Laws proved

- Activity: each scan reports a start for every identity seen now and not
  before, an exit for every identity gone, and nothing else, and leaves the
  identities seen now as the running ones; over any run of scans the event
  history stays in time order, holds at most 128 events and none older than
  ten minutes before the latest scan; at most 8 starts per executable are
  kept; the first scan reports no starts; an executable is restarting
  exactly when three of all its reported starts fall within two minutes,
  however many older starts the tracker has forgotten.
- Baseline: an allowance wins; a path match needs a recorded path; adding
  then removing an allowance restores the baseline; saving then loading gives
  the same baseline back.
- Paths: the comparison form does not depend on the separator or, on ASCII
  text, on letter case, and never holds `/` or ends in `\`; expansion with a
  lookup that knows no variable returns its input unchanged.
- Findings: every explanation is free of "malicious", "threat" and "safe";
  each of the eleven flags has exactly one explanation, in bit order; trust
  never comes from a finding.
- Leaderboards: each heavy finding marks the top five rows at or above its
  minimum.
- Persistent new processes rank first; sorting is stable; the process tree
  captured for an action is exactly the root and its descendants (closed
  under parent links, no process twice); the detail cache keeps at most 64
  distinct entries and the most recent one.

## Trusted

Three wrappers around `std`, each an `external_body` function whose contract
is taken on trust:

- `text::string_from_chars`: `String: FromIterator<&char>` keeps the
  characters in order.
- `text::to_lowercase`: `str::to_lowercase`; its result is named
  `lowercase`, and on ASCII text it is ASCII lowercasing.
- `text::decode_utf16_lossy`: `String::from_utf16_lossy` is UTF-16 decoding
  with each unpaired surrogate replaced by U+FFFD.
