# tocsin

Log triage at ingest: page only on logs that matter.

Lines come in as text, as JSON lines or as OTLP/JSON. Their variable values are
masked, lines that look alike share a template, and each template is judged
once, by a service or by keyword rules. The verdict decides whether a line
pages someone, opens a ticket, or goes to the log.

## Layout

`src/` is the library. Every function in it is verified by Verus against its
contract; what it takes from outside crates (`regex`, `serde_json`) stands
behind a few trusted functions, each of which says what it claims.

| module | what it holds |
|---|---|
| `ingest` | lines out of request bodies and files |
| `template` | masking, status classes, templates |
| `judge` | verdicts and the keyword rules |
| `jev` | what the service is asked, and when it is asked again |
| `cache` | verdicts that were given before |
| `pipeline` | batches: which templates to judge, and what becomes of each line |
| `route` | page, ticket or log |
| `alert` | the board of templates and the alerts that it raises |
| `serve` | what the server takes in and what it refuses |
| `eval` | labeled files, and the report on them |
| `metrics`, `order` | scores, thresholds and rankings |
| `text`, `json`, `pattern` | texts, JSON values and regular expressions |

`tests/` runs the library. `app/` is the program around it: the command line,
files, the clock, HTTP, the clusterer, and everything in floating point. Scores
cross the border as the bits of single-precision numbers.

## Laws

Beside the contracts, each module states what holds of its functions together,
as proof functions whose names start with `law_`. Among them: lines of different
status classes reach the clusterer under different first words; between two
alerts of a template at least the cooldown passes, whatever rows are dropped
meanwhile, unless a shutdown forces the later one; whatever happens to the board,
each line to page for is told of once or still pending; a template is judged
once; a cache holds the verdicts of one model; a change of one byte in what the
service is asked with changes the fingerprint, and the key and what is stripped
do not; the area under the ROC curve counts pairs.

Some are part of a contract: that no choice of templates has a better F1 than
the ceiling is what `eval::ceiling` promises of any labeled lines.
