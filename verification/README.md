# cloudmon-metrics

A Grafana JSON datasource over Graphite. It turns Graphite series into binary metrics ("is the
sample below, above or at the threshold?") and into weighted expression metrics over them.

- `src/` is the library, verified with Verus: how the configuration is resolved (`config`,
  `template`), which series a dashboard request needs (`grafana`), what Graphite is asked for
  (`graphite`, `clock`), how samples are held against thresholds (`metric`, `float`), the table of
  all samples (`table`, `order`), expression metrics (`expression`), and the frames of the answer
  (`frame`, `answer`). `query` puts a request together from its beginning to its answer.
- `app/` is the service: it reads `config.yaml`, listens for Grafana and talks to Graphite.
- `tests/` runs the library on given values.

Four crates are called from the library, behind items whose contracts are believed, not proved:
`chrono` (reading and writing times), `evalexpr` (boolean expressions), `new_string_template` and
`regex` (query templates). What is believed of them is written above each of those items.
