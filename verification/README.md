# chrond

A cron daemon with missed-job catch-up, overlap control, queryable structured
run history, built-in log rotation, Prometheus metrics and ntfy alerting.

- `src/` is the library: parsing, scheduling, history queries, rotation,
  metrics, the reports of the command line and the decisions of the daemon loop.
  It is written in Verus; every function states in its contract what it returns
  (but for the reading of the clock and for `Notifier::notify`, of which nothing
  can be promised), and the laws that hold across functions are public proof functions at the end
  of each module.
- `app/` is the `chrond` program around it: files, processes, sockets, threads
  and the clock.
- `tests/` runs the library on concrete values.

| module | what it holds |
| --- | --- |
| `cronexpr` | cron expressions and the next occurrence of a schedule |
| `crontab` | crontab files, annotations, durations and sizes |
| `scheduler` | which occurrences a pass runs and which it records as missed |
| `daemon` | passes over all jobs, overlap, pauses, log lines |
| `runner` | environment, timeout and outcome of a job's process |
| `history` | run records, queries, persisted state |
| `logrotate` | the steps of a log rotation |
| `metrics` | the registry, its text form and the endpoint's responses |
| `alert` | which outcomes notify, and the messages |
| `cli`, `report` | options of the commands, and what they show |
| `time`, `text` | calendar times (over `chrono`) and text as characters |
