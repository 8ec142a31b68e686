# traffic

A report on the traffic of a user's GitHub repositories over the last two
weeks: unique visitors per repository, most visited first, with the trend of
the daily unique visitors.

- `src/` is the verified library (Verus): `views` (visits of a day and the
  trend), `output` (order and layout of the report), `github` (which requests
  are made and how the answers are paired with the repositories),
  `join_all_res` (waiting for a list of requests, round by round), `clock`
  (today's day from the system clock), `text` (numbers and padding).
- `app/` is the command: credentials, HTTP requests, JSON, printing.
- `tests/` runs the library on concrete values.
