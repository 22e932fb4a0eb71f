# referral_list

Referral statistics for a mission office: how fast referrals are contacted,
who has been found and taught, weekly and daily reports per zone and area,
a leaderboard of teaching areas, and the schedules on which reports go out.

- `src/` is the library, verified with Verus: the statistics drawn from a
  person's timeline, the working-minute response times, the per-person cache,
  the choice between a stored people list and a fresh one, the reading of the
  login page's state token, the reports and their text, the leaderboard, the
  schedules and the command menu. Each public function states its result in
  its `ensures`; the `law_*` proof functions state properties that span
  several calls.
- `tests/` runs the library on concrete values.
- `app/` is the program around it: the menu, the HTTP session with the
  referral manager, the files in the working directory, the clock and the
  machine's time zone (the library takes local readings as plain values),
  and the JSON forms of the library's values.

The program reads `CHURCH_USERNAME`, `CHURCH_PASSWORD`, `MISSION_ID` and
optionally `WORKING_PATH` from the environment.
