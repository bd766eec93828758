# meetingtime

A Google Calendar meeting reminder: it fetches the day's meetings, shows a
desktop reminder shortly before the next one, and opens its join link a
minute before it starts.

- `src/` is the verified library (Verus): time arithmetic as chrono does it
  (`time`), which calendar events count and what meeting each describes
  (`calendar`), the OAuth redirect and token renewal rules (`auth`), the
  daemon's per-round decisions and their laws (`daemon`), the reminder text
  (`notify`), the `next` report (`next`) and the command set (`cli`).
- `app/` is the program around it: command-line parsing, HTTP and OAuth
  requests, files, desktop notifications and the daemon's loop.
- `tests/` runs the library on concrete values.
