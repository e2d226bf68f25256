# mc_console

A web console for Minecraft (Paper) servers, built around a library whose
logic is verified with Verus.

- `src/` — the verified library (`mc_console`):
  - `text` — `name:value` record files (lines, first-colon split, later record wins), decimal numbers;
  - `digest` — SHA-512 digests in lower-case hexadecimal (the one call into `sha2` is trusted);
  - `auth` — the password list, login, registration and session tokens;
  - `paths` — joining paths and taking the last name of a path;
  - `server` — one server: its directory, start command and running state;
  - `manager` — all servers: installations, the build cache and download URIs;
  - `console` — the new-server form and the newest-first order of versions.
- `app/` — the rocket web application: routes, templates, files, processes and
  the PaperMC API, calling the library for every decision.
- `tests/` — tests of the library on concrete values.
