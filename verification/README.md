# unidpp-ops

The decisions behind three programs that run and keep a UniDPP deployment:

- `unidpp-ops` keeps its data: backup, verification, restore, retention, the
  nightly schedule, the on-prem bundle, the rehearsals, disaster recovery.
- `unidpp-stack` starts, stops and reports on its services and tunnels.
- `unidpp-run` runs the services of a bundle.

`src/` is a verified library. It never touches a file, a socket or a process:
it is handed what was read, and it hands back what is to be done, as plans of
steps. What a function promises stands in its contract; what holds of several
of them together stands in the proof functions whose names begin with `law_`.

| Modules | What they decide |
|---|---|
| `text`, `decimal`, `order`, `path`, `calendar` | texts, numbers, orders, paths, moments |
| `json`, `digest`, `http`, `archive` | documents, checksums, requests and answers, tar |
| `plan` | what is to be done, step by step |
| `listing`, `manifest`, `rewrite`, `environment` | directories, the operator manifest, environments |
| `backup`, `verify`, `restore`, `recover` | from the deployment to an archive and back |
| `schedule`, `bundle`, `drill`, `rehearse` | cron lines and retention, bundles, rehearsals |
| `services`, `stack`, `runner` | the service table and its orchestration |
| `seed`, `walkthrough` | the demonstration passport, question by question |
| `cli` | what the command lines ask for |
| `effects` | what plans do to files, and what the commands keep of them |

Two crates are called from the library, `serde_json` and `sha2`; the functions
that call them say in their comments what is taken on trust of them.

`app/` is the rest: it reads and writes, runs the tools and asks the services.
It renders environments with the family's `unidpp-config` library.
