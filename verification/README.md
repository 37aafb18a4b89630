# vaultsync

Sync of a plain directory (a vault) with an object store: `status`, `push`,
`pull`, `check` and `repair`.

The library under `src/` holds every decision of the program and is verified
with Verus. The program under `app/` does the input and output around it: it
reads arguments, config files and the vault, and carries out what the library
decides.

| Module | What it states |
| --- | --- |
| `entity`, `text`, `sort`, `error` | keys, texts, the order of keys, errors |
| `ignore` | which keys a pattern set ignores |
| `local` | the walk of a vault, and the guards of reads and writes in it |
| `json`, `manifest` | the inventory manifest: how it is written and read back |
| `store` | the trait of object stores, and the session that records requests |
| `inventory` | loading, bootstrapping, committing and repairing the inventory |
| `plan` | what is to be done with each key |
| `exec`, `progress` | the order of a run, its checks, its report and progress |
| `config` | how a config file and the environment become settings |
| `cli` | what each command asks of the store, shows and returns |
| `laws` | what holds across the modules |
| `memory` | what the protocols come to over an in-memory store |

A contract on code that talks to a store speaks of the trace of its session:
the requests made and what was answered. Nothing is assumed of the answers,
but each is one that the store gave: `runs` ties the trace to the calls of the
store's methods, so that what a store promises of them holds of the trace.

What is believed without proof stands in three files. `text` and `manifest`
take string formatting, lower-casing and UTF-8 decoding from the standard
library; `json` takes reading and quoting JSON from `serde_json`.
