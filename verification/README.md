# internetarchive_core

Core building blocks for an Archive.org client, written in Verus. The
library's own functions carry contracts that Verus proves; the calls into std
and the outside crates stand in small trusted `external_body` wrappers whose
contracts are taken as given (the value converters in `interop` have none).

- `identifier` — identifier validation (`validate_s3_identifier`).
- `utils` — path normalization, header quoting, `|`-separated glob lists,
  deletion of tagged members from JSON documents.
- `auth`, `session`, `search` — request authentication and session/search
  settings.
- `item` — items, files and the file selection rules (glob matching through
  the `glob` crate).
- `account`, `catalog` — account records and catalog tasks (times read with
  `chrono`).
- `config` — recursive merging of configuration maps.
- `iarequest` — metadata preparation, JSON Patch construction (through
  `json-patch`) and `x-archive-*` headers (values encoded with `urlencoding`).
- `json`, `strmap`, `strings` — the JSON document type, the ordered string map
  that stands for `BTreeMap<String, _>` and `serde_json::Map`, and string
  helpers, each with its mathematical model.
- `interop` — the points where documents meet `serde_json` and `json-patch`.

`app/` converts between the core types and `serde_json::Value`,
`BTreeMap<String, String>` and `f64` configuration values, and gives the error
types their `Display` and `std::error::Error` impls.
