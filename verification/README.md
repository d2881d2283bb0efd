# Registry audit proxy

A proxy in front of the npm registry that answers the audit requests of Yarn Classic and of
older versions of pnpm, whose endpoints the registry has retired. It asks the registry's bulk
advisory endpoint instead and puts the answer into the form that these clients expect. All
other requests are passed on to the registry.

`src/` is the library, verified with Verus; `app/` is the server around it.

| Module | What it holds |
| --- | --- |
| `text`, `table` | texts, and lists of key and value pairs |
| `json`, `codec`, `arrangement` | JSON documents, their text, the order of their fields |
| `body` | request bodies, packed with gzip or not |
| `audit` | audit requests: what is installed, and by which paths it is required |
| `audit_laws`, `walk_laws`, `chain_laws` | what holds of every audit, and of following requirements |
| `versions` | the first published version that is not vulnerable |
| `report`, `report_laws` | the report on an audit, and what holds of it |
| `proxy` | routing, what the registry is asked for, what is replied |
