# Fraud scoring by exact nearest neighbours

A transaction is turned into a vector of fourteen features and looked up among
labelled reference vectors: the labels of its five nearest neighbours decide
whether it is approved.

`src/` is the verified library:

| Module | What it holds |
|---|---|
| `http` | requests at the start of a buffer |
| `json` | payloads of `POST /fraud-score`: their grammar, the documents that they are written as, and the laws of both |
| `normalize` | features of a payload; the calendar |
| `specialist` | the index: partitioned k-d trees, their file format, building, loading and searching them; `specialist::exact` proves that searches find nearest neighbours, and `specialist::built` that they do so in every index that is built here |
| `ivf` | the inverted-file index, by the order of its distances |
| `references` | reference rows in compressed JSON |
| `server` | connections of the API server as state machines |
| `balancer` | upstreams in turn, finding one for a connection, and handing it over |
| `evaluation` | test data with known outcomes, and the tally |
| `settings` | numbers that are set from outside |
| `bytes`, `decimal`, `order` | shared ground |

`app/` is the program around it: sockets, files, threads, and the arithmetic on
floating-point numbers.

```text
rinha2026                                    serve the API
rinha2026 lb                                 balance the load
rinha2026 preprocess <references.gz> <out>   build an index
rinha2026 verify <index> <tests> [probes]    check an index
```
