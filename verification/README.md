# Trillian

An RDF triple store with a SPARQL engine, verified with Verus.

- `src/` is the library. Every public function has a contract, and the contracts
  are proved.
- `tests/` runs it.
- `app/` is the program around it: files, the HTTP endpoint, arithmetic on doubles,
  the benchmark.

## The library

| Module | Contents |
| --- | --- |
| `hypertrie::dictionary` | terms and their identifiers, keys, namespace folding, the stored form |
| `hypertrie::csr`, `index`, `permutations` | flat arrays, a delta over them, the three orders of the triples |
| `hypertrie::relation` | the pairs of one predicate |
| `hypertrie::planner`, `stats` | the order of joins and the estimates behind it |
| `hypertrie::executor`, `engine`, `join_laws` | both ways of joining, and why they agree |
| `hypertrie::rows` | tables of identifiers |
| `hypertrie::export`, `turtle`, `turtle_terms`, `dump_laws`, `turtle_laws` | N-Triples and Turtle |
| `hypertrie::query`, `snapshot` | the store and its snapshots |
| `wal` | the log of updates |
| `inference`, `inference_laws` | inference by rewriting queries, and what it finds |
| `sparql::algebra`, `sse`, `reader` | queries, read from S-expressions |
| `sparql::numbers`, `values`, `expr`, `sorting` | expressions, their values and their order |
| `sparql::tables`, `bgp`, `paths`, `bind`, `grouping`, `modifiers`, `solve` | evaluation |
| `sparql::table_laws`, `pattern_laws`, `solve_laws` | what patterns, joins and unions mean |
| `sparql::json`, `service`, `run`, `update` | answers, requests, queries and updates from text |
| `cache` | answers that were given |
| `synthetic` | test data |
| `text`, `bytes`, `order`, `sorted`, `idset`, `fxmap`, `interner` | what the others build on |

A contract speaks of mathematical values: a store is the sequence of its keys and
the set of its triples, a table is a sequence of rows, an answer is a function of
the store and the query. Public proof functions named `law_...` state what holds
across functions: that what was written can be read back, that both joins give the
solutions and nothing else, that inference finds what the rules entail, that a limit
does not change an answer, that an update survives a restart.

## What is trusted

Calls into other crates stand behind small functions whose contracts are believed:
`rustc-hash` maps (`fxmap`), the `string-interner` (`interner`), the `lru` cache
(`cache`), `rand` (`synthetic`), `regex` (`sparql::expr`), `spargebra`
(`sparql::run`), `serde_json` (`sparql::service`), and some functions on text of the
standard library (`text`, `bytes`). Arithmetic on doubles is handed in by the caller.

## Running

```text
trillian build <input.nt|input.ttl> <snapshot.bin>
trillian load <snapshot.bin> [port]
trillian profile <input> <query.rq> [runs]
trillian bench [data.nt]
trillian [input] [port]
```

The endpoint has `/sparql`, `/stream`, `/count` and `/update`. With `infer=rdfs` a
query also finds what follows from `rdfs:subClassOf`, `rdfs:subPropertyOf`,
`rdfs:domain` and `rdfs:range`. `TRILLIAN_MAX_ROWS` bounds the rows of a result,
`TRILLIAN_MAX_BODY_BYTES` the size of a request.
