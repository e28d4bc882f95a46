# ce_query

Distributed queries over datasets of content-addressed shards, with the engine verified in Verus.

A dataset is a list of shards, each the bytes of some rows (one JSON object per line). A query is
evaluated over each shard on its own, on whichever host has it; the partial results are merged,
finalised, ordered and limited.

```text
SELECT <agg> [, <agg>]* | <col> [, <col>]* | *   FROM <dataset> [WHERE <pred>]
       [GROUP BY <col> [, <col>]*] [ORDER BY <col> [ASC|DESC] [, ...]] [LIMIT <n>]
```

## What is proved

Every function of `src/` has a contract that says what it returns for every input. Beyond that:

- **Partial results.** Merging commutes, whatever the rows are. Merging associates, an empty shard
  changes nothing, and neither the number of shards nor the order of arrival changes the answer,
  wherever sums are exact: integers within an `i128` for `SUM`, for `SUM` and `AVG` also any numbers
  with a common step (a power of two) whose magnitudes add up to at most 2^53 steps, and anything
  for `COUNT`, `MIN` and `MAX` (`algebra`). For `AVG` over integers the answer is the same far beyond
  that, as what rounding takes is kept (`whole`, `means`).
- **Whole runs.** A query for aggregates has the answer of all rows at once, for any sharding, any
  hosts and any failures that leave each shard a host that answers, or an honest majority of copies
  that meets the quorum. A query for rows is answered with rows that meet its condition, as many as
  the limit lets, sorted as asked; where any were left out it says so (`engine`).
- **Pruning.** A shard that the ranges of its columns rule out has no row that meets the condition
  (`plan`), so leaving it out does not change the answer (`engine`).
- **Placement.** The ranking of hosts is a permutation that depends on the set of hosts alone; when
  hosts leave, the others keep their places (`plan`).
- **Failover and agreement.** Hosts are asked in the order of the ranking, up to the attempt cap; a
  shard without an answer is an error, and so are fewer copies than the quorum asks for and an answer
  after the deadline. A majority of honest copies wins, and where all must agree a single lying host
  is found out (`engine`, `quorum`).
- **Order.** `ORDER BY` is the one stable sorted permutation; `LIMIT` is a prefix of it (`order`,
  `query`).
- **Joins.** The join by buckets has the rows of the join at once, for any number of buckets; its
  size is the sum over keys of the pairs; no value of a merged row is lost (`join`).
- **Language.** The tokens of a text write it back without its white space outside quotes; more white
  space between tokens changes nothing (`sql`).
- **Shards.** What `encode_shard` writes, `decode_shard` reads back; every row is dealt to one shard
  (`dataset`).

Floating-point numbers are held by their bit patterns, and their sums, quotients and decimal texts
are proved to be the nearest numbers (`float`, `decimal`).

## What is trusted

`serde_json` (reading an object, quoting a string), `sha2` (the digest), `hex` (decoding), and four
functions of the standard library: `from_utf8`, `String::push`, `str::to_lowercase` and the `Debug`
form of a string. Each stands behind one small function whose doc comment says what is claimed.

## Layout

- `src/`: the verified library.
- `tests/`: its tests.
- `app/`: the command line: files, the network, tokens, and the JSON forms of the library's types.
