# fraud_knn

Scores card transactions by their nearest neighbours: a request becomes a vector of
14 features, an inverted-file index finds the five reference transactions nearest to
it, and the share of frauds among them is the fraud score. Three or more frauds of
five block the transaction.

`src/` is the library, verified with Verus.

| module | subject |
| --- | --- |
| `scan`, `calendar`, `models`, `vectorize` | reading a request, timestamps, features, the response |
| `spacing`, `respacing` | white space between the tokens of a request |
| `ieee`, `quantize`, `fold` | order of floating-point patterns, exact quantization, running totals |
| `nearest`, `topk`, `rank` | keeping the nearest of a stream, ranking by distance |
| `index`, `encode` | the index and its file format, both ways |
| `search`, `warmup` | the two-phase search, and searches before requests arrive |
| `references`, `seeding`, `kmeans`, `cluster`, `recall`, `assembly` | building an index from references |
| `forest` | random forests in flat arrays |
| `chance` | random numbers and parallel work, as `rand` and `rayon` provide them |

Floating-point numbers occur in the library as bit patterns only. It compares and
quantizes them exactly; sums, products and distances are functions that the caller
passes in.

`app/` holds the programs: the HTTP service, and `preprocess`, which builds the index.
`tests/` holds the tests.
