# vardiff

Variable difficulty control for mining channels, with its correctness proved in
Verus, and the tools with which a controller is tuned.

A controller counts the shares that a miner sends and says from time to time which
hashrate the channel should be reckoned with.

- `vardiff::kf_vardiff` filters the logarithm of the hashrate ratio with an
  extended Poisson-Kalman filter.
- `vardiff::classic` detects changes of the share rate with Bayesian online
  changepoint detection.
- `compare` compares two reports of simulated runs cell by cell: it reads them,
  guards against regressions, scores them and judges the whole.
- `scan` searches for parameters: a hill climb with random restarts, which is
  driven from outside, and the scores of what it tried.
- `float` is IEEE 754 arithmetic on bit patterns, proved to round to nearest even.
- `table` and `text` are a map in key order and what is needed of strings.

## Numbers

The library holds binary32 and binary64 numbers as bit patterns (`Single` and
`Double`), so every result is stated exactly. Exponentials and logarithms are not
computed here: the methods of a controller say of which numbers they are wanted,
and take them as arguments.

## Proofs

Contracts stand at the functions. What relates several of them stands in the
modules `laws`, and beside the functions that it is about.

`app/` is the program that compares two reports, and what a pool server or a
simulator needs around the controllers: a clock, the machine's numbers, logging.
