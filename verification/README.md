# rpow_miner

A miner for the rpow2 mint. `src/` is a library whose functions carry contracts
that Verus proves; `app/` is the program around it: environment, network,
threads and messages.

| module       | what it holds                                                  |
|--------------|----------------------------------------------------------------|
| `pow`        | zero bits, messages, SHA-256, when a nonce solves a challenge  |
| `miner`      | one worker's search through its nonces                         |
| `found`      | the flag and the slot by which workers tell of a solution      |
| `solver`     | a challenge shared by several workers, and its solution        |
| `stats`      | hash totals                                                    |
| `shared`     | hash totals that many workers add to                           |
| `difficulty` | the log of recent mints, by difficulty                         |
| `session`    | what an account does after each attempt                        |
| `fetch`      | fetching the next challenge ahead of time                      |
| `accounts`   | the list of accounts and their shares of the threads           |
| `api`        | addresses, requests and what is shown of the answers           |
| `hex`        | hexadecimal text                                               |
| `text`       | decimal numbers, trimming, splitting, cutting                  |

Settings of the program:

- `RPOW_ACCOUNTS`: one cookie, or several separated by `|||`, or one to the line.
  Empty pieces and those that begin with `#` are left out.
- `RPOW_THREADS`: the number of threads in all; the number of CPUs where it is
  not a number.
- `RPOW_PROBE`: `1` asks the API for what it offers before mining.
