# zkleak

How many bits does the cycle count of a zkVM guest reveal about its private input?

A sweep maps each secret to the cycles that the guest takes on it. The library
computes what that mapping reveals, with proofs in Verus that it computes just that.

## Layout

| module | holds |
|---|---|
| `natural` | naturals of any size |
| `binary_log` | binary logarithms in fixed point, with 48 binary places |
| `partition` | the classes of secrets that take the same number of cycles |
| `leakage` | Shannon and min-entropy leakage of a partition |
| `buckets` | the cheapest padding of the costs into a number of buckets |
| `frontier` | what each number of buckets costs and still reveals |
| `scale` | the leakage of batches of independent items |
| `weight` | prior weights as exact naturals |
| `text`, `csv` | reading a sweep |
| `report`, `options`, `selftest` | what the program prints, and what it is asked |
| `laws`, `padding_laws`, `batch_laws`, `text_laws`, `csv_laws` | what holds of every sweep, padding, batch and text |
| `convexity` | convexity of x log x, and the limits on entropies that follow |
| `selftest_laws` | that every check of the self-test holds |

`app/` is the command line around the library: it reads files and prints.

## Numbers

Weights are naturals and cycle counts are integers, so partitions, overheads and
probabilities are exact. Quantities in bits are fixed-point numbers that count
units of 2^-48 bits. `binary_log::lg(x)` is `2^48 * log2(x)` rounded down, and
every formula in bits is stated over it; `laws::law_accuracy` and
`batch_laws::law_batch_accuracy` say what the rounding amounts to.

## Input

Comma-separated text with the columns `secret,cycles[,weight]`. A header is
optional, blank lines and lines that start with `#` are skipped, and a weight
that is left out is one. A weight is read as a floating-point number of double
precision, whose value is then taken exactly; it has to be greater than zero. With
an infinite weight there are no shares to speak of, and the reports say so.
