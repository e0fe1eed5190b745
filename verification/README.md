# cli_ob

An order book viewer for Binance Futures, with its logic verified by Verus.

`src/` is the verified library:

- `binary64`, `rounding`, `decimal`, `natural`: IEEE 754 binary64 numbers on
  integers, correctly rounded, and their reading from decimal text.
- `levels`, `book`, `impact`: the two sides of a book, snapshots and updates, best
  prices, and what a market order would pay.
- `trades`, `depth`, `state`: recent trades and their rate, sampled depth, and the
  state that a viewer reads.
- `micro`: what measures of the microstructure are told, for whoever takes them.
- `sync`, `clock`: bringing the book in step with the exchange, and latency.
- `feed`, `json`, `text`, `ticks`, `picker`, `config`: messages and addresses,
  price steps, the catalog of symbols with their tickers, and what a user enters.
- `laws`: what holds of the library as a whole.

`app/` is the program around it: sockets, requests, threads and the terminal.
`tests/` runs the library.

Prices and quantities are `Binary64` values. `Binary64::from_bits(x.to_bits())`
makes one of a hardware number, and `to_bits` gives it back.
