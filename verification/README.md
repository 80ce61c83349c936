# oracle_bot

A paper-trading bot for short up/down prediction markets (5 minute, 15 minute
and hourly windows on BTC, ETH, SOL and XRP). It follows an oracle price feed
and the exchange's order book, discovers the market windows around the current
time, captures each window's opening price, and reports the trades its signal
engine would take.

The library under `src/` is verified with Verus; every public function carries
a contract. Properties that span calls are stated and proved as proof functions
(`lemma_*`) over the specification functions the contracts use, for instance
over a whole run of ticks, market messages, reconnect attempts or signal
reports.

- `text`, `binary64`, `map`, `json`: decimal integers and trimming, IEEE 754
  comparison on binary64 encodings, a string-keyed map, and the JSON value the
  library reads.
- `timeframe`, `gamma`: window arithmetic, market slugs, the catalogue requests
  of a discovery round and how an event document becomes a `MarketWindow`.
- `orderbook`: best bid and ask per token from `book`, `price_change` and
  `best_bid_ask` messages.
- `state`: latest and recent ticks, market windows with their opening prices,
  the order book, and what the signal engine is given to weigh.
- `chainlink`, `clob_ws`: how feed frames become ticks and market messages,
  the subscription frames, which tokens still need a subscription on a
  connection, and the reconnect back-off.
- `throttle`: the same signal is reported at most once every two seconds.
- `config`, `cli`: settings with their defaults and validation, and the
  benchmark's options.

`app/` is the program around it: configuration file, websockets, HTTP,
logging, the task loops, the decoding of JSON frames (which reads numbers as
floats) and the signal engine's floating-point arithmetic. Started with
`bench-hot-path [--iterations N] [--sample-every K]` as its first arguments, it
runs the hot-path benchmark instead of the bot.
