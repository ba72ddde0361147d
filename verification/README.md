# order_book

A limit order book and matching engine whose behaviour is stated in contracts and
proved by Verus: prices and quantities on an integer tick and lot grid, price-time
priority, stop orders, self-trade prevention, and allocation policies and level
stores that can be chosen independently.

## Layout

| Module | Role |
|---|---|
| `instrument` | `Price`, `Qty`, `Ticks`, `Notional`, the grid of an `InstrumentSpec`, and admission |
| `types` | `Order`, its builder, order types, names, and `PriceLevel` |
| `allocation` | `MatchingAlgorithm` and its three policies: first in first out, pro rata, time pro rata |
| `algorithms` | the same policies on whole orders |
| `order_queue` | the queue of a level, a linked list in a slot map that all levels share |
| `storage` | `OrderBookStore` and its three stores: ordered map, hash map, dense ladder |
| `stops` | queues of waiting stops |
| `order_index` | where each live order is |
| `orderbook` | `OrderBook`: resting, cancelling, reading |
| `matching` | `submit`: sweeping, fill or kill, stops and their cascade |
| `arena` | a slot arena with generational handles |
| `model` | what a book is and does, in mathematical terms |
| `laws`, `agreement` | what holds of every book, of every policy and of every store |
| `names` | that a book goes by the names of orders and not by their identifiers |
| `streams` | what holds of a book through a whole stream of orders |
| `sums`, `test_helpers` | finite sums; short names for tests |

## What is stated

`model::BookState` holds the queues of both sides, the waiting stops, the last
trade price and two counters. `OrderBook::state` is the state that a book stands
for, and `OrderBook::wf` is the invariant that every operation keeps. The contract
of `submit` says that the report and the state afterwards are those of
`model::submitted`; `add_order`, `cancel_order` and the readers are stated over
the same state. A refused order leaves the state as it was.

Each policy has a spec function for the fills that it hands out, and every policy
meets `allocation::conforms`: fills in queue order, none of them empty, none above
what its maker holds, whole lots, and together as much as there is to give.

The laws follow from these contracts. Nothing is lost in an execution, depth moves
by what rested, traded and was cancelled, and trades print at the maker's price and
never between two orders of one client. A submission crosses no book that was not
crossed, so a book that is used by submitting and cancelling alone never is;
`add_order` rests an order wherever it is told to. No triggered stop is left waiting
by a submission that succeeds, and the stops that it fires were waiting before it.
Everything stays on the grid, and cancelling every live order drains the book. Over
a whole stream of orders stores are interchangeable, and policies decide who fills
but not how much.

## What is taken on trust

Of `rust_decimal`: what `mantissa`, `scale` and `from_i128_with_scale` do. Of
`slotmap`: the contents of a `SlotMap` under `insert`, `get`, `get_mut`, `remove`,
`len` and `clone`, and equality of its keys. Of the standard library: three reads
of `BTreeMap`, and nothing at all of the clock. Each stands behind a function whose
comment says what is claimed.
