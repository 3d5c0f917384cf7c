# exchange

A limit-order exchange: a price-time priority order book, the matching
engine's answers to the messages it receives, and the request builders and
password handling of the HTTP layer.

- `src/` is the library, verified with Verus:
  - `types` — the messages exchanged between the HTTP layer and the engine;
  - `decimal` — fixed-point prices and quantities (8 decimal places), their
    parsing from text and their shortest text form;
  - `levels` — one side of the book as price levels (a `BTreeMap` from
    price to the queue of orders resting at it) and its priority order;
  - `book` — the order book, its matching, and the laws it keeps;
  - `engine` — answering engine messages;
  - `requests` — what the order routes send to the engine;
  - `auth` — bcrypt hashing and checking of passwords;
  - `replies` — the status and body each HTTP route answers with.
- `app/` is the engine process: it reads requests from Redis, calls the
  library, and publishes the answers as JSON.
- `tests/` exercise the library on concrete values.
