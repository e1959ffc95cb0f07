# trading_terminal

A simulated trading terminal whose logic is verified with Verus.

- `src/` is the library. Prices, quantities and profits are binary floating-point numbers of 64
  bits; their arithmetic (`double`, `rounding`) is carried out on integers and proved to round to
  nearest, so that every figure in a contract is exact. `market` and `terminal` hold the state and
  what orders, keys and time do to it, `session` the course of the event loop, `panels` and
  `screen` what is shown and where, `laws` what holds in every state, and `accounting` how fills,
  trades, positions and totals agree.
- `app/` is the program around it: the terminal, the keyboard, the clock and the random numbers.
- `tests/` runs the library on concrete values, in part against the machine's own arithmetic.

Keys: Tab, Right and Left switch the instrument, Up and Down (or `+` and `-`) change the quantity,
`b` buys, `s` sells, `c` closes the position, and `q` or Esc ends the session.
