# back_test

A rolling-window back-tester for rebalancing and buy-and-hold stock
strategies.

- `src/` is the verified library: the schedule of rolling windows
  (`rolling`), the ranking of window results by final capital in the IEEE 754
  total order (`capital`), and the thinning of a ranking so that reported
  windows lie more than 21 days apart (`indices`), with the laws that tie them
  together (the first window kept is the best, or the worst, of all).
- `app/` is the command-line program around it: spreadsheet input and output,
  market-data download, and the portfolio simulations, whose arithmetic is
  floating point.
