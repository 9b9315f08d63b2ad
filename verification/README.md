# parts_shopper

Buys the parts of a bill of materials from several Serbian electronics
shops: for each part it downloads the shops' search pages, reads the
offered articles off them, lets the user pick one per shop, and prints the
baskets side by side with their totals.

- `src/` is the verified library: text columns and whitespace handling
  (`text`), a flat model of a parsed HTML page with its queries (`html`),
  the reading of each shop's result page (`shops`), the shops and their
  baskets (`cart`), and properties across functions (`laws`).
- `app/` is the terminal program around it: input, downloads, threads and
  the float arithmetic of prices.
