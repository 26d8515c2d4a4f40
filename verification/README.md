# rlike

A column-oriented DataFrame with R-like data types (NA-able integers, numbers,
booleans, sizes, factors and strings), verified with Verus.

- `src/types`: the R-like value types, aggregates over them (`Agg`, `Do`) and
  the numeric traits the aggregates are generic over.
- `src/data_frame`: columns, factors, the DataFrame and its accessors, binding,
  row keys and sorting, filter/sort/select queries, grouping, aggregation,
  pivots, do-queries, joins, row indexes, the layout of a printed table, and
  the pure parts of reading and saving tables.
- `tests`: tests of the library on concrete values.
- `app`: the parts that need I/O or floating point: reading and writing CSV
  (optionally gzipped) files, saving, the text of numeric cells for printing,
  and the floating-point aggregates.

Every function in `src` carries a contract that Verus checks. Calls into the
`rayon` crate (a parallel sort) stand behind a wrapper whose contract is
trusted; so does the upper-casing of text by `std`.
