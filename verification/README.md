# checkbom

Checks a bill of materials made by circuit designers (BOM1) against the one
exported by purchasing (BOM2). Both are tables with the columns part code
(Odoo), references, value, name and quantity, separated by tabs or commas.

    checkbom tz bom1.csv bom2.csv     # tab-separated BOM1, comma-separated BOM2

The checks run in turn and stop at the first that finds errors:

1. references: within each BOM no reference of a fitted entry repeats, and
   both BOMs hold the same references (entries whose value holds `DNP` are
   not fitted and are only listed at the end);
2. names: the references listed under one name in a BOM are named alike in
   the other BOM;
3. part codes: entries of one name share one part code, in each BOM and
   across the BOMs;
4. quantities: each entry's quantity equals its number of references, and
   matching name lists add up to the same total;

and then the two BOMs are printed side by side.

Layout: `src/` is the library, verified with Verus (`rows` reads table rows,
`index` indexes a BOM, `check` holds the checks, `format` the printed lines,
`laws` properties proved of them, `config` the command line, `search` line
and word search, `strmap` and `text` the building blocks); `app/` reads the
files with the `csv` crate and prints; `tests/` runs the library.
