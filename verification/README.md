# bkb — booklet builder

Splits a PDF into booklets of folded A4 sheets (four pages a sheet) and lays
out each booklet's pages two by two on the sheet sides, for printing on both
sides or, with the paper turned by hand, as a file of backs (`po1`, printed
first, last sheet first) and a file of fronts (`po2`). Every page is printed
exactly once, in both bindings; covers can be dropped (only the pages between
them are printed) or kept (the front cover opens the first booklet and the
back cover closes the last, each with a blank page behind it).

- `src/` — the verified library (Verus):
  - `booklet.rs`: the binding rule, how sheets are shared out among booklets
    (`calc_booklet_sheets`), and which slots of the laid-out document each
    booklet holds (`booklet_plan`);
  - `pdf_creator.rs`: which pages share a sheet side (`calc_page_on_sheet`),
    which document and side each pair goes to, the sheet sides of a whole
    document (`document_sheet_sides`), and the halves of a side;
  - `naming.rs`: output file names (`<name>_NN.pdf`) and page marks;
  - `cache.rs`: a text cache for page boxes inherited from the page tree,
    emptied for the first booklet of a run;
  - `tasks.rs`: which rows of a task list a start request runs, which row a
    new input file edits, and the binding rule of a row;
  - `paths.rs`: the standard library's path functions used above.
- `app/` — the program: reads the PDF and writes the booklets with `lopdf`,
  asks for the input with `native-dialog` when run without arguments.
- `tests/` — tests of the library on concrete values.
