# xlsx_merge

Tools for translation sheets (worksheets whose row 1 is a note, row 2 the column
headers — a `key` column, a `备注` note column and one column per language — and the
rows after it the entries): merge a column from a reference sheet, filter a sheet
by keys and columns, and fill an empty language column by machine translation.

- `src/` is the verified library (Verus): the text model (white space, trimming,
  lines, splitting), reading a grid of cells into workbook data or a keyed table,
  merging and filtering, the checks of the web forms, the translation run (which
  rows to send, in which chunks, and how answers are written back), the handling
  of the model's reply, and the board of translation jobs.
- `app/` is the web service around it: the actix-web handlers, reading workbooks
  with calamine, writing them with xlsxwriter, and the HTTP exchange with the
  chat completion endpoint.
- `tests/` exercises the library on concrete sheets and forms.
