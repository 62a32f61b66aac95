# vecview

vecview shows SVG, Typst, Markdown and PDF documents in a terminal, over the kitty protocol, Sixel
graphics or the Linux framebuffer, and follows their changes.

`src/` is a Verus library with the parts that decide and compute. Its functions carry contracts that
Verus proves:

- `page`, `path`, `svg`: what a page is made of and in which order it is painted
- `raster`: sizes of a drawing, packing and averaging of pixels, painting over and mixing
- `backend`, `kitty`, `marks`, `sixel`, `framebuffer`, `terminal`, `cells`: how an image gets onto a
  screen
- `keys`, `help`, `config`, `view`, `copy`, `session`: how the viewer answers to keys, mouse and time
- `source`, `typst`, `worker`: the files of a document, its compiler, and the drawing thread
- `text`, `encoding`, `codec`: text, base64, and image files

What an outside crate computes stands behind small functions marked `external_body`. Their contracts
are relied on, not proved, as are those of `String::push` and of `std::str::from_utf8`. `app/` is the
program around the library: the terminal, files, processes, the GPU, pdfium, and all arithmetic on
floating point numbers.
