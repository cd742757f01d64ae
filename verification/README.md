# rbasefind

Finds the base address at which a flat 32-bit binary image is meant to be loaded.

An image that holds strings and pointers to them gives its base address away: loaded there,
many of its strings lie where its pointers point. The search tries every multiple of an
offset, counts for each how many strings a pointer hits, and reports the best.

- `src/` is the library, verified with Verus: the settings (`config`), the strings and the
  pointers of an image (`strings`, `pointers`), the split of the address space (`interval`),
  the scan of one interval (`scan`) and of all of them (`cpu`), the search on a compute
  device (`job`, `opencl`), the choice between the two (`engine`), the queue of matches
  (`heap`) and the report (`report`, `text`).
  `run` goes from the bytes of an image to the lines of the report.
- `app/` is the command line, the file, the threads with their progress bars, and OpenCL.
- `tests/` runs the library.

Each function states what it returns. The public proof functions state what holds of the
library as a whole, among other things that

- the intervals cover every candidate address, whatever the number of threads;
- the search finds exactly the candidates with hits, as often as intervals hold them;
- images that are joined keep their strings;
- the search on a device finds the same matches as the search on the CPU;
- where the device fails, the lines are those of the search on the CPU;
- a base address that explains every string is never beaten by another;
- what is found decides what is listed, and in what order.
