# Loadpeek

A system monitor for Linux whose logic is verified with Verus.

- `src/` is the library: what procfs and sysfs say of a system, the rates between
  two samples, the last minute of them, what charts and tables show, and how
  settings are kept. Numbers are IEEE 754 doubles, held as their bit patterns, with
  arithmetic, parsing and formatting that are proved to round to the nearest.
- `tests/` runs the library on concrete systems and values.
- `app/` is the program around it: it reads the files, draws the windows and keeps
  the clock.

Every function of the library states what it returns. The contracts of four functions
are taken on trust, since their bodies are not the library's own: `String::push`,
`String::from_utf8_lossy` and `str::to_lowercase` of the standard library, and the
error number of a missing process in `libc`.

What holds of the library as a whole is stated by the public lemmas, each beside the
functions that it speaks of. Among them:

- a history holds a minute of samples in the order of time, whatever is observed;
- the points of a history of ordinary times, from 0 to a million million seconds, lie in
  the last minute, one for each sample and in order, end now, and break where a value is
  missing;
- a rate is one of a single device: it is known exactly where the device stayed, time
  went by and its counter did not go back, and none is made up where a device was
  replaced;
- the share of the CPU time that a process took is known by the same rule, process by
  process from one sample to the next;
- what is inspected in a chart stays at the moment nearest to it, or at the oldest that
  is left, until the history begins anew, with a generation that differs from every
  earlier one until the counter wraps;
- a physical sensor is listed once, and never where any of its aliases is rejected;
- every value that is drawn lies between the ends of its axis, of an axis that is not
  fixed, where the room above and below the values is finite and the powers of ten
  reach the numbers that they are found for;
- the table of processes shows what passes the filter, all of it, and in order;
- the file of the settings is replaced as a whole or not at all.
