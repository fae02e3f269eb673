# disk_analyzer

A disk-usage analyzer whose computations are verified with Verus.

- `src/sizes.rs`: size labels ("12 GB", "3 MB", "999 KB", "17 B").
- `src/percent.rs`: the share of a directory's size that each entry takes,
  in `rust_decimal` arithmetic, rounded to one decimal place.
- `src/report.rs`: the text of the printed report and the table cells.
- `src/navigation.rs`: the browsing state and its "Back" history.
- `app/main.rs`: the FLTK window, directory walking and size measuring.
