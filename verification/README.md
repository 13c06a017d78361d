# ranker

Ranks a set of items (the images of a folder) by pairwise comparison: the
user is shown two items at a time and picks the better one; the outcomes are
turned into Elo ratings.

- `src/` is the library, verified with Verus:
  - `bitmask.rs`: growable bit sequences stored in bytes;
  - `project.rs`: a project's items and its two square bit matrices (which
    pairs were compared, and who won in the current window), and how a project
    is brought in line with a new list of item names;
  - `ranker.rs`: the projects, the window of mutually uncompared items, the
    choice of the next pair, and the rating updates of a finished window;
  - `cache.rs`: the byte format in which the matrices are stored;
  - `table.rs`: the `name: path` table of project folders;
  - `items.rs`: the CSV items file (through the `csv` crate);
  - `listing.rs`: which files of a folder count as images;
  - `random.rs`, `error.rs`: random orders and picks, and the errors.
- `app/` is the terminal program around it: files, the terminal interface,
  and the floating-point Elo arithmetic.
- `tests/` exercises the library.
