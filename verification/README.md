# Github Graph

Statistics of the issues and pull requests of GitHub repositories: how many are open
over time, how many were closed, how many were opened and closed per day over a rolling
window, their stacked shares, and how old the open issues of each month are.

The computations live in `src/`, a library verified with Verus. Its modules:

- `model`: issues, pull requests and the times the statistics read.
- `database`: the stored issues, keyed by repository and number, and their saved form,
  sorted by key.
- `fetching`: how fetched issues and pull requests enter the database.
- `events`: openings and closings in time order, and the open-issue curve.
- `times`: the closed-issue curve.
- `rolling`: daily openings or closings over a rolling window.
- `bars`: two daily series as stacked bars and their difference.
- `months`: issues grouped by calendar month and counted by age.
- `grid`: grid lines and labels of a time axis.
- `collections`: the values of a hash map, and a fact about sequences with the same elements.
- `calendar`: UTC days and the calendar steps taken with chrono.
- `statistics`: everything the window plots, computed at once.

## Maps

egui's `ahash` hash maps would be the obvious home for the issues and grid lines. Verus's
specification of `std::collections::HashMap` holds only for hashers it knows to be valid,
and for keys whose hashing and equality it knows; `ahash`'s hasher is not among them, and
neither is a key made of a `String` and a number: with either, Verus cannot show even that
a map holds one entry after one insert into an empty map. So the library keeps:

- the stored issues in `database::IssueDatabase`: a `Vec` of entries whose keys are distinct
  (a type invariant), looked up by a linear scan and saved sorted by key with an insertion
  sort, both verified;
- the grid lines (`grid`) and the open issues of the month walk (`months`) in std's
  `HashMap` with its default hasher and integer keys, which Verus specifies.

`app/` holds the program around it: fetching from GitHub, reading and writing
`data.json`, and the plot window.

## Update data

Put a GitHub token into a `.token` file and run the program without a `data.json`: it
fetches the issues and writes the file, then shows the plots.
