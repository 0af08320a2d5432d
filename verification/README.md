# blaise

A local public transit engine: GTFS schedule data, fuzzy name search and
round-based (RAPTOR) journey planning, with its logic verified by Verus.

## Layout

- `src/` — the verified library.
  - `time` — times of day and durations, `HH:MM:SS` parsing and rendering.
  - `text` — character-level parsing helpers.
  - `fuzzy` — the edit distance that name search ranks by.
  - `gtfs` — the rows of a feed's tables, the feed in memory, file names.
  - `repository` — the flat in-memory repository, its lookups, the id
    index, and `load_gtfs`, which builds a well-formed repository from a
    feed.
  - `raptor` — the search: working memory (`Allocator`), discovery of the
    stops of a location, route and footpath exploration, path
    reconstruction, itineraries, and `Raptor::solve`.
  - `bitmask` — fixed-length flag sets kept in a `bitvec` bit vector.
- `app/` — what the library leaves to its caller: reading feeds from disk
  (zip archives, CSV), coordinates and distances, the spatial index and
  walking times, and ranking names by similarity.
- `tests/` — tests of the library.

There is no `engine` or `router` module: journey planning is `Raptor`'s
alone, and the HTTP server around it is not part of this library.

## Main guarantees

- `Repository::load_gtfs` returns a well-formed repository (every stored
  index points into its table; every trip of a RAPTOR route calls at exactly
  the route's stops), holding the feed's rows in order.
- `Raptor::solve` reports an unknown stop or area id, finds nothing from a
  location without stops, and otherwise returns an itinerary whose legs run
  between stops and follow each other in place and in time (each leg
  arrives no later than the next one leaves). Leaving at a time, the first
  leg is a ride from a stop of the origin (unless it leaves at the last
  second a time can hold) that leaves no earlier than that time, and the last leg ends at a stop of the destination; arriving by a
  time, the last leg is a ride to a stop of the destination (unless it
  arrives at 00:00:00) that arrives no later than that time, and the first leg starts at a stop of the origin.
- Where the trips of every RAPTOR route run forward in time, every leg of
  an itinerary leaves no later than it arrives.
- Both `Raptor::solve` and `Raptor::solve_with_allocator` end in the state
  that the round-by-round search spec (`search_outcome`) gives: an
  itinerary exactly when a target stop got a time and the parents chain
  back from the best one to a first ride; its legs are that chain in travel
  order, and it reaches its end at the best time over all rounds of any
  target stop. So both answer alike (`lemma_outcome_determined`).
- Earliest arrival (`earliest_among_journeys`, proved in `raptor::optimal`):
  leaving at a time, no journey of at most `MAX_ROUNDS` rides from an
  origin stop, each ride followed by at most one transfer or walk listed
  where it is left, the next ride boarded where that footpath ends, reaches
  a destination stop before the itinerary does; one that arrives before
  the last second means the search does not answer that there is no route.
  Arriving by a time, the mirror image holds for the latest departure
  (`latest_among_journeys`), each ride reached by at most one footpath that
  reverses a transfer or walk listed where the ride is boarded. Both assume
  that the trips of a RAPTOR route do not overtake one another and run
  forward in time, that two footpaths in a row are never faster than a
  footpath between their ends (`footpaths_closed`: the search takes one
  footpath after each ride, never two), and, arriving by a time, that a
  route calls at each stop once. A journey that starts with a footpath
  (ends with one, arriving by a time) is not among those compared: the
  search does not walk from the origin.
- Every round starts the routes' scan positions afresh: a route is scanned
  from the earliest marked stop on it (forward) or the latest (backwards).
- A loaded repository lists, for each route and each stop, exactly the
  RAPTOR routes of that route or calling at that stop; the RAPTOR routes of
  one route call at different stop lists, so trips of a route that call at
  the same stops share one (`lemma_raptor_route_of_trip`).
- The shape points of a loaded feed are grouped by shape and ordered by
  sequence; `Repository::shapes_by_trip_idx` gives a trip exactly the
  points of the shape it names (`lemma_trip_shape_points`).
- The stop times of a loaded feed are its rows, run by run (consecutive
  rows of one trip), each run ordered by stop sequence; a trip's slice is
  its last run.
- `fuzzy::distance` is the Levenshtein distance, which is symmetric, zero
  exactly between equal strings and bounded by the longer length.
- `Time::from_hms` reads back what `Time::to_hms_string` writes.
