# lamellar

A runtime for programs that run on many processing elements (PEs): active
messages, objects that are counted on all PEs, barriers, memory that PEs share,
and arrays whose elements live on several PEs.

`src/` is the library. It decides; everything it decides is proved with Verus
against the contracts of its functions.

- `active_messaging`: which requests share a message, the form of messages, how
  they are read, and how answers find their requests
- `darc`: reference counts of objects that live on all PEs, waits for a change of
  kind or for freeing, and why no object is freed anywhere while a reference to it
  exists anywhere, and no PE waits for ever once all references are gone
- `barrier`: who tells whom in which round, and why no PE leaves before all have
  come
- `memregion`: which bytes transfers touch
- `array`: where elements live, operations on them, how work on them is divided,
  iterators, reductions, arrays of other kinds

The laws of `barrier` and `darc` are proved of all PEs together: `system` says how
PEs that take part go on, and `steps` shows that what the functions do on each PE
is that.

`app/` runs the library on a fabric: tasks, locks, registries, and the tables of
rounded shares, which take floating point numbers.

`tests/` has examples with exact values.
