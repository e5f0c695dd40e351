# kollaps

The decision logic of a distributed network emulator, verified with Verus.

- `src/` is the library: matrices and the cluster speed graph, the emulated network and
  its shortest and widest paths, the XML topology, the search for a placement of an
  emulation's applications on the hosts of a cluster and the bandwidth and load each placed
  emulation takes there, the sharing of link bandwidth between flows, the message formats,
  docker argument lists, and the decision steps of the cluster controller, the emulation
  core and the emulation manager. Every function there is proved against its contract; the
  few that call an outside crate have contracts that are trusted, not proved.
- `tests/` runs the library on concrete values.
- `app/` reads a topology file, submits it to the emulation manager's decision step over a
  cluster given on the command line, computes what needs floating point (bandwidth units,
  latencies, drop rates, the fair division of a link), and runs docker.
