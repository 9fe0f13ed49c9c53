# lau-agent-lifecycle

The lifecycle of an agent — birth, work, sunset, seed, spawn — as operations
on a category of agent states, written in Verus with each operation's
behaviour stated as a contract and proved.

- `src/` is the verified library: knowledge sets keyed by id (`knowledge`,
  over the sorted string map of `strmap`), agent states and transitions
  (`agent`), filtered lifetime diagrams and their colimit, the sunset
  (`diagram`), spawning (`spawn`), the conservation functor
  (`conservation`), connected components (`components`), kintsugi break and
  repair (`kintsugi`), generation tracking (`generation`), the PLATO
  lifecycle and the category as a whole (`plato`), and the laws that relate
  these operations (`laws`, with more beside the functions they speak of).
- `app/` holds what the verifier does not take: the ethos/pathos/logos
  trinity, which computes on floats; feature vectors as `nalgebra` vectors
  built from the library's integer bucket counts; the fraction-based
  `break_state`; and serde forms of the library's types.
- `tests/` runs the library on concrete values.
