# melonds-rollback

Rollback netplay over a *link* of two emulated Nintendo DSes, with its rules
verified in Verus.

- `src/air.rs`, `src/host.rs`: the emulated local wireless between the two
  consoles, as a state that every callback of the emulator works on.
- `src/schedule.rs`, `src/determinism.rs`: why a link is a function of its
  inputs, however the two console threads interleave. This holds of links in
  which every race comes together, and of no others that can be played out: a
  receive that could give up, and a peer about to take back what it relies on,
  get to the same point whoever is first. Races come together where consoles
  keep their word: they send nothing that a receive of the peer's has been told
  not to expect, come on the air under such a receive only if they get past it
  before they send anything there, and neither come nor go under a host packet
  receive with nothing queued.
- `src/snapshot.rs`, `src/format.rs`, `src/bytes.rs`: captures of a whole link,
  and the bytes they are cached in.
- `src/link.rs`, `src/router.rs`, `src/session.rs`, `src/stock.rs`: what a link
  does to its air, which link the callbacks belong to, the session's
  bookkeeping, and the stock of warm workers.
- `app/`: the emulator cores (`melonds`), their threads, and the rollback engine
  (`getgud`) around all this. Neither crate is on crates.io; they come from
  their own repositories.
