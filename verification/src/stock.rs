//! The stock of warm workers that a host without blocking threads draws on.
//!
//! A worker there finishes starting up only once the host's main thread has
//! had a few turns of its event loop, so workers are spawned ahead of time,
//! claimed when a link needs them, and put back when it ends.

use vstd::prelude::*;

verus! {

/// Parked workers, which `L` stands for.
#[derive(Debug)]
pub struct Stock<L> {
    pub parked: Vec<L>,
}

/// How many of `flags` are set.
pub open spec fn set_flags(flags: Seq<bool>) -> nat
    decreases flags.len(),
{
    if flags.len() == 0 {
        0
    } else {
        set_flags(flags.drop_last()) + if flags.last() {
            1nat
        } else {
            0nat
        }
    }
}

impl<L> Stock<L> {
    /// No workers yet.
    pub fn new() -> (stock: Self)
        ensures
            stock.parked@ == Seq::<L>::empty(),
    {
        Stock { parked: Vec::new() }
    }

    /// How many workers have to be spawned and put into the stock for it to
    /// hold at least `count`.
    pub fn warm(&self, count: usize) -> (missing: usize)
        ensures
            missing == if self.parked@.len() < count {
                count - self.parked@.len()
            } else {
                0
            },
    {
        count.saturating_sub(self.parked.len())
    }

    /// Claims the worker that was parked last, if there is one.
    pub fn claim(&mut self) -> (lease: Option<L>)
        ensures
            match lease {
                Some(lease) => old(self).parked@ == final(self).parked@.push(lease),
                None => old(self).parked@.len() == 0 && final(self).parked@.len() == 0,
            },
    {
        let lease: Option<L> = self.parked.pop();
        assert(lease is Some ==> old(self).parked@ =~= self.parked@.push(lease->0));
        lease
    }

    /// Parks a worker.
    pub fn put_back(&mut self, lease: L)
        ensures
            final(self).parked@ == old(self).parked@.push(lease),
    {
        self.parked.push(lease);
    }
}

/// Whether at least `count` parked workers have come up. `started` has a flag
/// for each.
pub fn ready(started: &[bool], count: usize) -> (ready: bool)
    ensures
        ready == (set_flags(started@) >= count),
{
    let mut up: usize = 0;
    let mut i: usize = 0;
    while i < started.len()
        invariant
            i <= started@.len(),
            up <= i,
            up == set_flags(started@.take(i as int)),
        decreases started.len() - i,
    {
        if started[i] {
            up = up + 1;
        }
        i = i + 1;
        assert(started@.take(i as int).drop_last() =~= started@.take(i - 1));
    }
    assert(started@.take(i as int) =~= started@);
    up >= count
}

/// Where the script that starts a worker lives, once it is known.
#[derive(Debug)]
pub struct ShimUrl {
    pub url: Option<String>,
}

impl ShimUrl {
    /// Not known yet.
    pub fn new() -> (shim: Self)
        ensures
            shim.url is None,
    {
        ShimUrl { url: None }
    }

    /// Sets the place explicitly, for a host that knows it.
    pub fn set_shim_url(&mut self, url: String)
        ensures
            final(self).url == Some(url),
    {
        self.url = Some(url);
    }

    /// Whether the place still has to be looked for.
    pub fn unknown(&self) -> (unknown: bool)
        ensures
            unknown == (self.url is None),
    {
        self.url.is_none()
    }

    /// The place: the one that is known, or else the one that was `found`,
    /// which is then known.
    pub fn shim_url(&mut self, found: Option<String>) -> (url: Option<String>)
        ensures
            match old(self).url {
                Some(known) => {
                    &&& url matches Some(url) && url@ == known@
                    &&& final(self).url == old(self).url
                },
                None => match found {
                    Some(found) => {
                        &&& url matches Some(url) && url@ == found@
                        &&& final(self).url == Some(found)
                    },
                    None => url is None && final(self).url is None,
                },
            },
    {
        if let Some(known) = &self.url {
            return Some(known.clone());
        }
        match found {
            Some(found) => {
                let url: String = found.clone();
                self.url = Some(found);
                Some(url)
            },
            None => None,
        }
    }
}

/// Every set flag counts once, and no other counts.
pub proof fn law_flags_are_counted(flags: Seq<bool>, more: bool)
    ensures
        set_flags(Seq::<bool>::empty()) == 0,
        set_flags(flags.push(more)) == set_flags(flags) + if more {
            1int
        } else {
            0int
        },
        set_flags(flags) <= flags.len(),
        (forall|i: int| 0 <= i < flags.len() ==> #[trigger] flags[i]) ==> set_flags(flags)
            == flags.len(),
        (forall|i: int| 0 <= i < flags.len() ==> !#[trigger] flags[i]) ==> set_flags(flags) == 0,
    decreases flags.len(),
{
    assert(flags.push(more).drop_last() =~= flags);
    if flags.len() > 0 {
        let rest = flags.drop_last();
        assert(flags.last() == flags[flags.len() - 1]);
        assert forall|i: int| 0 <= i < rest.len() implies #[trigger] rest[i] == flags[i] by {}
        law_flags_are_counted(rest, more);
    }
}

} // verus!
