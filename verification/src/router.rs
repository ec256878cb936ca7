//! Which link the platform callbacks belong to.
//!
//! The emulator resolves its callbacks once per process, while links can
//! overlap in time: a new match's link is created while an old session's
//! still winds down. So each link takes a serial, its consoles carry a token
//! made of that serial and their seat, and only tokens of the current serial
//! route. A stale link's consoles talk into the void instead of into the new
//! link's air, and its end leaves the new link's routing alone.

use vstd::prelude::*;

verus! {

/// The routing of callbacks to the air of the current link, which `A` stands
/// for.
#[derive(Debug)]
pub struct Router<A> {
    /// The current link's serial, and its air.
    pub current: Option<(usize, A)>,
    /// The serial of the next link.
    pub next: usize,
}

/// The callback token of the console at `seat` of the link `serial`.
pub open spec fn token_of(serial: usize, seat: usize) -> usize {
    (serial << 1) | seat
}

impl<A> Router<A> {
    /// What a callback with token `inst` routes to: the current air and a
    /// seat, if the token is of the current link.
    pub open spec fn routed(self, inst: usize) -> Option<(A, usize)> {
        match self.current {
            Some((serial, air)) => if serial == inst >> 1 {
                Some((air, inst & 1))
            } else {
                None
            },
            None => None,
        }
    }

    /// With the link `serial` made the current one.
    pub open spec fn installed(self, serial: usize, air: A) -> Self {
        Router { current: Some((serial, air)), ..self }
    }

    /// With the link `serial` ended: routing that belongs to another link
    /// stays as it is.
    pub open spec fn retired(self, serial: usize) -> Self {
        match self.current {
            Some((current, _)) => if current == serial {
                Router { current: None, ..self }
            } else {
                self
            },
            None => self,
        }
    }

    /// No link yet.
    pub fn new() -> (router: Self)
        ensures
            router == (Router::<A> { current: None, next: 0 }),
    {
        Router { current: None, next: 0 }
    }

    /// Takes a serial for a new link. The routing stays as it is until the
    /// link is installed.
    pub fn take_serial(&mut self) -> (serial: usize)
        ensures
            serial == old(self).next,
            final(self).next == (if old(self).next == usize::MAX {
                0
            } else {
                old(self).next + 1
            }),
            final(self).current == old(self).current,
    {
        let serial: usize = self.next;
        self.next = serial.wrapping_add(1);
        serial
    }

    /// The callback token of the console at `seat` of the link `serial`.
    pub fn token(serial: usize, seat: usize) -> (inst: usize)
        requires
            seat < 2,
        ensures
            inst == token_of(serial, seat),
    {
        (serial << 1) | seat
    }

    /// Makes the link `serial` the current one.
    pub fn install(&mut self, serial: usize, air: A)
        ensures
            *final(self) == old(self).installed(serial, air),
    {
        self.current = Some((serial, air));
    }

    /// Finds the air and the seat of a callback.
    pub fn route(&self, inst: usize) -> (route: Option<(&A, usize)>)
        ensures
            match route {
                Some((air, seat)) => self.routed(inst) == Some((*air, seat)) && seat < 2,
                None => self.routed(inst) is None,
            },
    {
        assert(inst & 1 < 2) by (bit_vector);
        match &self.current {
            Some((serial, air)) => if *serial == inst >> 1 {
                Some((air, inst & 1))
            } else {
                None
            },
            None => None,
        }
    }

    /// Ends the link `serial`. Routing that a newer link has taken over stays
    /// as it is.
    pub fn retire(&mut self, serial: usize)
        ensures
            *final(self) == old(self).retired(serial),
    {
        let mine: bool = match &self.current {
            Some((current, _)) => *current == serial,
            None => false,
        };
        if mine {
            self.current = None;
        }
    }
}

/// A console's token routes to its own seat of its own link while that link
/// is current, and to nothing once another is.
pub proof fn law_tokens_route_to_their_link<A>(
    router: Router<A>,
    serial: usize,
    seat: usize,
    current: usize,
    air: A,
)
    requires
        router.current == Some((current, air)),
        serial < 1usize << ((usize::BITS - 1) as u32),
        seat < 2,
    ensures
        router.routed(token_of(serial, seat)) == if serial == current {
            Some((air, seat))
        } else {
            None
        },
{
    assert(((serial << 1) | seat) >> 1 == serial && ((serial << 1) | seat) & 1 == seat)
        by (bit_vector)
        requires
            serial < 1usize << ((usize::BITS - 1) as u32),
            seat < 2,
    ;
}

/// A link that ends after a newer one took over leaves the newer one on the
/// air: every token routes as it did.
pub proof fn law_stale_link_ends_quietly<A>(
    router: Router<A>,
    stale: usize,
    serial: usize,
    air: A,
    inst: usize,
)
    requires
        stale != serial,
    ensures
        router.installed(serial, air).retired(stale).routed(inst) == router.installed(
            serial,
            air,
        ).routed(inst),
{
}

/// A token is twice the link's serial, and one more for seat 1.
pub proof fn law_token_is_serial_and_seat(serial: usize, seat: usize)
    requires
        serial < 1usize << ((usize::BITS - 1) as u32),
        seat < 2,
    ensures
        token_of(serial, seat) == 2 * serial + seat,
{
    assert((serial << 1) | seat == 2 * serial + seat) by (bit_vector)
        requires
            serial < 1usize << ((usize::BITS - 1) as u32),
            seat < 2,
    ;
}

/// A callback routes to the air that was installed last, and to the seat that
/// its token's lowest bit says, if the rest of the token is that link's serial;
/// after that link has ended, nothing routes. Neither changes which serial is
/// next.
pub proof fn law_callbacks_route_by_token<A>(
    router: Router<A>,
    serial: usize,
    air: A,
    inst: usize,
    other: usize,
)
    ensures
        router.installed(serial, air).routed(inst) == if inst / 2 == serial {
            Some((air, inst % 2))
        } else {
            None
        },
        router.installed(serial, air).retired(serial).routed(inst) is None,
        router.installed(serial, air).next == router.next,
        router.installed(serial, air).retired(other).next == router.next,
        router.current is None ==> router.routed(inst) is None && router.retired(other) == router,
{
    assert(inst >> 1 == inst / 2 && inst & 1 == inst % 2) by (bit_vector);
}

} // verus!
