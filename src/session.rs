//! The lifecycle of a link: which port is open, and what to do when the
//! user picks another one or the open one disappears.
use vstd::prelude::*;
use crate::split::{copy_bytes, views};

verus! {

/// Where the link stands. A port is named by the bytes of its path.
pub enum LinkState {
    Closed,
    /// The port was asked for and is being opened.
    Opening(Vec<u8>),
    /// The port is open and its reader runs.
    Open(Vec<u8>),
}

/// What happened since the last step.
pub enum LinkEvent {
    /// The user picked a port, or none.
    Select(Option<Vec<u8>>),
    /// The port asked for was opened.
    Opened,
    /// The port asked for could not be opened.
    OpenFailed,
    /// The ports present now, or `None` when they could not be listed.
    Poll(Option<Vec<Vec<u8>>>),
}

/// What the caller has to do after a step.
pub enum LinkAction {
    Nothing,
    /// Tear down the current session, if any, and open this port.
    Open(Vec<u8>),
    /// Tear down the current session.
    Close,
}

pub enum StateView {
    Closed,
    Opening(Seq<u8>),
    Open(Seq<u8>),
}

pub enum EventView {
    Select(Option<Seq<u8>>),
    Opened,
    OpenFailed,
    Poll(Option<Seq<Seq<u8>>>),
}

pub enum ActionView {
    Nothing,
    Open(Seq<u8>),
    Close,
}

impl View for LinkState {
    type V = StateView;

    open spec fn view(&self) -> StateView {
        match self {
            LinkState::Closed => StateView::Closed,
            LinkState::Opening(p) => StateView::Opening(p@),
            LinkState::Open(p) => StateView::Open(p@),
        }
    }
}

impl View for LinkEvent {
    type V = EventView;

    open spec fn view(&self) -> EventView {
        match self {
            LinkEvent::Select(None) => EventView::Select(None),
            LinkEvent::Select(Some(p)) => EventView::Select(Some(p@)),
            LinkEvent::Opened => EventView::Opened,
            LinkEvent::OpenFailed => EventView::OpenFailed,
            LinkEvent::Poll(ports) => EventView::Poll(ports_view(*ports)),
        }
    }
}

impl View for LinkAction {
    type V = ActionView;

    open spec fn view(&self) -> ActionView {
        match self {
            LinkAction::Nothing => ActionView::Nothing,
            LinkAction::Open(p) => ActionView::Open(p@),
            LinkAction::Close => ActionView::Close,
        }
    }
}

pub open spec fn ports_view(ports: Option<Vec<Vec<u8>>>) -> Option<Seq<Seq<u8>>> {
    match ports {
        Some(ps) => Some(views(ps@)),
        None => None,
    }
}

/// Whether `port` is among the ports listed; a failed listing lists none.
pub open spec fn listed(port: Seq<u8>, ports: Option<Seq<Seq<u8>>>) -> bool {
    match ports {
        Some(ps) => ps.contains(port),
        None => false,
    }
}

/// The transition: picking a port always (re)opens it, picking none closes
/// whatever is open; an open attempt ends in `Open` or back in `Closed`; a
/// poll closes an open port that is no longer listed. Events that do not
/// apply to the current state change nothing.
pub open spec fn next(s: StateView, e: EventView) -> (StateView, ActionView) {
    match e {
        EventView::Select(None) => (
            StateView::Closed,
            if s is Closed {
                ActionView::Nothing
            } else {
                ActionView::Close
            },
        ),
        EventView::Select(Some(p)) => (StateView::Opening(p), ActionView::Open(p)),
        EventView::Opened => match s {
            StateView::Opening(p) => (StateView::Open(p), ActionView::Nothing),
            _ => (s, ActionView::Nothing),
        },
        EventView::OpenFailed => match s {
            StateView::Opening(_) => (StateView::Closed, ActionView::Nothing),
            _ => (s, ActionView::Nothing),
        },
        EventView::Poll(ports) => match s {
            StateView::Open(p) => if listed(p, ports) {
                (s, ActionView::Nothing)
            } else {
                (StateView::Closed, ActionView::Close)
            },
            _ => (s, ActionView::Nothing),
        },
    }
}

fn same_bytes(a: &[u8], b: &[u8]) -> (r: bool)
    ensures
        r == (a@ == b@),
{
    if a.len() != b.len() {
        return false;
    }
    let mut i: usize = 0;
    while i < a.len()
        invariant
            a@.len() == b@.len(),
            i <= a@.len(),
            a@.subrange(0, i as int) == b@.subrange(0, i as int),
        decreases a.len() - i,
    {
        if a[i] != b[i] {
            assert(a@.subrange(0, i as int + 1)[i as int] != b@.subrange(0, i as int + 1)[i as int]);
            return false;
        }
        assert(a@.subrange(0, i as int + 1) =~= a@.subrange(0, i as int).push(a[i as int]));
        assert(b@.subrange(0, i as int + 1) =~= b@.subrange(0, i as int).push(b[i as int]));
        i = i + 1;
    }
    assert(a@.subrange(0, a@.len() as int) =~= a@);
    assert(b@.subrange(0, b@.len() as int) =~= b@);
    true
}

/// Whether the port opened is still among the ports present.
pub fn is_present(port: &[u8], ports: &Option<Vec<Vec<u8>>>) -> (r: bool)
    ensures
        r == listed(port@, ports_view(*ports)),
{
    match ports {
        None => false,
        Some(ps) => {
            assert(*ports == Some(*ps));
            let mut i: usize = 0;
            while i < ps.len()
                invariant
                    i <= ps@.len(),
                    *ports == Some(*ps),
                    forall|j: int| 0 <= j < i ==> (#[trigger] ps@[j])@ != port@,
                decreases ps.len() - i,
            {
                if same_bytes(ps[i].as_slice(), port) {
                    assert(views(ps@).len() == ps@.len());
                    assert(views(ps@)[i as int] == port@);
                    assert(views(ps@).contains(port@));
                    assert(listed(port@, ports_view(*ports)));
                    return true;
                }
                i = i + 1;
            }
            assert(!views(ps@).contains(port@)) by {
                if views(ps@).contains(port@) {
                    let j = choose|j: int| 0 <= j < views(ps@).len() && views(ps@)[j] == port@;
                    assert(ps@[j]@ == port@);
                }
            }
            false
        },
    }
}

/// Takes one step of the lifecycle.
pub fn step(state: LinkState, event: LinkEvent) -> (r: (LinkState, LinkAction))
    ensures
        (r.0@, r.1@) == next(state@, event@),
{
    match event {
        LinkEvent::Select(None) => {
            let action = match state {
                LinkState::Closed => LinkAction::Nothing,
                _ => LinkAction::Close,
            };
            (LinkState::Closed, action)
        },
        LinkEvent::Select(Some(p)) => {
            let q = copy_bytes(p.as_slice());
            (LinkState::Opening(q), LinkAction::Open(p))
        },
        LinkEvent::Opened => match state {
            LinkState::Opening(p) => (LinkState::Open(p), LinkAction::Nothing),
            other => (other, LinkAction::Nothing),
        },
        LinkEvent::OpenFailed => match state {
            LinkState::Opening(_) => (LinkState::Closed, LinkAction::Nothing),
            other => (other, LinkAction::Nothing),
        },
        LinkEvent::Poll(ports) => match state {
            LinkState::Open(p) => {
                if is_present(p.as_slice(), &ports) {
                    (LinkState::Open(p), LinkAction::Nothing)
                } else {
                    (LinkState::Closed, LinkAction::Close)
                }
            },
            other => (other, LinkAction::Nothing),
        },
    }
}

/// Once the open port is missing from a listing, the next poll closes the
/// link, and from then on polls change nothing: the teardown happens once.
pub proof fn lemma_disconnect_closes_once(
    port: Seq<u8>,
    ports: Option<Seq<Seq<u8>>>,
    later: Option<Seq<Seq<u8>>>,
)
    requires
        !listed(port, ports),
    ensures
        next(StateView::Open(port), EventView::Poll(ports)) == (StateView::Closed, ActionView::Close),
        next(StateView::Closed, EventView::Poll(later)) == (StateView::Closed, ActionView::Nothing),
{
}

} // verus!
