//! Notifications of value changes, delivered from the changed node up to the root.

use vstd::prelude::*;

verus! {

/// The kind of change reported to observers.
#[derive(Clone, Copy, Debug, PartialEq, Eq, Structural)]
pub enum EventType {
    Added,
    Removing,
    Changed,
}

/// One delivery: `observer` is told that the node at path `origin` saw `event`.
#[derive(Debug)]
pub struct Notification {
    pub observer: u64,
    pub event: EventType,
    pub origin: Vec<u8>,
}

impl View for Notification {
    type V = (u64, EventType, Seq<u8>);

    open spec fn view(&self) -> (u64, EventType, Seq<u8>) {
        (self.observer, self.event, self.origin@)
    }
}

/// The log as plain values.
pub open spec fn log_view(log: Seq<Notification>) -> Seq<(u64, EventType, Seq<u8>)> {
    log.map_values(|n: Notification| n@)
}

/// What an event at `origin` delivers, given the observers of the nodes from the
/// root down to `origin` (the last entry is the origin's own): the origin first,
/// then each ancestor toward the root, skipping nodes without an observer.
pub open spec fn notices(chain: Seq<Option<u64>>, event: EventType, origin: Seq<u8>) -> Seq<
    (u64, EventType, Seq<u8>),
>
    decreases chain.len(),
{
    if chain.len() == 0 {
        seq![]
    } else {
        let rest = notices(chain.drop_last(), event, origin);
        match chain.last() {
            Some(o) => seq![(o, event, origin)] + rest,
            None => rest,
        }
    }
}

/// A copy of a path.
pub fn copy_path(p: &Vec<u8>) -> (r: Vec<u8>)
    ensures
        r@ == p@,
{
    let mut r: Vec<u8> = Vec::new();
    let mut i: usize = 0;
    while i < p.len()
        invariant
            i <= p@.len(),
            r@ == p@.subrange(0, i as int),
        decreases p@.len() - i,
    {
        r.push(p[i]);
        i = i + 1;
        assert(r@ =~= p@.subrange(0, i as int));
    }
    assert(r@ =~= p@);
    r
}

/// Appends to `log` what an event at `origin` delivers to the observers in
/// `chain[0..upto]`, nearest to the origin first.
pub fn deliver(
    chain: &Vec<Option<u64>>,
    upto: usize,
    event: EventType,
    origin: &Vec<u8>,
    log: &mut Vec<Notification>,
)
    requires
        upto <= chain@.len(),
    ensures
        log_view(final(log)@) == log_view(old(log)@) + notices(
            chain@.subrange(0, upto as int),
            event,
            origin@,
        ),
    decreases upto,
{
    let ghost prefix = chain@.subrange(0, upto as int);
    if upto == 0 {
        assert(log_view(log@) =~= log_view(log@) + notices(prefix, event, origin@));
        return;
    }
    let ghost before = log@;
    assert(prefix.drop_last() =~= chain@.subrange(0, upto - 1));
    match chain[upto - 1] {
        Some(o) => {
            log.push(Notification { observer: o, event, origin: copy_path(origin) });
            assert(log_view(log@) =~= log_view(before) + seq![(o, event, origin@)]);
        },
        None => {},
    }
    deliver(chain, upto - 1, event, origin, log);
    assert(log_view(log@) =~= log_view(before) + notices(prefix, event, origin@));
}

/// Every delivery of one event carries that event and names the node where it happened.
pub proof fn lemma_notices_name_origin(chain: Seq<Option<u64>>, event: EventType, origin: Seq<u8>)
    ensures
        forall|k: int|
            0 <= k < notices(chain, event, origin).len() ==> (#[trigger] notices(
                chain,
                event,
                origin,
            )[k]).1 == event && notices(chain, event, origin)[k].2 == origin,
    decreases chain.len(),
{
    if chain.len() > 0 {
        lemma_notices_name_origin(chain.drop_last(), event, origin);
    }
}

/// Each observer on the chain receives the event.
pub proof fn lemma_notices_reach(chain: Seq<Option<u64>>, event: EventType, origin: Seq<u8>, i: int)
    requires
        0 <= i < chain.len(),
        chain[i] is Some,
    ensures
        exists|b: int|
            0 <= b < notices(chain, event, origin).len() && notices(chain, event, origin)[b] == (
                chain[i]->0,
                event,
                origin,
            ),
    decreases chain.len(),
{
    let rest = notices(chain.drop_last(), event, origin);
    if i == chain.len() - 1 {
        assert(notices(chain, event, origin)[0] == (chain[i]->0, event, origin));
    } else {
        lemma_notices_reach(chain.drop_last(), event, origin, i);
        let b = choose|b: int|
            0 <= b < rest.len() && rest[b] == (chain.drop_last()[i]->0, event, origin);
        if chain.last() is Some {
            assert(notices(chain, event, origin)[b + 1] == rest[b]);
        } else {
            assert(notices(chain, event, origin)[b] == rest[b]);
        }
    }
}

/// Of two observers on the chain, the one nearer the origin (later in the chain)
/// receives the event first.
pub proof fn lemma_notices_bottom_up(
    chain: Seq<Option<u64>>,
    event: EventType,
    origin: Seq<u8>,
    i: int,
    j: int,
)
    requires
        0 <= i < j < chain.len(),
        chain[i] is Some,
        chain[j] is Some,
    ensures
        exists|a: int, b: int|
            0 <= a < b < notices(chain, event, origin).len() && notices(chain, event, origin)[a]
                == (chain[j]->0, event, origin) && notices(chain, event, origin)[b] == (
                chain[i]->0,
                event,
                origin,
            ),
    decreases chain.len(),
{
    let all = notices(chain, event, origin);
    let rest = notices(chain.drop_last(), event, origin);
    if j == chain.len() - 1 {
        lemma_notices_reach(chain.drop_last(), event, origin, i);
        let b = choose|b: int|
            0 <= b < rest.len() && rest[b] == (chain.drop_last()[i]->0, event, origin);
        assert(all[0] == (chain[j]->0, event, origin));
        assert(all[b + 1] == rest[b]);
    } else {
        lemma_notices_bottom_up(chain.drop_last(), event, origin, i, j);
        let (a, b) = choose|a: int, b: int|
            0 <= a < b < rest.len() && rest[a] == (chain.drop_last()[j]->0, event, origin)
                && rest[b] == (chain.drop_last()[i]->0, event, origin);
        if chain.last() is Some {
            assert(all[a + 1] == rest[a]);
            assert(all[b + 1] == rest[b]);
        } else {
            assert(all[a] == rest[a]);
            assert(all[b] == rest[b]);
        }
    }
}

} // verus!
