//! User-visible events and the ordering discipline of the event stream.
//!
//! The transport promises that a `Message` from a remote is only ever
//! delivered while that remote is *live*: a `NewPeer` event for it has
//! been emitted, and no `PeerTimedOut` for it has followed. The spec
//! functions here define liveness over an event history, and the lemmas
//! turn the recursive definition into the explicit "preceded by a
//! `NewPeer` with no intervening `PeerTimedOut`" reading.

use crate::address::Address;
use vstd::prelude::*;

verus! {

/// An event emitted to the user by `Peer::update`.
#[derive(Debug, Clone, PartialEq, Eq)]
pub enum Event {
    /// A remote was heard from (or sent to) for the first time since it
    /// was last unknown.
    NewPeer { address: Address },
    /// A known remote has been silent for the idle timeout and its
    /// connection entry was dropped.
    PeerTimedOut { address: Address },
    /// A validated message datagram arrived from a known remote.
    Message { source: Address, data: Vec<u8> },
}

/// The mathematical value of an [`Event`].
pub enum EventModel {
    NewPeer { address: Address },
    PeerTimedOut { address: Address },
    Message { source: Address, data: Seq<u8> },
}

impl View for Event {
    type V = EventModel;

    open spec fn view(&self) -> EventModel {
        match self {
            Event::NewPeer { address } => EventModel::NewPeer { address: *address },
            Event::PeerTimedOut { address } => EventModel::PeerTimedOut { address: *address },
            Event::Message { source, data } => EventModel::Message {
                source: *source,
                data: data@,
            },
        }
    }
}

/// The sequence of event values a sequence of events stands for.
pub open spec fn spec_events_view(events: Seq<Event>) -> Seq<EventModel> {
    Seq::new(events.len(), |i: int| events[i]@)
}

/// A remote is live after history `history` if the most recent event
/// about its lifecycle is a `NewPeer`, not a `PeerTimedOut`.
pub open spec fn spec_live(history: Seq<EventModel>, address: Address) -> bool
    decreases history.len(),
{
    if history.len() == 0 {
        false
    } else if history.last() == (EventModel::NewPeer { address }) {
        true
    } else if history.last() == (EventModel::PeerTimedOut { address }) {
        false
    } else {
        spec_live(history.drop_last(), address)
    }
}

/// Every `Message` event in the history was emitted while its source was
/// live: a `NewPeer` for the source precedes it with no `PeerTimedOut`
/// for the source in between.
pub open spec fn spec_events_well_ordered(history: Seq<EventModel>) -> bool {
    forall|i: int|
        0 <= i < history.len() && history[i] is Message ==> spec_live(
            #[trigger] history.take(i),
            history[i]->source,
        )
}

/// Liveness unfolded: a live remote has a `NewPeer` event in the history
/// that no later `PeerTimedOut` for the same remote cancels.
pub proof fn lemma_live_witness(history: Seq<EventModel>, address: Address)
    requires
        spec_live(history, address),
    ensures
        exists|j: int|
            {
                &&& 0 <= j < history.len()
                &&& history[j] == (EventModel::NewPeer { address })
                &&& forall|k: int|
                    j < k < history.len() ==> history[k] != (EventModel::PeerTimedOut { address })
            },
    decreases history.len(),
{
    if history.last() == (EventModel::NewPeer { address }) {
        let j = history.len() - 1;
        assert({
            &&& 0 <= j < history.len()
            &&& history[j] == (EventModel::NewPeer { address })
            &&& forall|k: int|
                j < k < history.len() ==> history[k] != (EventModel::PeerTimedOut { address })
        });
    } else {
        assert(history.last() != (EventModel::PeerTimedOut { address }));
        lemma_live_witness(history.drop_last(), address);
        let shorter = history.drop_last();
        let j = choose|j: int|
            {
                &&& 0 <= j < shorter.len()
                &&& shorter[j] == (EventModel::NewPeer { address })
                &&& forall|k: int|
                    j < k < shorter.len() ==> shorter[k] != (EventModel::PeerTimedOut { address })
            };
        assert(history[j] == (EventModel::NewPeer { address }));
        assert forall|k: int| j < k < history.len() implies history[k] != (
        EventModel::PeerTimedOut { address }) by {
            if k < history.len() - 1 {
                assert(shorter[k] != (EventModel::PeerTimedOut { address }));
                assert(history[k] == shorter[k]);
            } else {
                assert(history[k] == history.last());
            }
        }
        assert({
            &&& 0 <= j < history.len()
            &&& history[j] == (EventModel::NewPeer { address })
            &&& forall|k: int|
                j < k < history.len() ==> history[k] != (EventModel::PeerTimedOut { address })
        });
    }
}

/// Appending events that are not `Message`s keeps the history well
/// ordered: the prefix before every existing `Message` is unchanged.
pub proof fn lemma_well_ordered_append_non_messages(
    history: Seq<EventModel>,
    appended: Seq<EventModel>,
)
    requires
        spec_events_well_ordered(history),
        forall|i: int| 0 <= i < appended.len() ==> !(#[trigger] appended[i] is Message),
    ensures
        spec_events_well_ordered(history + appended),
{
    let whole = history + appended;
    assert forall|i: int| 0 <= i < whole.len() && whole[i] is Message implies spec_live(
        #[trigger] whole.take(i),
        whole[i]->source,
    ) by {
        assert(i < history.len());
        assert(whole.take(i) =~= history.take(i));
    }
}

/// Appending a `Message` whose source is live after the existing history
/// keeps the history well ordered.
pub proof fn lemma_well_ordered_append_message(
    history: Seq<EventModel>,
    source: Address,
    data: Seq<u8>,
)
    requires
        spec_events_well_ordered(history),
        spec_live(history, source),
    ensures
        spec_events_well_ordered(history.push(EventModel::Message { source, data })),
{
    let whole = history.push(EventModel::Message { source, data });
    assert forall|i: int| 0 <= i < whole.len() && whole[i] is Message implies spec_live(
        #[trigger] whole.take(i),
        whole[i]->source,
    ) by {
        if i < history.len() {
            assert(whole.take(i) =~= history.take(i));
        } else {
            assert(whole.take(i) =~= history);
        }
    }
}

/// Event ordering: in a well ordered history, every `Message` event is
/// preceded by a `NewPeer` for its source, with no `PeerTimedOut` for
/// that source in between.
pub proof fn lemma_message_preceded(history: Seq<EventModel>, i: int)
    requires
        spec_events_well_ordered(history),
        0 <= i < history.len(),
        history[i] is Message,
    ensures
        exists|j: int|
            {
                &&& 0 <= j < i
                &&& history[j] == (EventModel::NewPeer { address: history[i]->source })
                &&& forall|k: int|
                    j < k < i ==> history[k] != (EventModel::PeerTimedOut {
                        address: history[i]->source,
                    })
            },
{
    let source = history[i]->source;
    let prefix = history.take(i);
    assert(spec_live(prefix, source));
    lemma_live_witness(prefix, source);
    let j = choose|j: int|
        {
            &&& 0 <= j < prefix.len()
            &&& prefix[j] == (EventModel::NewPeer { address: source })
            &&& forall|k: int|
                j < k < prefix.len() ==> prefix[k] != (EventModel::PeerTimedOut {
                    address: source,
                })
        };
    assert(history[j] == prefix[j]);
    assert forall|k: int| j < k < i implies history[k] != (EventModel::PeerTimedOut {
        address: source,
    }) by {
        assert(prefix[k] == history[k]);
    }
    assert({
        &&& 0 <= j < i
        &&& history[j] == (EventModel::NewPeer { address: source })
        &&& forall|k: int|
            j < k < i ==> history[k] != (EventModel::PeerTimedOut { address: source })
    });
}

/// There is a `PeerTimedOut` event for `address` among `events`.
pub open spec fn spec_contains_timeout(events: Seq<EventModel>, address: Address) -> bool {
    exists|k: int| 0 <= k < events.len() && events[k] == (EventModel::PeerTimedOut { address })
}

/// Pushing an event extends timeout membership in the obvious way.
pub proof fn lemma_contains_timeout_push(
    events: Seq<EventModel>,
    event: EventModel,
    address: Address,
)
    ensures
        spec_contains_timeout(events.push(event), address) == (spec_contains_timeout(
            events,
            address,
        ) || event == (EventModel::PeerTimedOut { address })),
{
    let pushed = events.push(event);
    if spec_contains_timeout(events, address) {
        let k = choose|k: int|
            0 <= k < events.len() && events[k] == (EventModel::PeerTimedOut { address });
        assert(pushed[k] == events[k]);
        assert(spec_contains_timeout(pushed, address));
    }
    if event == (EventModel::PeerTimedOut { address }) {
        assert(pushed[events.len() as int] == event);
        assert(spec_contains_timeout(pushed, address));
    }
    if spec_contains_timeout(pushed, address) && event != (EventModel::PeerTimedOut { address }) {
        let k = choose|k: int|
            0 <= k < pushed.len() && pushed[k] == (EventModel::PeerTimedOut { address });
        assert(k < events.len());
        assert(events[k] == pushed[k]);
        assert(spec_contains_timeout(events, address));
    }
}

/// Appending only `PeerTimedOut` events: a remote stays live exactly
/// when it was live before and none of the new events is its timeout.
pub proof fn lemma_live_append_timeouts(
    history: Seq<EventModel>,
    appended: Seq<EventModel>,
    address: Address,
)
    requires
        forall|k: int| 0 <= k < appended.len() ==> (#[trigger] appended[k]) is PeerTimedOut,
    ensures
        spec_live(history + appended, address) == (spec_live(history, address)
            && !spec_contains_timeout(appended, address)),
    decreases appended.len(),
{
    if appended.len() == 0 {
        assert(history + appended =~= history);
        assert(!spec_contains_timeout(appended, address));
    } else {
        let butlast = appended.drop_last();
        let last = appended.last();
        assert forall|k: int| 0 <= k < butlast.len() implies (#[trigger] butlast[k])
            is PeerTimedOut by {
            assert(butlast[k] == appended[k]);
        }
        lemma_live_append_timeouts(history, butlast, address);
        lemma_contains_timeout_push(butlast, last, address);
        assert(butlast.push(last) =~= appended);
        let whole = history + appended;
        assert(whole.drop_last() =~= history + butlast);
        assert(whole.last() == last);
        if last == (EventModel::PeerTimedOut { address }) {
            assert(last != (EventModel::NewPeer { address }));
            assert(!spec_live(whole, address));
            assert(spec_contains_timeout(appended, address));
        } else {
            assert(last != (EventModel::NewPeer { address }));
            assert(spec_live(whole, address) == spec_live(history + butlast, address));
        }
    }
}

/// Events that are neither `NewPeer` nor `PeerTimedOut` for a remote do
/// not change whether the remote is live.
pub proof fn lemma_live_append_unrelated(
    history: Seq<EventModel>,
    event: EventModel,
    address: Address,
)
    requires
        event != (EventModel::NewPeer { address }),
        event != (EventModel::PeerTimedOut { address }),
    ensures
        spec_live(history.push(event), address) == spec_live(history, address),
{
    assert(history.push(event).drop_last() =~= history);
}

} // verus!
