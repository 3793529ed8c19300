use vstd::prelude::*;

verus! {

/// A typed event carrying an identity key; pools filter on the key, so a
/// widget can subscribe to some kinds of events and silently drop others.
pub trait Event: Sized {
    /// The identity key type.
    type EventId: Copy;

    /// The event's identity key, as a specification value.
    spec fn id_spec(&self) -> Self::EventId;

    /// The event's identity key.
    fn id(&self) -> (r: Self::EventId)
        ensures
            r == self.id_spec(),
    ;

    /// Decide whether two identity keys are the same.
    fn id_eq(a: &Self::EventId, b: &Self::EventId) -> (r: bool)
        ensures
            r == (a == b),
    ;
}

/// What a push leaves in the queue: the event is appended exactly when its
/// key is in the listened set.
pub open spec fn push_result<E: Event>(
    q: Seq<E>,
    listened: Set<E::EventId>,
    event: E,
) -> Seq<E> {
    if listened.contains(event.id_spec()) {
        q.push(event)
    } else {
        q
    }
}

/// The queue left by pushing `events` in order onto a queue `q`.
pub open spec fn after_pushes<E: Event>(
    q: Seq<E>,
    listened: Set<E::EventId>,
    events: Seq<E>,
) -> Seq<E>
    decreases events.len(),
{
    if events.len() == 0 {
        q
    } else {
        after_pushes(push_result(q, listened, events[0]), listened, events.drop_first())
    }
}

/// The subsequence of `events` whose keys are in the listened set, in
/// their original order.
pub open spec fn accepted_events<E: Event>(listened: Set<E::EventId>, events: Seq<E>) -> Seq<E>
    decreases events.len(),
{
    if events.len() == 0 {
        Seq::empty()
    } else {
        (if listened.contains(events[0].id_spec()) {
            seq![events[0]]
        } else {
            Seq::empty()
        }) + accepted_events(listened, events.drop_first())
    }
}

/// Pushing a batch of events and then draining the pool hands the handler
/// exactly the events whose keys were listened to, once each and in push
/// order, after whatever the queue already held; events with unlistened
/// keys never reach it.
pub proof fn lemma_push_then_drain<E: Event>(q: Seq<E>, listened: Set<E::EventId>, events: Seq<E>)
    ensures
        after_pushes(q, listened, events) == q + accepted_events(listened, events),
    decreases events.len(),
{
    if events.len() == 0 {
        assert(after_pushes(q, listened, events) =~= q + accepted_events(listened, events));
    } else {
        let q2 = push_result(q, listened, events[0]);
        lemma_push_then_drain(q2, listened, events.drop_first());
        assert(q2 + accepted_events(listened, events.drop_first()) =~= q + accepted_events(
            listened,
            events,
        ));
    }
}

/// A same-thread mailbox: an ordered queue of pending events together with
/// the set of event keys it accepts. Pushes of events with unlistened keys
/// are silently dropped; a drain hands over the queue in FIFO order.
pub struct EventPool<EventType: Event> {
    queue: std::collections::VecDeque<EventType>,
    listened_events: Vec<EventType::EventId>,
}

impl<EventType: Event> EventPool<EventType> {
    /// The pending events, in arrival order.
    pub closed spec fn events(self) -> Seq<EventType> {
        self.queue@
    }

    /// The set of accepted event keys.
    pub closed spec fn listened(self) -> Set<EventType::EventId> {
        self.listened_events@.to_set()
    }

    /// An empty pool that accepts nothing.
    pub fn new() -> (r: Self)
        ensures
            r.events() == Seq::<EventType>::empty(),
            r.listened() == Set::<EventType::EventId>::empty(),
    {
        let r = EventPool {
            queue: std::collections::VecDeque::new(),
            listened_events: Vec::new(),
        };
        proof {
            assert(r.listened() =~= Set::<EventType::EventId>::empty());
        }
        r
    }

    /// An empty pool that accepts exactly the given keys.
    pub fn new_listened(listened_events: &[EventType::EventId]) -> (r: Self)
        ensures
            r.events() == Seq::<EventType>::empty(),
            r.listened() == listened_events@.to_set(),
    {
        let mut r = EventPool::<EventType>::new();
        r.listen(listened_events);
        proof {
            assert(Set::<EventType::EventId>::empty() + listened_events@.to_set()
                =~= listened_events@.to_set());
        }
        r
    }

    /// Accept the given keys from now on, keeping all previous ones.
    pub fn listen(&mut self, ids: &[EventType::EventId])
        ensures
            final(self).events() == old(self).events(),
            final(self).listened() == old(self).listened() + ids@.to_set(),
    {
        let n = ids.len();
        let mut k: usize = 0;
        while k < n
            invariant
                k <= n,
                n == ids@.len(),
                self.events() == old(self).events(),
                self.listened() == old(self).listened() + ids@.subrange(0, k as int).to_set(),
            decreases n - k,
        {
            let ghost pre = self.listened_events@;
            self.listened_events.push(ids[k]);
            k += 1;
            proof {
                pre.lemma_push_to_set_commute(ids@[k - 1]);
                assert(ids@.subrange(0, k as int) =~= ids@.subrange(0, k - 1).push(ids@[k - 1]));
                ids@.subrange(0, k - 1).lemma_push_to_set_commute(ids@[k - 1]);
                assert(self.listened_events@.to_set() =~= old(self).listened() + ids@.subrange(
                    0,
                    k as int,
                ).to_set());
            }
        }
        proof {
            assert(ids@.subrange(0, n as int) =~= ids@);
        }
    }

    /// Discard all pending events without handling them.
    pub fn clear(&mut self)
        ensures
            final(self).events() == Seq::<EventType>::empty(),
            final(self).listened() == old(self).listened(),
    {
        self.queue.clear();
    }

    /// Enqueue `event` if its key is accepted; drop it silently otherwise.
    pub fn push_event(&mut self, event: EventType)
        ensures
            final(self).events() == push_result(old(self).events(), old(self).listened(), event),
            final(self).listened() == old(self).listened(),
    {
        let eid = event.id();
        let n = self.listened_events.len();
        let mut k: usize = 0;
        let mut found: bool = false;
        while k < n
            invariant
                k <= n,
                n == self.listened_events@.len(),
                found ==> self.listened().contains(event.id_spec()),
                !found ==> forall|i: int| 0 <= i < k ==> self.listened_events@[i] != eid,
                eid == event.id_spec(),
            ensures
                found ==> self.listened().contains(event.id_spec()),
                !found ==> forall|i: int| 0 <= i < n ==> self.listened_events@[i] != eid,
                eid == event.id_spec(),
            decreases n - k,
        {
            if EventType::id_eq(&self.listened_events[k], &eid) {
                found = true;
                proof {
                    assert(self.listened_events@.to_set().contains(eid));
                }
                break ;
            }
            k += 1;
        }
        if found {
            self.queue.push_back(event);
        } else {
            proof {
                if self.listened().contains(eid) {
                    let i = choose|i: int|
                        0 <= i < self.listened_events@.len() && self.listened_events@[i] == eid;
                }
            }
        }
    }

    /// Pop events from the front and hand each to `handler`, in FIFO
    /// order, until the queue is empty.
    pub fn handle_events<F: Fn(EventType)>(&mut self, handler: &F)
        requires
            forall|i: int|
                0 <= i < old(self).events().len() ==> call_requires(
                    *handler,
                    (old(self).events()[i],),
                ),
        ensures
            final(self).events() == Seq::<EventType>::empty(),
            final(self).listened() == old(self).listened(),
            forall|i: int|
                0 <= i < old(self).events().len() ==> call_ensures(
                    *handler,
                    (#[trigger] old(self).events()[i],),
                    (),
                ),
    {
        let ghost all = self.events();
        let total = self.queue.len();
        let mut handled: usize = 0;
        loop
            invariant
                self.listened() == old(self).listened(),
                all.len() == total,
                handled <= all.len(),
                all == old(self).events(),
                self.events() == all.subrange(handled as int, all.len() as int),
                forall|i: int|
                    0 <= i < all.len() ==> call_requires(*handler, (#[trigger] all[i],)),
                forall|i: int|
                    0 <= i < handled ==> call_ensures(*handler, (#[trigger] all[i],), ()),
            ensures
                self.listened() == old(self).listened(),
                self.events().len() == 0,
                forall|i: int|
                    0 <= i < all.len() ==> call_ensures(*handler, (#[trigger] all[i],), ()),
            decreases all.len() - handled,
        {
            let next = self.queue.pop_front();
            match next {
                Option::Some(event) => {
                    proof {
                        assert(event == all[handled as int]);
                        assert(self.events() =~= all.subrange(handled + 1, all.len() as int));
                    }
                    handler(event);
                    proof {
                        assert(handled < all.len());
                    }
                    handled += 1;
                },
                Option::None => {
                    break ;
                },
            }
        }
    }
}

/// A widget that exposes its event pool to a controller.
pub trait EventEmitter<T: Event> {
    /// The pool the widget publishes its events through.
    fn get_pool(&mut self) -> &mut EventPool<T>;
}

} // verus!
