use vstd::prelude::*;
use std::collections::HashMap;
use crate::messages::{Message, MessageView};

verus! {

broadcast use vstd::std_specs::hash::group_hash_axioms;

/// The mailbox bus: one first-in first-out queue of messages per node.
pub struct Network {
    incoming_messages: HashMap<u32, Vec<Message>>,
}

impl Network {
    /// The messages waiting for `node_id`, oldest first.
    pub closed spec fn queue(self, node_id: u32) -> Seq<MessageView> {
        if self.incoming_messages@.contains_key(node_id) {
            self.incoming_messages@[node_id]@.map_values(|m: Message| m@)
        } else {
            Seq::empty()
        }
    }

    /// Every waiting message keeps its counters within its delivery tick.
    pub open spec fn within_clock(self) -> bool {
        forall|n: u32, i: int|
            0 <= i < self.queue(n).len() ==> (#[trigger] self.queue(n)[i]).within_clock()
    }

    /// No queue changed.
    pub open spec fn unchanged(before: Network, after: Network) -> bool {
        forall|n: u32| #[trigger] after.queue(n) == before.queue(n)
    }

    /// `message` was appended to the queue of `node_id`, and nothing else changed.
    pub open spec fn sent(before: Network, after: Network, node_id: u32, message: MessageView) -> bool {
        &&& after.queue(node_id) == before.queue(node_id).push(message)
        &&& forall|n: u32| n != node_id ==> #[trigger] after.queue(n) == before.queue(n)
    }

    /// The head of the queue of `node_id` was taken off, and nothing else changed.
    pub open spec fn taken(before: Network, after: Network, node_id: u32) -> bool {
        &&& after.queue(node_id) == before.queue(node_id).drop_first()
        &&& forall|n: u32| n != node_id ==> #[trigger] after.queue(n) == before.queue(n)
    }

    pub fn new() -> (r: Network)
        ensures
            forall|n: u32| #[trigger] r.queue(n) == Seq::<MessageView>::empty(),
            r.within_clock(),
    {
        Network { incoming_messages: HashMap::new() }
    }

    /// Appends `message` to the queue of `node_id`.
    pub fn send(&mut self, node_id: u32, message: Message)
        ensures
            final(self).queue(node_id) == old(self).queue(node_id).push(message@),
            forall|n: u32| n != node_id ==> #[trigger] final(self).queue(n) == old(self).queue(n),
            old(self).within_clock() && message@.within_clock() ==> final(self).within_clock(),
    {
        let ghost m = message@;
        let mut queue = match self.incoming_messages.remove(&node_id) {
            Some(q) => q,
            None => Vec::new(),
        };
        let ghost before = queue@;
        queue.push(message);
        assert(queue@.map_values(|x: Message| x@) =~= before.map_values(|x: Message| x@).push(m));
        self.incoming_messages.insert(node_id, queue);
        assert forall|n: u32| n != node_id implies #[trigger] self.queue(n) == old(self).queue(n) by {}
    }

    /// Delivers the head of the queue of `node_id` if it is due at `tick`.
    pub fn receive(&mut self, tick: u32, node_id: u32) -> (r: Option<Message>)
        ensures
            ({
                let q = old(self).queue(node_id);
                if q.len() > 0 && q[0].tick() <= tick {
                    &&& r is Some
                    &&& r->0@ == q[0]
                    &&& final(self).queue(node_id) == q.drop_first()
                } else {
                    &&& r is None
                    &&& final(self).queue(node_id) == q
                }
            }),
            forall|n: u32| n != node_id ==> #[trigger] final(self).queue(n) == old(self).queue(n),
            r matches Some(m) ==> m@.tick() <= tick,
            old(self).within_clock() ==> final(self).within_clock(),
            old(self).within_clock() ==> (r matches Some(m) ==> m@.within_clock()),
    {
        match self.incoming_messages.remove(&node_id) {
            None => {
                assert(self.incoming_messages@ =~= old(self).incoming_messages@);
                assert forall|n: u32| #[trigger] self.queue(n) == old(self).queue(n) by {}
                None
            },
            Some(mut queue) => {
                let ghost before = queue@;
                if queue.len() > 0 && queue[0].tick() <= tick {
                    let message = queue.remove(0);
                    assert(queue@.map_values(|x: Message| x@) =~= before.map_values(
                        |x: Message| x@,
                    ).drop_first());
                    self.incoming_messages.insert(node_id, queue);
                    assert forall|n: u32, i: int|
                        0 <= i < self.queue(n).len() && old(
                            self,
                        ).within_clock() implies (#[trigger] self.queue(n)[i]).within_clock() by {
                        if n == node_id {
                            assert(self.queue(n)[i] == old(self).queue(n)[i + 1]);
                        } else {
                            assert(self.queue(n) == old(self).queue(n));
                        }
                    }
                    proof {
                        if old(self).within_clock() {
                            assert(old(self).queue(node_id)[0].within_clock());
                        }
                    }
                    assert forall|n: u32| n != node_id implies #[trigger] self.queue(n) == old(
                        self,
                    ).queue(n) by {}
                    Some(message)
                } else {
                    self.incoming_messages.insert(node_id, queue);
                    assert(self.incoming_messages@ =~= old(self).incoming_messages@);
                    assert forall|n: u32| #[trigger] self.queue(n) == old(self).queue(n) by {}
                    None
                }
            },
        }
    }
}

} // verus!
