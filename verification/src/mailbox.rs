//! The typed inbox of one execution unit.
//!
//! Messages arrive in order and stay queued until the owner takes them.
//! `receive` takes the oldest message; `receive_matching` takes the oldest
//! message whose tag belongs to a given set and leaves every other message
//! queued, in order — that is what lets a unit interleave unrelated traffic
//! between sending a request and awaiting its specific reply.

use crate::codec::Packet;
use vstd::prelude::*;

verus! {

/// True when some queued packet carries one of the wanted tags.
pub open spec fn has_match(q: Seq<Packet>, tags: Seq<u64>) -> bool {
    exists|k: int| 0 <= k < q.len() && tags.contains(#[trigger] q[k].tag)
}

/// The position of the oldest queued packet whose tag is wanted (the queue
/// length when there is none).
pub open spec fn match_index(q: Seq<Packet>, tags: Seq<u64>) -> int
    decreases q.len(),
{
    if q.len() == 0 {
        0
    } else if tags.contains(q[0].tag) {
        0
    } else {
        1 + match_index(q.subrange(1, q.len() as int), tags)
    }
}

/// Where a match exists, `match_index` names it: it is in range, it is a
/// match, and nothing older matches.
pub proof fn lemma_match_index(q: Seq<Packet>, tags: Seq<u64>)
    requires
        has_match(q, tags),
    ensures
        0 <= match_index(q, tags) < q.len(),
        tags.contains(q[match_index(q, tags)].tag),
        forall|j: int| 0 <= j < match_index(q, tags) ==> !tags.contains(#[trigger] q[j].tag),
    decreases q.len(),
{
    if q.len() > 0 && !tags.contains(q[0].tag) {
        let rest = q.subrange(1, q.len() as int);
        assert forall|k: int| 0 <= k < q.len() && tags.contains(#[trigger] q[k].tag) implies k
            >= 1 by {}
        assert(has_match(rest, tags)) by {
            let k = choose|k: int| 0 <= k < q.len() && tags.contains(#[trigger] q[k].tag);
            assert(rest[k - 1] == q[k]);
        }
        lemma_match_index(rest, tags);
        assert forall|j: int| 0 <= j < match_index(q, tags) implies !tags.contains(
            #[trigger] q[j].tag,
        ) by {
            if j >= 1 {
                assert(q[j] == rest[j - 1]);
            }
        }
    }
}

/// A unit's inbox: messages already delivered but not yet taken.
pub struct Mailbox {
    queue: Vec<Packet>,
}

impl Mailbox {
    /// The queued messages, oldest first.
    pub closed spec fn inbox(self) -> Seq<Packet> {
        self.queue@
    }

    /// An empty inbox.
    pub fn new() -> (m: Mailbox)
        ensures
            m.inbox() == Seq::<Packet>::empty(),
    {
        Mailbox { queue: Vec::new() }
    }

    /// How many messages are queued.
    pub fn len(&self) -> (n: usize)
        ensures
            n == self.inbox().len(),
    {
        self.queue.len()
    }

    /// The transport hands an inbound message over: it joins the back of the
    /// queue (per-sender delivery order is preserved by the one-way
    /// primitive; the queue keeps arrival order).
    pub fn deliver(&mut self, p: Packet)
        ensures
            final(self).inbox() == old(self).inbox().push(p),
    {
        self.queue.push(p);
    }

    /// Takes the oldest queued message. Blocking until a message arrives is
    /// the caller's suspension; here a message must already be queued.
    pub fn receive(&mut self) -> (p: Packet)
        requires
            old(self).inbox().len() > 0,
        ensures
            p == old(self).inbox()[0],
            final(self).inbox() == old(self).inbox().subrange(1, old(self).inbox().len() as int),
    {
        self.queue.remove(0)
    }

    /// Takes the oldest queued message whose tag is in `tags`, leaving every
    /// other message queued in its order. Blocking until such a message
    /// arrives is the caller's suspension; here a match must already be
    /// queued.
    pub fn receive_matching(&mut self, tags: &Vec<u64>) -> (p: Packet)
        requires
            has_match(old(self).inbox(), tags@),
        ensures
            ({
                let q = old(self).inbox();
                let k = match_index(q, tags@);
                &&& p == q[k]
                &&& tags@.contains(p.tag)
                &&& forall|j: int| 0 <= j < k ==> !tags@.contains(#[trigger] q[j].tag)
                &&& final(self).inbox() == q.subrange(0, k) + q.subrange(k + 1, q.len() as int)
            }),
    {
        proof {
            lemma_match_index(old(self).inbox(), tags@);
        }
        let ghost q = self.queue@;
        let n = self.queue.len();
        let mut i: usize = 0;
        loop
            invariant
                old(self).inbox() == q,
                self.queue@ == q,
                q.len() == n,
                has_match(q, tags@),
                0 <= i <= match_index(q, tags@),
                forall|j: int| 0 <= j < i ==> !tags@.contains(#[trigger] q[j].tag),
            decreases q.len() - i,
        {
            proof {
                lemma_match_index(q, tags@);
            }
            if contains_tag(tags, self.queue[i].tag) {
                proof {
                    assert(i == match_index(q, tags@)) by {
                        if i < match_index(q, tags@) {
                            assert(!tags@.contains(q[i as int].tag));
                        }
                    }
                }
                let p = self.queue.remove(i);
                proof {
                    assert(p == q[i as int]);
                    assert(q == old(self).inbox());
                    assert(i as int == match_index(old(self).inbox(), tags@));
                    assert(p == old(self).inbox()[match_index(old(self).inbox(), tags@)]);
                    assert(self.inbox() =~= q.subrange(0, i as int) + q.subrange(
                        i + 1,
                        q.len() as int,
                    ));
                }
                return p;
            }
            proof {
                assert(i != match_index(q, tags@));
            }
            i = i + 1;
        }
    }
}

/// Whether a tag is among the wanted ones.
fn contains_tag(tags: &Vec<u64>, t: u64) -> (b: bool)
    ensures
        b == tags@.contains(t),
{
    let mut i: usize = 0;
    while i < tags.len()
        invariant
            0 <= i <= tags@.len(),
            forall|j: int| 0 <= j < i ==> tags@[j] != t,
        decreases tags@.len() - i,
    {
        if tags[i] == t {
            return true;
        }
        i = i + 1;
    }
    false
}

/// Selective receive leaves unrelated messages untouched: taking the first
/// match out of a queue keeps every other message, in its original order.
pub proof fn lemma_selective_receive_preserves_unrelated(q: Seq<Packet>, tags: Seq<u64>)
    requires
        has_match(q, tags),
    ensures
        ({
            let k = match_index(q, tags);
            let rest = q.subrange(0, k) + q.subrange(k + 1, q.len() as int);
            &&& rest.len() == q.len() - 1
            &&& forall|j: int| 0 <= j < k ==> #[trigger] rest[j] == q[j]
            &&& forall|j: int| k < j < q.len() ==> #[trigger] rest[j - 1] == q[j]
        }),
{
    lemma_match_index(q, tags);
}

} // verus!
