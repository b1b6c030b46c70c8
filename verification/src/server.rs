//! Execution units and the request/response server.
//!
//! A [`Node`] models one scheduler's view of the world: the current unit
//! (index `0`, the one whose code is running) plus every unit it has
//! spawned. A [`Server`] handle names a spawned unit that owns a captured
//! state and answers requests forever: each delivered request is decoded,
//! handed to the unit's handler, and the response is sent back — tagged —
//! to the reply address embedded in the request.
//!
//! Spawning passes only two small scalars across the isolation boundary
//! (the handler's function-table index and the link flag); a non-zero-sized
//! captured state follows as a separate handshake message that the new unit
//! consumes before serving. Spawning with a link ties the two units
//! together: abnormal termination of either unwinds the other.

use crate::codec::{
    encode_packet, decode_packet, is_zero_sized, spec_encode_packet, Packet, Payload, Value,
};
use crate::handler::{apply_handler, handler_result, Handler};
use crate::mailbox::{has_match, match_index, Mailbox};
use crate::tag::{Tag, TagSource};
use vstd::prelude::*;

verus! {

/// One isolated execution unit: its inbox, its exclusively owned state, the
/// handler it was spawned with, the units it is linked to, whether it is
/// still running, and whether it still awaits the captured-state handshake.
struct Unit {
    mailbox: Mailbox,
    state: Value,
    handler: Handler,
    links: Vec<usize>,
    alive: bool,
    awaiting_init: bool,
}

/// Reported when the underlying allocation of a new unit is refused; it
/// carries the identifier the allocation got as far as, for diagnostics.
#[derive(Clone, Copy, PartialEq, Eq, Structural, Debug)]
pub struct SpawnError {
    /// The diagnostic identifier reported by the refused allocation.
    pub code: u64,
}

/// One scheduler's units. Index `0` is the current unit: the one whose
/// control flow drives every call on this value.
pub struct Node {
    units: Vec<Unit>,
    tags: TagSource,
    capacity: usize,
}

/// The global identifier of the unit with a local index: local indices are
/// never reused, so the global identifier is derivable on demand.
pub open spec fn uuid_of(i: int) -> u128 {
    i as u128
}

/// The value transferred by the handshake message at the front of an inbox.
pub open spec fn init_value_of(q: Seq<Packet>) -> Value {
    match q[0].payload {
        Payload::Init(v) => v,
        _ => Value::Empty,
    }
}

impl Node {
    /// How many units exist (running or terminated; indices are never
    /// reused).
    pub closed spec fn unit_count(self) -> int {
        self.units@.len() as int
    }

    /// Whether the unit exists and is still running.
    pub closed spec fn is_alive(self, i: int) -> bool {
        0 <= i < self.units@.len() && self.units@[i].alive
    }

    /// The unit exists and has terminated abnormally.
    pub open spec fn faulted(self, i: int) -> bool {
        0 <= i < self.unit_count() && !self.is_alive(i)
    }

    /// The state a unit's handler owns.
    pub closed spec fn state_of(self, i: int) -> Value {
        self.units@[i].state
    }

    /// The handler a unit was spawned with.
    pub closed spec fn handler_of(self, i: int) -> Handler {
        self.units@[i].handler
    }

    /// A unit's inbox: delivered but not yet received messages.
    pub closed spec fn inbox_of(self, i: int) -> Seq<Packet> {
        self.units@[i].mailbox.inbox()
    }

    /// Whether the unit still awaits its captured-state handshake message.
    pub closed spec fn awaiting_init(self, i: int) -> bool {
        self.units@[i].awaiting_init
    }

    /// Whether two units are linked (the relation is kept symmetric).
    pub closed spec fn linked(self, i: int, j: int) -> bool {
        0 <= i < self.units@.len() && exists|k: int|
            0 <= k < self.units@[i].links@.len() && #[trigger] self.units@[i].links@[k] as int
                == j
    }

    /// The current unit's tag source.
    pub closed spec fn tag_source(self) -> TagSource {
        self.tags
    }

    /// The value the next issued correlation tag will have.
    pub open spec fn next_tag(self) -> u64 {
        self.tag_source().next_value()
    }

    /// Every correlation tag the current unit has issued.
    pub open spec fn issued_tags(self) -> Seq<u64> {
        self.tag_source().issued()
    }

    /// The most units the environment lets this node allocate.
    pub closed spec fn max_units(self) -> int {
        self.capacity as int
    }

    /// The state a server will answer its next request from: the state it
    /// owns, or the one still sitting in its handshake message.
    pub open spec fn effective_state(self, i: int) -> Value {
        if self.awaiting_init(i) {
            init_value_of(self.inbox_of(i))
        } else {
            self.state_of(i)
        }
    }

    /// A spawned unit between requests: its inbox holds nothing but the
    /// handshake message it still awaits, if any.
    pub open spec fn quiescent_at(self, i: int) -> bool {
        if self.awaiting_init(i) {
            self.inbox_of(i).len() == 1 && self.inbox_of(i)[0].payload is Init
        } else {
            self.inbox_of(i).len() == 0
        }
    }

    /// The structural invariant that does not mention inbox contents.
    pub open spec fn wf_base(self) -> bool {
        &&& 1 <= self.unit_count()
        &&& self.tag_source().wf()
        &&& forall|i: int, j: int|
            #[trigger] self.linked(i, j) ==> 0 <= j < self.unit_count() && j != i
        &&& forall|i: int, j: int| #[trigger] self.linked(i, j) ==> self.linked(j, i)
        &&& forall|i: int, j: int|
            #![trigger self.faulted(i), self.linked(i, j)]
            self.faulted(i) && self.linked(i, j) ==> self.faulted(j)
        &&& forall|k: int|
            0 <= k < self.inbox_of(0).len() ==> (#[trigger] self.inbox_of(0)[k]).tag
                < self.next_tag()
    }

    /// The full invariant: structure, plus every running spawned unit
    /// quiescent between requests.
    pub open spec fn wf(self) -> bool {
        &&& self.wf_base()
        &&& forall|i: int|
            1 <= i < self.unit_count() && self.is_alive(i) ==> #[trigger] self.quiescent_at(i)
    }

    /// A fresh node: only the current unit, running, with an empty inbox.
    /// `capacity` is the resource limit the environment imposes on how many
    /// units may be allocated in all.
    pub fn new(capacity: usize) -> (n: Node)
        requires
            capacity >= 1,
        ensures
            n.wf(),
            n.unit_count() == 1,
            n.is_alive(0),
            !n.awaiting_init(0),
            n.inbox_of(0) == Seq::<Packet>::empty(),
            n.next_tag() == 0,
            n.issued_tags() == Seq::<u64>::empty(),
            n.max_units() == capacity,
            forall|i: int, j: int| !n.linked(i, j),
    {
        let mut units: Vec<Unit> = Vec::new();
        units.push(
            Unit {
                mailbox: Mailbox::new(),
                state: Value::Empty,
                handler: Handler::Echo,
                links: Vec::new(),
                alive: true,
                awaiting_init: false,
            },
        );
        Node { units, tags: TagSource::new(), capacity }
    }
}

/// Nothing of a unit changed between two node states.
pub open spec fn unit_unchanged(pre: Node, post: Node, i: int) -> bool {
    &&& post.is_alive(i) == pre.is_alive(i)
    &&& post.state_of(i) == pre.state_of(i)
    &&& post.handler_of(i) == pre.handler_of(i)
    &&& post.inbox_of(i) == pre.inbox_of(i)
    &&& post.awaiting_init(i) == pre.awaiting_init(i)
}

/// A set of units that must at least be unwound when `id` terminates
/// abnormally: it holds `id`, every already-terminated unit, and is closed
/// under links.
pub open spec fn covers_fault(pre: Node, id: int, s: Set<int>) -> bool {
    &&& s.contains(id)
    &&& forall|i: int| #[trigger] pre.faulted(i) ==> s.contains(i)
    &&& forall|i: int, j: int|
        #![trigger s.contains(i), pre.linked(i, j)]
        s.contains(i) && pre.linked(i, j) ==> s.contains(j)
}

/// The abnormal termination of `id` propagated along links, and no further:
/// `id` is down, nothing recovers, every link out of a down unit pulled its
/// peer down, and nothing outside every link-closed cover went down.
pub open spec fn fault_propagated(pre: Node, post: Node, id: int) -> bool {
    &&& post.unit_count() == pre.unit_count()
    &&& forall|i: int, j: int|
        #![trigger pre.linked(i, j)]
        #![trigger post.linked(i, j)]
        pre.linked(i, j) == post.linked(i, j)
    &&& post.faulted(id)
    &&& forall|i: int| #[trigger] pre.faulted(i) ==> post.faulted(i)
    &&& forall|i: int, j: int|
        #![trigger post.faulted(i), post.linked(i, j)]
        post.faulted(i) && post.linked(i, j) ==> post.faulted(j)
    &&& forall|s: Set<int>|
        #[trigger] covers_fault(pre, id, s) ==> forall|i: int|
            #[trigger] post.faulted(i) ==> s.contains(i)
}

/// Everything of every unit except its running flag is unchanged.
pub open spec fn frame_except_alive(pre: Node, post: Node) -> bool {
    forall|i: int|
        0 <= i < pre.unit_count() ==> (#[trigger] post.inbox_of(i)) == pre.inbox_of(i)
            && post.state_of(i) == pre.state_of(i) && post.handler_of(i) == pre.handler_of(i)
            && post.awaiting_init(i) == pre.awaiting_init(i)
}

/// The unit table changed in nothing but the running flags.
spec fn units_framed(pre: Seq<Unit>, post: Seq<Unit>) -> bool {
    &&& post.len() == pre.len()
    &&& forall|i: int|
        0 <= i < pre.len() ==> (#[trigger] post[i]).mailbox == pre[i].mailbox && post[i].state
            == pre[i].state && post[i].handler == pre[i].handler && post[i].links == pre[i].links
            && post[i].awaiting_init == pre[i].awaiting_init
}

/// Whether a local index occurs in a worklist.
spec fn in_work(w: Seq<usize>, j: int) -> bool {
    exists|k: int| 0 <= k < w.len() && #[trigger] w[k] as int == j
}

proof fn lemma_in_work_push(w: Seq<usize>, x: usize, j: int)
    ensures
        in_work(w, j) ==> in_work(w.push(x), j),
        in_work(w.push(x), x as int),
{
    if in_work(w, j) {
        let k = choose|k: int| 0 <= k < w.len() && #[trigger] w[k] as int == j;
        assert(w.push(x)[k] as int == j);
    }
    assert(w.push(x)[w.len() as int] == x);
}

/// How many units are still running.
spec fn num_alive(units: Seq<Unit>) -> nat
    decreases units.len(),
{
    if units.len() == 0 {
        0
    } else {
        num_alive(units.drop_last()) + if units.last().alive {
            1nat
        } else {
            0nat
        }
    }
}

proof fn lemma_num_alive_update(units: Seq<Unit>, i: int, u: Unit)
    requires
        0 <= i < units.len(),
        units[i].alive,
        !u.alive,
    ensures
        num_alive(units.update(i, u)) < num_alive(units),
    decreases units.len(),
{
    if i == units.len() - 1 {
        assert(units.update(i, u).drop_last() =~= units.drop_last());
        assert(units.update(i, u).last() == u);
    } else {
        lemma_num_alive_update(units.drop_last(), i, u);
        assert(units.update(i, u).drop_last() =~= units.drop_last().update(i, u));
        assert(units.update(i, u).last() == units.last());
    }
}

/// A mutable borrow of one unit in the table.
fn unit_mut(units: &mut Vec<Unit>, i: usize) -> (u: &mut Unit)
    requires
        i < old(units)@.len(),
    ensures
        *u == old(units)@[i as int],
        final(units)@ == old(units)@.update(i as int, *final(u)),
{
    &mut units[i]
}


/// What the fault worklist has committed to so far, against one cover `s`:
/// everything already down lies in `s`, and so does everything still queued
/// for unwinding.
spec fn seq_faulted(units: Seq<Unit>, i: int) -> bool {
    0 <= i < units.len() && !units[i].alive
}

spec fn fault_bound(units: Seq<Unit>, w: Seq<usize>, s: Set<int>) -> bool {
    &&& forall|i: int| #[trigger] seq_faulted(units, i) ==> s.contains(i)
    &&& forall|k: int| 0 <= k < w.len() ==> s.contains(#[trigger] w[k] as int)
}

impl Node {
    /// Carries one message over the one-way transport into a unit's inbox:
    /// it crosses as bytes and is decoded on arrival — which the codec's
    /// round-trip proof shows can never fail.
    fn deliver_packet(&mut self, to: usize, p: Packet)
        requires
            to < old(self).unit_count(),
        ensures
            final(self).unit_count() == old(self).unit_count(),
            final(self).tag_source() == old(self).tag_source(),
            final(self).max_units() == old(self).max_units(),
            final(self).inbox_of(to as int) == old(self).inbox_of(to as int).push(p),
            final(self).is_alive(to as int) == old(self).is_alive(to as int),
            final(self).state_of(to as int) == old(self).state_of(to as int),
            final(self).handler_of(to as int) == old(self).handler_of(to as int),
            final(self).awaiting_init(to as int) == old(self).awaiting_init(to as int),
            forall|i: int|
                0 <= i < old(self).unit_count() && i != to ==> unit_unchanged(
                    *old(self),
                    *final(self),
                    i,
                ),
            forall|i: int, j: int|
                #![trigger old(self).linked(i, j)]
                #![trigger final(self).linked(i, j)]
                old(self).linked(i, j) == final(self).linked(i, j),
    {
        let bytes = encode_packet(&p);
        let decoded = decode_packet(bytes.as_slice());
        proof {
            crate::codec::lemma_packet_round_trip(p);
        }
        match decoded {
            Some(q) => {
                let u = unit_mut(&mut self.units, to);
                u.mailbox.deliver(q);
            },
            None => {
                proof {
                    assert(false);
                }
            },
        }
        proof {
            let pre = *old(self);
            assert(self.units@[to as int].links == pre.units@[to as int].links);
            assert forall|i: int, j: int| #[trigger] pre.linked(i, j) implies final(self).linked(
                i,
                j,
            ) by {
                let k = choose|k: int|
                    0 <= k < pre.units@[i].links@.len() && #[trigger] pre.units@[i].links@[k] as int
                        == j;
                assert(self.units@[i].links@[k] as int == j);
            }
            assert forall|i: int, j: int| #[trigger] final(self).linked(i, j) implies pre.linked(
                i,
                j,
            ) by {
                let k = choose|k: int|
                    0 <= k < self.units@[i].links@.len()
                        && #[trigger] self.units@[i].links@[k] as int == j;
                assert(pre.units@[i].links@[k] as int == j);
            }
        }
    }

    /// Unwinds a unit that terminated abnormally and propagates the fault
    /// along links until nothing linked to a downed unit is still running.
    fn fault(&mut self, id: usize)
        requires
            old(self).wf(),
            id < old(self).unit_count(),
        ensures
            final(self).wf(),
            fault_propagated(*old(self), *final(self), id as int),
            final(self).tag_source() == old(self).tag_source(),
            final(self).max_units() == old(self).max_units(),
            frame_except_alive(*old(self), *final(self)),
            forall|i: int| final(self).is_alive(i) ==> old(self).is_alive(i),
    {
        let ghost pre = *old(self);
        let mut work: Vec<usize> = Vec::new();
        work.push(id);
        proof {
            assert(work@[0] == id);
            assert(in_work(work@, id as int));
            assert forall|i: int, j: int|
                #![trigger seq_faulted(self.units@, i), pre.linked(i, j)]
                seq_faulted(self.units@, i) && pre.linked(i, j) implies seq_faulted(
                self.units@,
                j,
            ) || in_work(work@, j) by {
                assert(pre.faulted(i));
                assert(pre.faulted(j));
            }
            assert forall|s: Set<int>| #[trigger] covers_fault(pre, id as int, s) implies
                fault_bound(self.units@, work@, s) by {
                assert forall|i: int| #[trigger] seq_faulted(self.units@, i) implies s.contains(
                    i,
                ) by {
                    assert(pre.faulted(i));
                }
                assert forall|k: int| 0 <= k < work@.len() implies s.contains(
                    #[trigger] work@[k] as int,
                ) by {
                    assert(work@[k] == id);
                }
            }
        }
        while work.len() > 0
            invariant
                pre == *old(self),
                pre.wf(),
                id < pre.unit_count(),
                units_framed(pre.units@, self.units@),
                self.tags == pre.tags,
                self.capacity == pre.capacity,
                forall|i: int|
                    0 <= i < self.units@.len() && (#[trigger] self.units@[i]).alive
                        ==> pre.is_alive(i),
                forall|k: int| 0 <= k < work@.len() ==> (#[trigger] work@[k]) < self.units@.len(),
                seq_faulted(self.units@, id as int) || in_work(work@, id as int),
                forall|i: int| pre.faulted(i) ==> seq_faulted(self.units@, i),
                forall|i: int, j: int|
                    #![trigger seq_faulted(self.units@, i), pre.linked(i, j)]
                    seq_faulted(self.units@, i) && pre.linked(i, j) ==> seq_faulted(self.units@, j)
                        || in_work(work@, j),
                forall|s: Set<int>|
                    #[trigger] covers_fault(pre, id as int, s) ==> fault_bound(self.units@, work@, s),
            decreases num_alive(self.units@), work@.len(),
        {
            let ghost work0 = work@;
            let w = work.pop().unwrap();
            proof {
                assert(work0[work0.len() - 1] == w);
                if !seq_faulted(self.units@, id as int) {
                    let kk = choose|kk: int|
                        0 <= kk < work0.len() && #[trigger] work0[kk] as int == id as int;
                    if kk < work0.len() - 1 {
                        assert(work@[kk] as int == id as int);
                        assert(in_work(work@, id as int));
                    } else {
                        assert(w == id);
                    }
                }
            }
            if self.units[w].alive {
                let ghost pre_units = self.units@;
                let u = unit_mut(&mut self.units, w);
                u.alive = false;
                proof {
                    assert(!self.units@[w as int].alive);
                    lemma_num_alive_update(pre_units, w as int, self.units@[w as int]);
                    assert(seq_faulted(self.units@, w as int));
                    assert forall|s: Set<int>| #[trigger] covers_fault(pre, id as int, s) implies
                        fault_bound(self.units@, work@, s) && s.contains(w as int) by {
                        assert(s.contains(work0[work0.len() - 1] as int));
                        assert forall|i: int| #[trigger] seq_faulted(self.units@, i) implies s.contains(
                            i,
                        ) by {
                            if i != w as int {
                                assert(seq_faulted(pre_units, i));
                            }
                        }
                        assert forall|kk: int| 0 <= kk < work@.len() implies s.contains(
                            #[trigger] work@[kk] as int,
                        ) by {
                            assert(work@[kk] == work0[kk]);
                        }
                    }
                }
                proof {
                    if w != id {
                        assert(seq_faulted(self.units@, id as int) || in_work(work@, id as int));
                    }
                    assert forall|i: int, j: int|
                        #![trigger seq_faulted(self.units@, i), pre.linked(i, j)]
                        seq_faulted(self.units@, i) && pre.linked(i, j) && i != w as int
                        implies seq_faulted(self.units@, j) || in_work(work@, j) by {
                        if !seq_faulted(self.units@, j) {
                            assert(seq_faulted(pre_units, i));
                            assert(!seq_faulted(pre_units, j));
                            assert(in_work(work0, j));
                            let kk = choose|kk: int|
                                0 <= kk < work0.len() && #[trigger] work0[kk] as int == j;
                            if kk < work0.len() - 1 {
                                assert(work@[kk] as int == j);
                                assert(in_work(work@, j));
                            } else {
                                assert(j == w as int);
                            }
                        }
                    }
                }
                let ghost marked = self.units@;
                let link_count = self.units[w].links.len();
                let mut k: usize = 0;
                while k < link_count
                    invariant
                        pre == *old(self),
                        pre.wf(),
                        id < pre.unit_count(),
                        w < self.units@.len(),
                        self.units@ == marked,
                        units_framed(pre.units@, self.units@),
                        seq_faulted(self.units@, w as int),
                        link_count == self.units@[w as int].links@.len(),
                        0 <= k <= link_count,
                        forall|kk: int|
                            0 <= kk < work@.len() ==> (#[trigger] work@[kk])
                                < self.units@.len(),
                        forall|s: Set<int>|
                            #[trigger] covers_fault(pre, id as int, s) ==> fault_bound(
                                self.units@,
                                work@,
                                s,
                            ) && s.contains(w as int),
                        forall|m: int|
                            0 <= m < k ==> in_work(
                                work@,
                                #[trigger] self.units@[w as int].links@[m] as int,
                            ),
                        seq_faulted(self.units@, id as int) || in_work(work@, id as int),
                        forall|i: int, j: int|
                            #![trigger seq_faulted(self.units@, i), pre.linked(i, j)]
                            seq_faulted(self.units@, i) && pre.linked(i, j) && i != w as int
                                ==> seq_faulted(self.units@, j) || in_work(work@, j),
                    decreases link_count - k,
                {
                    let ghost wpre = work@;
                    let l = self.units[w].links[k];
                    proof {
                        assert(pre.units@[w as int].links@[k as int] == l);
                        assert(pre.linked(w as int, l as int));
                        assert(l < self.units@.len());
                    }
                    work.push(l);
                    proof {
                        assert forall|j: int| in_work(wpre, j) implies in_work(work@, j) by {
                            lemma_in_work_push(wpre, l, j);
                        }
                        lemma_in_work_push(wpre, l, l as int);
                        assert(in_work(work@, l as int));
                        assert forall|s: Set<int>| #[trigger] covers_fault(pre, id as int, s)
                            implies fault_bound(self.units@, work@, s) && s.contains(w as int) by {
                            assert(s.contains(l as int));
                            assert forall|kk: int| 0 <= kk < work@.len() implies s.contains(
                                #[trigger] work@[kk] as int,
                            ) by {
                                if kk < wpre.len() {
                                    assert(work@[kk] == wpre[kk]);
                                } else {
                                    assert(work@[kk] == l);
                                }
                            }
                        }
                    }
                    k = k + 1;
                }
                proof {
                    assert forall|i: int, j: int|
                        #![trigger seq_faulted(self.units@, i), pre.linked(i, j)]
                        seq_faulted(self.units@, i) && pre.linked(i, j) implies seq_faulted(
                        self.units@,
                        j,
                    ) || in_work(work@, j) by {
                        if i == w as int {
                            let kk = choose|kk: int|
                                0 <= kk < pre.units@[i].links@.len()
                                    && #[trigger] pre.units@[i].links@[kk] as int == j;
                            assert(self.units@[w as int].links@[kk] as int == j);
                            assert(in_work(work@, j));
                        }
                    }
                }
            } else {
                proof {
                    assert(seq_faulted(self.units@, w as int));
                    assert forall|s: Set<int>| #[trigger] covers_fault(pre, id as int, s) implies
                        fault_bound(self.units@, work@, s) by {
                        assert forall|kk: int| 0 <= kk < work@.len() implies s.contains(
                            #[trigger] work@[kk] as int,
                        ) by {
                            assert(work@[kk] == work0[kk]);
                        }
                    }
                    assert forall|i: int, j: int|
                        #![trigger seq_faulted(self.units@, i), pre.linked(i, j)]
                        seq_faulted(self.units@, i) && pre.linked(i, j) implies seq_faulted(
                        self.units@,
                        j,
                    ) || in_work(work@, j) by {
                        if !seq_faulted(self.units@, j) && in_work(work0, j) {
                            let kk = choose|kk: int|
                                0 <= kk < work0.len() && #[trigger] work0[kk] as int == j;
                            if kk < work0.len() - 1 {
                                assert(work@[kk] as int == j);
                                assert(in_work(work@, j));
                            } else {
                                assert(j == w as int);
                            }
                        }
                    }
                }
            }
        }
        proof {
            assert forall|i: int, j: int| #[trigger] final(self).linked(i, j) implies pre.linked(
                i,
                j,
            ) by {
                let k = choose|k: int|
                    0 <= k < self.units@[i].links@.len()
                        && #[trigger] self.units@[i].links@[k] as int == j;
                assert(pre.units@[i].links@[k] as int == j);
            }
            assert forall|i: int, j: int| #[trigger] pre.linked(i, j) implies final(self).linked(
                i,
                j,
            ) by {
                let k = choose|k: int|
                    0 <= k < pre.units@[i].links@.len() && #[trigger] pre.units@[i].links@[k] as int
                        == j;
                assert(self.units@[i].links@[k] as int == j);
            }
            assert forall|i: int| #[trigger] final(self).faulted(i) implies seq_faulted(
                self.units@,
                i,
            ) by {}
            assert(final(self).faulted(id as int));
            assert forall|i: int, j: int|
                #![trigger final(self).faulted(i), final(self).linked(i, j)]
                final(self).faulted(i) && final(self).linked(i, j) implies final(self).faulted(
                j,
            ) by {
                assert(seq_faulted(self.units@, i));
                assert(pre.linked(i, j));
                assert(seq_faulted(self.units@, j) || in_work(work@, j));
            }
            assert forall|s: Set<int>| #[trigger] covers_fault(pre, id as int, s) implies (forall|
                i: int,
            | #[trigger] final(self).faulted(i) ==> s.contains(i)) by {
                assert(fault_bound(self.units@, work@, s));
                assert forall|i: int| #[trigger] final(self).faulted(i) implies s.contains(i) by {
                    assert(seq_faulted(self.units@, i));
                }
            }
            assert(final(self).wf()) by {
                assert forall|i: int|
                    1 <= i < final(self).unit_count() && final(self).is_alive(i) implies #[trigger]
                    final(self).quiescent_at(i) by {
                    assert(pre.is_alive(i));
                    assert(pre.quiescent_at(i));
                    assert(final(self).inbox_of(i) == pre.inbox_of(i));
                    assert(final(self).awaiting_init(i) == pre.awaiting_init(i));
                }
                assert forall|k: int| 0 <= k < final(self).inbox_of(0).len() implies (
                #[trigger] final(self).inbox_of(0)[k]).tag < final(self).next_tag() by {
                    assert(final(self).inbox_of(0) == pre.inbox_of(0));
                }
            }
        }
    }
}

/// Nothing of a unit changed but possibly its running flag.
pub open spec fn unit_kept(pre: Node, post: Node, i: int) -> bool {
    &&& post.state_of(i) == pre.state_of(i)
    &&& post.handler_of(i) == pre.handler_of(i)
    &&& post.inbox_of(i) == pre.inbox_of(i)
    &&& post.awaiting_init(i) == pre.awaiting_init(i)
}

/// What a unit's abnormal termination while serving leaves behind: the
/// fault propagated along links, the unit's inbox consumed, and everything
/// else untouched.
pub open spec fn crash_outcome(pre: Node, post: Node, id: int) -> bool {
    &&& fault_propagated(pre, post, id)
    &&& post.state_of(id) == pre.state_of(id)
    &&& post.handler_of(id) == pre.handler_of(id)
    &&& post.awaiting_init(id) == pre.awaiting_init(id)
    &&& post.inbox_of(id).len() == 0
    &&& forall|i: int| 0 <= i < pre.unit_count() && i != id ==> #[trigger] unit_kept(pre, post, i)
    &&& post.tag_source() == pre.tag_source()
    &&& post.max_units() == pre.max_units()
}

impl Node {
    /// The first action of a spawned unit whose captured state was not
    /// zero-sized: block on the handshake message and take ownership of the
    /// transferred state.
    fn handle_init(&mut self, id: usize)
        requires
            old(self).wf(),
            1 <= id < old(self).unit_count(),
            old(self).is_alive(id as int),
            old(self).awaiting_init(id as int),
        ensures
            final(self).wf(),
            final(self).unit_count() == old(self).unit_count(),
            final(self).tag_source() == old(self).tag_source(),
            final(self).max_units() == old(self).max_units(),
            final(self).is_alive(id as int),
            !final(self).awaiting_init(id as int),
            final(self).state_of(id as int) == old(self).effective_state(id as int),
            final(self).handler_of(id as int) == old(self).handler_of(id as int),
            final(self).inbox_of(id as int).len() == 0,
            forall|i: int|
                0 <= i < old(self).unit_count() && i != id ==> unit_unchanged(
                    *old(self),
                    *final(self),
                    i,
                ),
            forall|i: int, j: int|
                #![trigger old(self).linked(i, j)]
                #![trigger final(self).linked(i, j)]
                old(self).linked(i, j) == final(self).linked(i, j),
    {
        proof {
            assert(old(self).quiescent_at(id as int));
        }
        let u = unit_mut(&mut self.units, id);
        let p = u.mailbox.receive();
        match p.payload {
            Payload::Init(v) => {
                u.state = v;
                u.awaiting_init = false;
            },
            _ => {
                proof {
                    assert(false);
                }
            },
        }
        proof {
            let pre = *old(self);
            assert(self.units@[id as int].links == pre.units@[id as int].links);
            assert forall|i: int, j: int| #[trigger] pre.linked(i, j) implies final(self).linked(
                i,
                j,
            ) by {
                let k = choose|k: int|
                    0 <= k < pre.units@[i].links@.len() && #[trigger] pre.units@[i].links@[k] as int
                        == j;
                assert(self.units@[i].links@[k] as int == j);
            }
            assert forall|i: int, j: int| #[trigger] final(self).linked(i, j) implies pre.linked(
                i,
                j,
            ) by {
                let k = choose|k: int|
                    0 <= k < self.units@[i].links@.len()
                        && #[trigger] self.units@[i].links@[k] as int == j;
                assert(pre.units@[i].links@[k] as int == j);
            }
            assert(final(self).inbox_of(id as int) =~= Seq::<Packet>::empty());
            assert(final(self).unit_count() == pre.unit_count());
            assert(final(self).tag_source() == pre.tag_source());
            assert forall|i: int| #[trigger] final(self).is_alive(i) == pre.is_alive(i) by {
                if i == id as int {
                    assert(self.units@[id as int].alive == pre.units@[id as int].alive);
                }
            }
            assert(final(self).wf()) by {
                assert forall|i: int, j: int| #[trigger] final(self).linked(i, j) implies 0 <= j
                    < final(self).unit_count() && j != i by {
                    assert(pre.linked(i, j));
                }
                assert forall|i: int, j: int| #[trigger] final(self).linked(i, j) implies final(self).linked(j, i) by {
                    assert(pre.linked(i, j));
                    assert(pre.linked(j, i));
                }
                assert forall|i: int, j: int|
                    #![trigger final(self).faulted(i), final(self).linked(i, j)]
                    final(self).faulted(i) && final(self).linked(i, j) implies final(self).faulted(j) by {
                    assert(pre.faulted(i));
                    assert(pre.linked(i, j));
                    assert(pre.faulted(j));
                }
                assert forall|i: int|
                    1 <= i < final(self).unit_count() && final(self).is_alive(i) implies #[trigger]
                    final(self).quiescent_at(i) by {
                    if i != id {
                        assert(unit_unchanged(pre, *final(self), i));
                        assert(pre.quiescent_at(i));
                    }
                }
                assert(final(self).inbox_of(0) == pre.inbox_of(0));
            }
        }
    }
}

/// A node whose unit `id` has just consumed its only queued message, and
/// changed nothing else, still satisfies the full invariant.
proof fn lemma_wf_after_consume(pre: Node, now: Node, id: int)
    requires
        pre.wf_base(),
        1 <= id < pre.unit_count(),
        forall|j: int|
            1 <= j < pre.unit_count() && j != id && pre.is_alive(j) ==> #[trigger] pre.quiescent_at(
                j,
            ),
        now.unit_count() == pre.unit_count(),
        now.tag_source() == pre.tag_source(),
        forall|i: int| #[trigger] now.is_alive(i) == pre.is_alive(i),
        forall|i: int, j: int|
            #![trigger pre.linked(i, j)]
            #![trigger now.linked(i, j)]
            pre.linked(i, j) == now.linked(i, j),
        now.inbox_of(id).len() == 0,
        !now.awaiting_init(id),
        forall|i: int| 0 <= i < pre.unit_count() && i != id ==> #[trigger] unit_kept(pre, now, i),
        now.inbox_of(0) == pre.inbox_of(0),
    ensures
        now.wf(),
{
    assert forall|i: int, j: int| #[trigger] now.linked(i, j) implies 0 <= j < now.unit_count()
        && j != i by {
        assert(pre.linked(i, j));
    }
    assert forall|i: int, j: int| #[trigger] now.linked(i, j) implies now.linked(j, i) by {
        assert(pre.linked(i, j));
        assert(pre.linked(j, i));
    }
    assert forall|i: int, j: int|
        #![trigger now.faulted(i), now.linked(i, j)]
        now.faulted(i) && now.linked(i, j) implies now.faulted(j) by {
        assert(pre.faulted(i));
        assert(pre.linked(i, j));
        assert(pre.faulted(j));
    }
    assert forall|i: int|
        1 <= i < now.unit_count() && now.is_alive(i) implies #[trigger] now.quiescent_at(i) by {
        if i != id {
            assert(unit_kept(pre, now, i));
            assert(pre.quiescent_at(i));
        }
    }
}

/// Transfers the outcome of `fault` on the consumed-inbox state `mid` back
/// to the pre-consumption state `pre`.
proof fn crash_bridge(pre: Node, mid: Node, post: Node, id: int)
    requires
        0 <= id < pre.unit_count(),
        mid.unit_count() == pre.unit_count(),
        mid.tag_source() == pre.tag_source(),
        mid.max_units() == pre.max_units(),
        forall|i: int| #[trigger] mid.is_alive(i) == pre.is_alive(i),
        forall|i: int, j: int|
            #![trigger pre.linked(i, j)]
            #![trigger mid.linked(i, j)]
            pre.linked(i, j) == mid.linked(i, j),
        mid.state_of(id) == pre.state_of(id),
        mid.handler_of(id) == pre.handler_of(id),
        mid.awaiting_init(id) == pre.awaiting_init(id),
        mid.inbox_of(id).len() == 0,
        forall|i: int| 0 <= i < pre.unit_count() && i != id ==> #[trigger] unit_kept(pre, mid, i),
        fault_propagated(mid, post, id),
        frame_except_alive(mid, post),
        post.tag_source() == mid.tag_source(),
        post.max_units() == mid.max_units(),
    ensures
        crash_outcome(pre, post, id),
{
    assert forall|i: int| #[trigger] pre.faulted(i) implies post.faulted(i) by {
        assert(mid.faulted(i));
    }
    assert forall|i: int, j: int|
        #![trigger pre.linked(i, j)]
        #![trigger post.linked(i, j)]
        pre.linked(i, j) == post.linked(i, j) by {
        assert(pre.linked(i, j) == mid.linked(i, j));
        assert(mid.linked(i, j) == post.linked(i, j));
    }
    assert forall|s: Set<int>| #[trigger] covers_fault(pre, id, s) implies forall|i: int|
        #[trigger] post.faulted(i) ==> s.contains(i) by {
        assert(covers_fault(mid, id, s)) by {
            assert forall|i: int| #[trigger] mid.faulted(i) implies s.contains(i) by {
                assert(pre.faulted(i));
            }
            assert forall|i: int, j: int|
                #![trigger s.contains(i), mid.linked(i, j)]
                s.contains(i) && mid.linked(i, j) implies s.contains(j) by {
                assert(pre.linked(i, j));
            }
        }
    }
    assert(post.inbox_of(id).len() == 0) by {
        assert(post.inbox_of(id) == mid.inbox_of(id));
    }
    assert forall|i: int| 0 <= i < pre.unit_count() && i != id implies #[trigger] unit_kept(
        pre,
        post,
        i,
    ) by {
        assert(unit_kept(pre, mid, i));
        assert(post.inbox_of(i) == mid.inbox_of(i));
        assert(post.state_of(i) == mid.state_of(i));
        assert(post.handler_of(i) == mid.handler_of(i));
        assert(post.awaiting_init(i) == mid.awaiting_init(i));
    }
    assert(post.state_of(id) == mid.state_of(id));
    assert(post.handler_of(id) == mid.handler_of(id));
    assert(post.awaiting_init(id) == mid.awaiting_init(id));
}

impl Node {
    /// One turn of a spawned unit's serve loop: take the delivered request
    /// triple, run the handler on the owned state, and send the tagged
    /// response back to the reply address embedded in the request. A
    /// message that is not a request triple, or a handler abort, is fatal
    /// for the unit and propagates along its links.
    fn handle_request(&mut self, id: usize)
        requires
            old(self).wf_base(),
            1 <= id < old(self).unit_count(),
            old(self).is_alive(id as int),
            old(self).is_alive(0),
            !old(self).awaiting_init(id as int),
            old(self).inbox_of(id as int).len() == 1,
            forall|j: int|
                1 <= j < old(self).unit_count() && j != id && old(self).is_alive(j)
                    ==> #[trigger] old(self).quiescent_at(j),
            old(self).inbox_of(id as int)[0].tag < old(self).next_tag(),
            old(self).inbox_of(id as int)[0].payload matches Payload::Request(r, m) ==> r
                == uuid_of(0),
        ensures
            final(self).wf(),
            final(self).unit_count() == old(self).unit_count(),
            final(self).tag_source() == old(self).tag_source(),
            final(self).max_units() == old(self).max_units(),
            forall|i: int, j: int|
                #![trigger old(self).linked(i, j)]
                #![trigger final(self).linked(i, j)]
                old(self).linked(i, j) == final(self).linked(i, j),
            ({
                let p = old(self).inbox_of(id as int)[0];
                match p.payload {
                    Payload::Request(ruuid, msg) => match handler_result(
                        old(self).handler_of(id as int),
                        old(self).state_of(id as int),
                        msg,
                    ) {
                        Some(sr) => {
                            &&& forall|i: int|
                                #[trigger] final(self).is_alive(i) == old(self).is_alive(i)
                            &&& final(self).state_of(id as int) == sr.0
                            &&& final(self).handler_of(id as int) == old(self).handler_of(
                                id as int,
                            )
                            &&& !final(self).awaiting_init(id as int)
                            &&& final(self).inbox_of(id as int).len() == 0
                            &&& final(self).inbox_of(0) == old(self).inbox_of(0).push(
                                (Packet { tag: p.tag, payload: Payload::Response(sr.1) }),
                            )
                            &&& forall|i: int|
                                0 < i < old(self).unit_count() && i != id
                                    ==> #[trigger] unit_kept(*old(self), *final(self), i)
                            &&& final(self).state_of(0) == old(self).state_of(0)
                            &&& final(self).handler_of(0) == old(self).handler_of(0)
                            &&& final(self).awaiting_init(0) == old(self).awaiting_init(0)
                        },
                        None => crash_outcome(*old(self), *final(self), id as int),
                    },
                    _ => crash_outcome(*old(self), *final(self), id as int),
                }
            }),
    {
        let ghost pre = *old(self);
        let (p, h) = {
            let u = unit_mut(&mut self.units, id);
            let p = u.mailbox.receive();
            let h = u.handler;
            (p, h)
        };
        let ghost mid = *self;
        proof {
            assert(mid.inbox_of(id as int) =~= Seq::<Packet>::empty());
            assert forall|i: int, j: int| #[trigger] pre.linked(i, j) implies mid.linked(i, j) by {
                let k = choose|k: int|
                    0 <= k < pre.units@[i].links@.len() && #[trigger] pre.units@[i].links@[k] as int
                        == j;
                assert(mid.units@[i].links@[k] as int == j);
            }
            assert forall|i: int, j: int| #[trigger] mid.linked(i, j) implies pre.linked(i, j) by {
                let k = choose|k: int|
                    0 <= k < mid.units@[i].links@.len() && #[trigger] mid.units@[i].links@[k] as int
                        == j;
                assert(pre.units@[i].links@[k] as int == j);
            }
            assert forall|i: int| #[trigger] mid.is_alive(i) == pre.is_alive(i) by {
                if i == id as int {
                    assert(mid.units@[id as int].alive == pre.units@[id as int].alive);
                }
            }
            assert forall|i: int|
                0 <= i < pre.unit_count() && i != id implies #[trigger] unit_kept(pre, mid, i) by {
                assert(unit_unchanged(pre, mid, i));
            }
            lemma_wf_after_consume(pre, mid, id as int);
        }
        match p.payload {
            Payload::Request(_ruuid, msg) => {
                let res = {
                    let u = unit_mut(&mut self.units, id);
                    apply_handler(h, &mut u.state, msg)
                };
                let ghost mh = *self;
                proof {
                    assert(mh.units@[id as int].mailbox == mid.units@[id as int].mailbox);
                    assert(mh.inbox_of(id as int).len() == 0);
                    assert forall|i: int, j: int| #[trigger] mid.linked(i, j) implies mh.linked(
                        i,
                        j,
                    ) by {
                        let k = choose|k: int|
                            0 <= k < mid.units@[i].links@.len()
                                && #[trigger] mid.units@[i].links@[k] as int == j;
                        assert(mh.units@[i].links@[k] as int == j);
                    }
                    assert forall|i: int, j: int| #[trigger] mh.linked(i, j) implies mid.linked(
                        i,
                        j,
                    ) by {
                        let k = choose|k: int|
                            0 <= k < mh.units@[i].links@.len()
                                && #[trigger] mh.units@[i].links@[k] as int == j;
                        assert(mid.units@[i].links@[k] as int == j);
                    }
                    assert forall|i: int| #[trigger] mh.is_alive(i) == pre.is_alive(i) by {
                        if i == id as int {
                            assert(mh.units@[id as int].alive == mid.units@[id as int].alive);
                        }
                    }
                    assert forall|i: int|
                        0 <= i < pre.unit_count() && i != id implies #[trigger] unit_kept(
                        pre,
                        mh,
                        i,
                    ) by {
                        assert(mh.units@[i] == mid.units@[i]);
                        assert(unit_unchanged(pre, mid, i));
                    }
                    assert(mh.inbox_of(0) == pre.inbox_of(0));
                    lemma_wf_after_consume(pre, mh, id as int);
                }
                match res {
                    Some(resp) => {
                        self.deliver_packet(
                            0,
                            Packet { tag: p.tag, payload: Payload::Response(resp) },
                        );
                        proof {
                            let pst = *final(self);
                            assert(unit_unchanged(mh, pst, id as int));
                            assert forall|i: int| #[trigger] pst.is_alive(i) == pre.is_alive(
                                i,
                            ) by {
                                assert(mh.is_alive(i) == pre.is_alive(i));
                                if 0 <= i < pre.unit_count() && i != 0 {
                                    assert(unit_unchanged(mh, pst, i));
                                }
                            }
                            assert(pst.inbox_of(id as int).len() == 0);
                            assert(pst.state_of(id as int) == mh.state_of(id as int));
                            assert forall|i: int|
                                0 < i < pre.unit_count() && i != id implies #[trigger] unit_kept(
                                pre,
                                pst,
                                i,
                            ) by {
                                assert(unit_kept(pre, mh, i));
                                assert(unit_unchanged(mh, pst, i));
                            }
                            assert(pst.wf()) by {
                                assert forall|i: int, j: int| #[trigger] pst.linked(i, j) implies 0
                                    <= j < pst.unit_count() && j != i by {
                                    assert(mh.linked(i, j));
                                    assert(pre.linked(i, j));
                                }
                                assert forall|i: int, j: int| #[trigger] pst.linked(i, j) implies
                                    pst.linked(j, i) by {
                                    assert(mh.linked(i, j));
                                    assert(pre.linked(i, j));
                                    assert(pre.linked(j, i));
                                    assert(mh.linked(j, i));
                                }
                                assert forall|i: int, j: int|
                                    #![trigger pst.faulted(i), pst.linked(i, j)]
                                    pst.faulted(i) && pst.linked(i, j) implies pst.faulted(j) by {
                                    assert(mh.linked(i, j));
                                    assert(pre.linked(i, j));
                                    assert(pre.faulted(i));
                                    assert(pre.faulted(j));
                                }
                                assert forall|i: int|
                                    1 <= i < pst.unit_count() && pst.is_alive(i) implies #[trigger]
                                    pst.quiescent_at(i) by {
                                    if i == id as int {
                                        assert(unit_unchanged(mh, pst, i));
                                    } else {
                                        assert(unit_kept(pre, pst, i));
                                        assert(pre.quiescent_at(i));
                                    }
                                }
                                assert forall|k: int|
                                    0 <= k < pst.inbox_of(0).len() implies (#[trigger] pst.inbox_of(
                                        0,
                                    )[k]).tag < pst.next_tag() by {
                                    if k < pre.inbox_of(0).len() {
                                        assert(pst.inbox_of(0)[k] == pre.inbox_of(0)[k]);
                                    } else {
                                        assert(pst.inbox_of(0)[k].tag == p.tag);
                                    }
                                }
                            }
                        }
                    },
                    None => {
                        self.fault(id);
                        proof {
                            assert(crash_outcome(pre, *final(self), id as int)) by {
                                crash_bridge(pre, mh, *final(self), id as int);
                            }
                        }
                    },
                }
            },
            _ => {
                self.fault(id);
                proof {
                    assert(crash_outcome(pre, *final(self), id as int)) by {
                        crash_bridge(pre, mid, *final(self), id as int);
                    }
                }
            },
        }
    }
}

/// An opaque, copyable handle naming a spawned execution unit. Two handles
/// are equal exactly when their global identifiers are equal.
#[derive(Clone, Copy, PartialEq, Eq, Structural, Debug, Hash)]
pub struct Server {
    id: usize,
}

impl Server {
    /// The local index of the named unit.
    pub closed spec fn local_id(self) -> int {
        self.id as int
    }

    /// The handle names a unit that exists on the node (spawned handles
    /// always do: indices are never reused).
    pub open spec fn valid(self, node: Node) -> bool {
        1 <= self.local_id() < node.unit_count()
    }

    /// The globally unique identifier of the named unit.
    pub open spec fn uuid(self) -> u128 {
        uuid_of(self.local_id())
    }

    /// Returns the globally unique process identifier; never fails, even
    /// for a handle to a terminated unit.
    pub fn id(&self) -> (r: u128)
        ensures
            r == self.uuid(),
    {
        self.id as u128
    }

    /// The one-shot, fire-and-forget delivery of the captured state to a
    /// newly spawned unit — the second half of the spawn handshake, not
    /// part of the steady-state request/response protocol.
    fn send_init(&self, node: &mut Node, state: Value)
        requires
            self.valid(*old(node)),
        ensures
            final(node).unit_count() == old(node).unit_count(),
            final(node).tag_source() == old(node).tag_source(),
            final(node).max_units() == old(node).max_units(),
            final(node).inbox_of(self.local_id()) == old(node).inbox_of(self.local_id()).push(
                (Packet { tag: 0, payload: Payload::Init(state) }),
            ),
            final(node).is_alive(self.local_id()) == old(node).is_alive(self.local_id()),
            final(node).state_of(self.local_id()) == old(node).state_of(self.local_id()),
            final(node).handler_of(self.local_id()) == old(node).handler_of(self.local_id()),
            final(node).awaiting_init(self.local_id()) == old(node).awaiting_init(self.local_id()),
            forall|i: int|
                0 <= i < old(node).unit_count() && i != self.local_id() ==> unit_unchanged(
                    *old(node),
                    *final(node),
                    i,
                ),
            forall|i: int, j: int|
                #![trigger old(node).linked(i, j)]
                #![trigger final(node).linked(i, j)]
                old(node).linked(i, j) == final(node).linked(i, j),
    {
        node.deliver_packet(self.id, Packet { tag: 0, payload: Payload::Init(state) });
    }
}

/// Allocates a new isolated execution unit running the serve loop over
/// `handler`, transferring `state` to it; with `link`, ties the new unit
/// and the current one together for failure propagation.
fn spawn_inner(node: &mut Node, link: bool, state: Value, handler: Handler) -> (r: Result<
    Server,
    SpawnError,
>)
    requires
        old(node).wf(),
        old(node).is_alive(0),
    ensures
        final(node).wf(),
        final(node).tag_source() == old(node).tag_source(),
        final(node).max_units() == old(node).max_units(),
        r is Ok <==> old(node).unit_count() < old(node).max_units(),
        r matches Err(e) ==> e.code == old(node).unit_count() as u64 && final(node).unit_count()
            == old(node).unit_count() && (forall|i: int|
            0 <= i < old(node).unit_count() ==> unit_unchanged(*old(node), *final(node), i))
            && (forall|i: int, j: int|
            #![trigger old(node).linked(i, j)]
            #![trigger final(node).linked(i, j)]
            old(node).linked(i, j) == final(node).linked(i, j)),
        r matches Ok(srv) ==> ({
            let new = old(node).unit_count();
            &&& srv.local_id() == new
            &&& srv.valid(*final(node))
            &&& final(node).unit_count() == new + 1
            &&& final(node).is_alive(new)
            &&& final(node).handler_of(new) == handler
            &&& final(node).effective_state(new) == state
            &&& (is_zero_sized(state) ==> !final(node).awaiting_init(new) && final(node).inbox_of(
                new,
            ).len() == 0)
            &&& (!is_zero_sized(state) ==> final(node).awaiting_init(new) && final(node).inbox_of(
                new,
            ) == seq![(Packet { tag: 0, payload: Payload::Init(state) })])
            &&& (link ==> final(node).linked(0, new) && final(node).linked(new, 0))
            &&& (!link ==> forall|i: int, j: int|
                #![trigger old(node).linked(i, j)]
                #![trigger final(node).linked(i, j)]
                old(node).linked(i, j) == final(node).linked(i, j))
            &&& forall|i: int, j: int|
                0 <= i < new && 0 <= j < new ==> #[trigger] final(node).linked(i, j) == old(
                    node,
                ).linked(i, j)
            &&& forall|j: int| !final(node).linked(new, j) || (link && j == 0)
            &&& forall|i: int|
                0 < i < new ==> #[trigger] unit_unchanged(*old(node), *final(node), i)
            &&& final(node).inbox_of(0) == old(node).inbox_of(0)
            &&& final(node).is_alive(0)
            &&& final(node).state_of(0) == old(node).state_of(0)
            &&& final(node).handler_of(0) == old(node).handler_of(0)
            &&& final(node).awaiting_init(0) == old(node).awaiting_init(0)
        }),
{
    let ghost pre = *old(node);
    if node.units.len() >= node.capacity {
        return Err(SpawnError { code: node.units.len() as u64 });
    }
    let id = node.units.len();
    let zero = matches!(state, Value::Empty);
    let mut links: Vec<usize> = Vec::new();
    if link {
        links.push(0);
        let root = unit_mut(&mut node.units, 0);
        root.links.push(id);
    }
    let child = Server { id };
    let ghost lks: Seq<usize> = links@;
    node.units.push(
        Unit {
            mailbox: Mailbox::new(),
            state: Value::Empty,
            handler,
            links,
            alive: true,
            awaiting_init: !zero,
        },
    );
    let ghost grown = *node;
    proof {
        assert(grown.units@[id as int].links@ == lks);
        assert forall|i: int, j: int|
            #[trigger] grown.linked(i, j) == (pre.linked(i, j) || (link && ((i == 0 && j
                == id as int) || (i == id as int && j == 0)))) by {
            if grown.linked(i, j) {
                let k = choose|k: int|
                    0 <= k < grown.units@[i].links@.len()
                        && #[trigger] grown.units@[i].links@[k] as int == j;
                if i == id as int {
                    assert(link && j == 0);
                } else if i == 0 && link {
                    if k < pre.units@[0].links@.len() {
                        assert(pre.units@[0].links@[k] as int == j);
                        assert(pre.linked(0, j));
                    } else {
                        assert(j == id as int);
                    }
                } else {
                    assert(grown.units@[i].links == pre.units@[i].links);
                    assert(pre.units@[i].links@[k] as int == j);
                    assert(pre.linked(i, j));
                }
            }
            if pre.linked(i, j) {
                let k = choose|k: int|
                    0 <= k < pre.units@[i].links@.len()
                        && #[trigger] pre.units@[i].links@[k] as int == j;
                if i == 0 && link {
                    assert(grown.units@[0].links@ == pre.units@[0].links@.push(id));
                    assert(grown.units@[0].links@[k] as int == j);
                    assert(grown.linked(0, j));
                } else {
                    assert(grown.units@[i].links == pre.units@[i].links);
                    assert(grown.units@[i].links@[k] as int == j);
                    assert(grown.linked(i, j));
                }
            }
            if link && i == 0 && j == id as int {
                assert(grown.units@[0].links@ == pre.units@[0].links@.push(id));
                assert(grown.units@[0].links@[pre.units@[0].links@.len() as int] as int
                    == id as int);
                assert(grown.linked(0, id as int));
            }
            if link && i == id as int && j == 0 {
                assert(grown.units@[id as int].links@[0] as int == 0);
                assert(grown.linked(id as int, 0));
            }
        }
    }
    if !zero {
        child.send_init(node, state);
    }
    proof {
        let pst = *final(node);
        assert forall|i: int, j: int|
            #[trigger] pst.linked(i, j) == (pre.linked(i, j) || (link && ((i == 0 && j
                == id as int) || (i == id as int && j == 0)))) by {
            assert(pst.linked(i, j) == grown.linked(i, j));
        }
        assert(unit_unchanged(grown, pst, 0));
        assert forall|i: int| #[trigger] pst.is_alive(i) == grown.is_alive(i) by {
            if 0 <= i < grown.unit_count() && i != id {
                assert(unit_unchanged(grown, pst, i));
            }
        }
        if !zero {
            assert(pst.inbox_of(id as int) =~= seq![
                (Packet { tag: 0, payload: Payload::Init(state) }),
            ]);
        }
        assert forall|i: int|
            0 < i < id implies #[trigger] unit_unchanged(pre, pst, i) by {
            assert(grown.units@[i] == pre.units@[i]);
            assert(unit_unchanged(pre, grown, i));
            assert(unit_unchanged(grown, pst, i));
        }
        assert(pst.inbox_of(0) == pre.inbox_of(0));
        assert(pst.state_of(0) == pre.state_of(0));
        assert(pst.handler_of(0) == pre.handler_of(0));
        assert(pst.awaiting_init(0) == pre.awaiting_init(0));
        assert(pst.is_alive(0));
        assert(pst.is_alive(id as int));
        assert(pst.handler_of(id as int) == handler);
        assert(pst.effective_state(id as int) == state);
        assert(pst.wf()) by {
            assert forall|i: int, j: int| #[trigger] pst.linked(i, j) implies 0 <= j
                < pst.unit_count() && j != i by {
                if pre.linked(i, j) {
                    assert(0 <= j < pre.unit_count());
                }
            }
            assert forall|i: int, j: int| #[trigger] pst.linked(i, j) implies pst.linked(
                j,
                i,
            ) by {
                if pre.linked(i, j) {
                    assert(pre.linked(j, i));
                }
            }
            assert forall|i: int, j: int|
                #![trigger pst.faulted(i), pst.linked(i, j)]
                pst.faulted(i) && pst.linked(i, j) implies pst.faulted(j) by {
                if pre.linked(i, j) {
                    assert(pre.faulted(i));
                    assert(pre.faulted(j));
                }
            }
            assert forall|i: int|
                1 <= i < pst.unit_count() && pst.is_alive(i) implies #[trigger] pst.quiescent_at(
                i,
            ) by {
                if i < id as int {
                    assert(unit_unchanged(pre, pst, i));
                    assert(pre.quiescent_at(i));
                }
            }
            assert(pst.inbox_of(0) == pre.inbox_of(0));
        }
    }
    Ok(child)
}

/// Everything spawning promises: reported refusal exactly when the
/// resource limit is reached, and on success a fresh, running unit with the
/// requested handler, the captured state transferred by handshake exactly
/// when it is not zero-sized, linked to the current unit exactly when asked
/// to, and nothing else disturbed.
pub open spec fn spawn_outcome(
    pre: Node,
    post: Node,
    r: Result<Server, SpawnError>,
    state: Value,
    handler: Handler,
    link: bool,
) -> bool {
    &&& (r is Ok <==> pre.unit_count() < pre.max_units())
    &&& (r matches Err(e) ==> e.code == pre.unit_count() as u64 && post.unit_count()
        == pre.unit_count() && (forall|i: int|
        0 <= i < pre.unit_count() ==> unit_unchanged(pre, post, i)) && (forall|i: int, j: int|
        #![trigger pre.linked(i, j)]
        #![trigger post.linked(i, j)]
        pre.linked(i, j) == post.linked(i, j)))
    &&& (r matches Ok(srv) ==> ({
        let new = pre.unit_count();
        &&& srv.local_id() == new
        &&& srv.valid(post)
        &&& post.unit_count() == new + 1
        &&& post.is_alive(new)
        &&& post.handler_of(new) == handler
        &&& post.effective_state(new) == state
        &&& (is_zero_sized(state) ==> !post.awaiting_init(new) && post.inbox_of(new).len() == 0)
        &&& (!is_zero_sized(state) ==> post.awaiting_init(new) && post.inbox_of(new) == seq![
            (Packet { tag: 0, payload: Payload::Init(state) }),
        ])
        &&& forall|i: int, j: int|
            #[trigger] post.linked(i, j) == (pre.linked(i, j) || (link && ((i == 0 && j == new) || (
            i == new && j == 0))))
        &&& forall|i: int| 0 < i < new ==> #[trigger] unit_unchanged(pre, post, i)
        &&& post.inbox_of(0) == pre.inbox_of(0)
        &&& post.is_alive(0)
        &&& post.state_of(0) == pre.state_of(0)
        &&& post.handler_of(0) == pre.handler_of(0)
        &&& post.awaiting_init(0) == pre.awaiting_init(0)
    }))
}

/// Spawns a server: a new isolated unit that owns `state` and answers
/// every request with `handler`, unlinked. Failure to allocate the unit is
/// reported, never dropped.
pub fn spawn(node: &mut Node, state: Value, handler: Handler) -> (r: Result<Server, SpawnError>)
    requires
        old(node).wf(),
        old(node).is_alive(0),
    ensures
        final(node).wf(),
        final(node).tag_source() == old(node).tag_source(),
        final(node).max_units() == old(node).max_units(),
        spawn_outcome(*old(node), *final(node), r, state, handler, false),
{
    spawn_inner(node, false, state, handler)
}

/// Spawns a server as [`spawn`] does, additionally linked to the current
/// unit: abnormal termination of either unwinds the other.
pub fn spawn_link(node: &mut Node, state: Value, handler: Handler) -> (r: Result<
    Server,
    SpawnError,
>)
    requires
        old(node).wf(),
        old(node).is_alive(0),
    ensures
        final(node).wf(),
        final(node).tag_source() == old(node).tag_source(),
        final(node).max_units() == old(node).max_units(),
        spawn_outcome(*old(node), *final(node), r, state, handler, true),
{
    spawn_inner(node, true, state, handler)
}

impl Server {
    /// Sends `message` to the named server and blocks until the reply that
    /// carries this request's fresh correlation tag arrives, leaving every
    /// unrelated queued message untouched. A request to a terminated unit
    /// is a delivery failure, not an error: no reply ever comes (`None`
    /// stands for the caller staying blocked; bounding the wait is the
    /// caller's affair). A handler abort while serving unwinds the server
    /// and propagates along its links — possibly to the current unit.
    pub fn request(&self, node: &mut Node, message: Value) -> (r: Option<Value>)
        requires
            old(node).wf(),
            self.valid(*old(node)),
            old(node).is_alive(0),
            old(node).next_tag() < u64::MAX,
        ensures
            final(node).wf(),
            final(node).unit_count() == old(node).unit_count(),
            final(node).max_units() == old(node).max_units(),
            final(node).next_tag() == old(node).next_tag() + 1,
            final(node).issued_tags() == old(node).issued_tags().push(old(node).next_tag()),
            !old(node).is_alive(self.local_id()) ==> r == None::<Value> && (forall|i: int|
                0 <= i < old(node).unit_count() ==> unit_unchanged(*old(node), *final(node), i))
                && (forall|i: int, j: int|
                #![trigger old(node).linked(i, j)]
                #![trigger final(node).linked(i, j)]
                old(node).linked(i, j) == final(node).linked(i, j)),
            old(node).is_alive(self.local_id()) ==> ({
                let target = self.local_id();
                match handler_result(
                    old(node).handler_of(target),
                    old(node).effective_state(target),
                    message,
                ) {
                    Some(sr) => {
                        &&& r == Some(sr.1)
                        &&& final(node).is_alive(target)
                        &&& final(node).state_of(target) == sr.0
                        &&& final(node).handler_of(target) == old(node).handler_of(target)
                        &&& !final(node).awaiting_init(target)
                        &&& final(node).inbox_of(target).len() == 0
                        &&& final(node).inbox_of(0) == old(node).inbox_of(0)
                        &&& forall|i: int|
                            #[trigger] final(node).is_alive(i) == old(node).is_alive(i)
                        &&& forall|i: int|
                            0 <= i < old(node).unit_count() && i != target
                                ==> #[trigger] unit_kept(*old(node), *final(node), i)
                        &&& forall|i: int, j: int|
                            #![trigger old(node).linked(i, j)]
                            #![trigger final(node).linked(i, j)]
                            old(node).linked(i, j) == final(node).linked(i, j)
                    },
                    None => {
                        &&& r == None::<Value>
                        &&& fault_propagated(*old(node), *final(node), target)
                        &&& final(node).state_of(target) == old(node).effective_state(target)
                        &&& final(node).handler_of(target) == old(node).handler_of(target)
                        &&& final(node).inbox_of(target).len() == 0
                        &&& final(node).inbox_of(0) == old(node).inbox_of(0)
                        &&& forall|i: int|
                            0 <= i < old(node).unit_count() && i != target
                                ==> #[trigger] unit_kept(*old(node), *final(node), i)
                    },
                }
            }),
    {
        let ghost pre = *old(node);
        let ghost target = self.local_id();
        let tag = Tag::new(&mut node.tags);
        let ghost tagged = *node;
        proof {
            assert(tagged.units@ == pre.units@);
            assert forall|i: int, j: int| #[trigger] tagged.linked(i, j) == pre.linked(i, j) by {}
            assert(tagged.wf()) by {
                assert forall|i: int, j: int| #[trigger] tagged.linked(i, j) implies 0 <= j
                    < tagged.unit_count() && j != i by {
                    assert(pre.linked(i, j));
                }
                assert forall|i: int, j: int| #[trigger] tagged.linked(i, j) implies tagged.linked(
                    j,
                    i,
                ) by {
                    assert(pre.linked(i, j));
                    assert(pre.linked(j, i));
                }
                assert forall|i: int, j: int|
                    #![trigger tagged.faulted(i), tagged.linked(i, j)]
                    tagged.faulted(i) && tagged.linked(i, j) implies tagged.faulted(j) by {
                    assert(pre.faulted(i));
                    assert(pre.linked(i, j));
                    assert(pre.faulted(j));
                }
                assert forall|i: int|
                    1 <= i < tagged.unit_count() && tagged.is_alive(i) implies #[trigger]
                    tagged.quiescent_at(i) by {
                    assert(pre.is_alive(i));
                    assert(pre.quiescent_at(i));
                }
                assert(tagged.inbox_of(0) == pre.inbox_of(0));
            }
        }
        if !node.units[self.id].alive {
            proof {
                assert forall|i: int|
                    0 <= i < pre.unit_count() implies unit_unchanged(pre, *final(node), i) by {}
            }
            return None;
        }
        proof {
            assert(tagged.is_alive(target));
            assert(tagged.quiescent_at(target));
        }
        if node.units[self.id].awaiting_init {
            node.handle_init(self.id);
        }
        let ghost inited = *node;
        proof {
            assert forall|i: int| #[trigger] inited.is_alive(i) == pre.is_alive(i) by {
                if 0 <= i < pre.unit_count() && i != target {
                    assert(unit_unchanged(tagged, inited, i));
                }
            }
            assert forall|i: int, j: int|
                #![trigger pre.linked(i, j)]
                #![trigger inited.linked(i, j)]
                pre.linked(i, j) == inited.linked(i, j) by {
                assert(pre.linked(i, j) == tagged.linked(i, j));
                assert(tagged.linked(i, j) == inited.linked(i, j));
            }
            assert forall|i: int|
                0 <= i < pre.unit_count() && i != target implies #[trigger] unit_unchanged(
                pre,
                inited,
                i,
            ) by {
                assert(unit_unchanged(tagged, inited, i));
            }
            assert(inited.wf());
            assert(unit_unchanged(pre, inited, 0));
            assert(inited.state_of(target) == pre.effective_state(target));
            assert(inited.is_alive(target));
            assert(!inited.awaiting_init(target));
            assert(inited.inbox_of(target).len() == 0);
            assert(inited.inbox_of(0) == pre.inbox_of(0));
            assert(inited.handler_of(target) == pre.handler_of(target));
            assert(inited.is_alive(0));
        }
        let pkt = Packet { tag: tag.value, payload: Payload::Request(0u128, message) };
        node.deliver_packet(self.id, pkt);
        let ghost del = *node;
        proof {
            assert(del.inbox_of(target) =~= seq![pkt]);
            assert(unit_unchanged(inited, del, 0));
            assert forall|i: int| #[trigger] del.is_alive(i) == inited.is_alive(i) by {
                if 0 <= i < inited.unit_count() && i != target {
                    assert(unit_unchanged(inited, del, i));
                }
            }
            assert(del.is_alive(0));
            assert(del.is_alive(target));
            assert(del.state_of(target) == pre.effective_state(target));
            assert(del.handler_of(target) == pre.handler_of(target));
            assert(!del.awaiting_init(target));
            assert(del.inbox_of(0) == pre.inbox_of(0));
            assert(del.wf_base()) by {
                assert forall|i: int, j: int| #[trigger] del.linked(i, j) implies 0 <= j
                    < del.unit_count() && j != i by {
                    assert(inited.linked(i, j));
                    assert(pre.linked(i, j));
                }
                assert forall|i: int, j: int| #[trigger] del.linked(i, j) implies del.linked(
                    j,
                    i,
                ) by {
                    assert(inited.linked(i, j));
                    assert(pre.linked(i, j));
                    assert(pre.linked(j, i));
                    assert(inited.linked(j, i));
                }
                assert forall|i: int, j: int|
                    #![trigger del.faulted(i), del.linked(i, j)]
                    del.faulted(i) && del.linked(i, j) implies del.faulted(j) by {
                    assert(inited.linked(i, j));
                    assert(pre.linked(i, j));
                    assert(inited.faulted(i));
                    assert(pre.faulted(i));
                    assert(pre.faulted(j));
                }
                assert forall|k: int|
                    0 <= k < del.inbox_of(0).len() implies (#[trigger] del.inbox_of(0)[k]).tag
                        < del.next_tag() by {
                    assert(del.inbox_of(0)[k] == pre.inbox_of(0)[k]);
                }
            }
            assert forall|j: int|
                1 <= j < del.unit_count() && j != self.id && del.is_alive(j) implies #[trigger]
                del.quiescent_at(j) by {
                assert(unit_unchanged(inited, del, j));
                assert(inited.is_alive(j));
                assert(inited.quiescent_at(j));
            }
        }
        node.handle_request(self.id);
        let ghost served = *node;
        let still = node.units[self.id].alive;
        if still {
            proof {
                if handler_result(pre.handler_of(target), pre.effective_state(target), message)
                    is None {
                    assert(crash_outcome(del, served, target));
                    assert(false);
                }
            }
            let ghost sr = handler_result(
                pre.handler_of(target),
                pre.effective_state(target),
                message,
            )->Some_0;
            let ghost q0 = served.inbox_of(0);
            let mut wanted: Vec<u64> = Vec::new();
            wanted.push(tag.value);
            proof {
                assert(wanted@ =~= seq![tag.value]);
                assert(wanted@[0] == tag.value);
                assert(wanted@.contains(tag.value));
                assert(q0 == pre.inbox_of(0).push(
                    (Packet { tag: tag.value, payload: Payload::Response(sr.1) }),
                ));
                assert(q0[q0.len() - 1].tag == tag.value);
                assert(has_match(q0, wanted@));
            }
            let u0 = unit_mut(&mut node.units, 0);
            let got = u0.mailbox.receive_matching(&wanted);
            proof {
                let k = match_index(q0, wanted@);
                crate::mailbox::lemma_match_index(q0, wanted@);
                assert(k == q0.len() - 1) by {
                    if k < q0.len() - 1 {
                        assert(q0[k] == pre.inbox_of(0)[k]);
                        assert(q0[k].tag < pre.next_tag());
                        assert(wanted@.contains(q0[k].tag));
                        let m = choose|m: int|
                            0 <= m < wanted@.len() && #[trigger] wanted@[m] == q0[k].tag;
                        assert(false);
                    }
                }
                assert(got == q0[q0.len() - 1]);
                assert(got.payload == Payload::Response(sr.1));
                assert(node.units@[0].mailbox.inbox() =~= pre.inbox_of(0));
                assert(node.units@[0].state == served.units@[0].state);
                assert(node.units@[0].links == served.units@[0].links);
                assert(node.units@[0].alive == served.units@[0].alive);
                assert(node.units@[0].handler == served.units@[0].handler);
                assert(node.units@[0].awaiting_init == served.units@[0].awaiting_init);
                assert forall|i: int|
                    0 <= i < served.units@.len() && i != 0 implies #[trigger] node.units@[i]
                        == served.units@[i] by {}
            }
            match got.payload {
                Payload::Response(v) => {
                    proof {
                        let pst = *final(node);
                        assert(pst.inbox_of(0) == pre.inbox_of(0));
                        assert forall|i: int|
                            0 <= i < served.units@.len() && i != 0 implies #[trigger] pst.units@[i]
                                == served.units@[i] by {}
                        assert forall|i: int, j: int| #[trigger] pst.linked(i, j) == served.linked(
                            i,
                            j,
                        ) by {
                            if 0 <= i < served.units@.len() {
                                assert(pst.units@[i].links == served.units@[i].links);
                            }
                        }
                        assert forall|i: int| #[trigger] pst.is_alive(i) == served.is_alive(
                            i,
                        ) by {
                            if 0 <= i < served.units@.len() {
                                assert(pst.units@[i].alive == served.units@[i].alive);
                            }
                        }
                        assert(pst.units@[target].handler == served.units@[target].handler);
                        assert(served.handler_of(target) == del.handler_of(target));
                        assert forall|i: int|
                            0 <= i < pre.unit_count() && i != target implies #[trigger] unit_kept(
                            pre,
                            pst,
                            i,
                        ) by {
                            if i != 0 {
                                assert(unit_kept(del, served, i));
                                assert(unit_unchanged(inited, del, i));
                                assert(unit_unchanged(pre, inited, i));
                                assert(pst.units@[i] == served.units@[i]);
                            } else {
                                assert(pst.units@[0].state == served.units@[0].state);
                                assert(pst.units@[0].handler == served.units@[0].handler);
                                assert(pst.units@[0].awaiting_init
                                    == served.units@[0].awaiting_init);
                            }
                        }
                        assert(pst.wf()) by {
                            assert forall|i: int, j: int| #[trigger] pst.linked(i, j) implies 0 <= j
                                < pst.unit_count() && j != i by {
                                assert(served.linked(i, j));
                            }
                            assert forall|i: int, j: int| #[trigger] pst.linked(i, j) implies
                                pst.linked(j, i) by {
                                assert(served.linked(i, j));
                                assert(served.linked(j, i));
                            }
                            assert forall|i: int, j: int|
                                #![trigger pst.faulted(i), pst.linked(i, j)]
                                pst.faulted(i) && pst.linked(i, j) implies pst.faulted(j) by {
                                assert(served.linked(i, j));
                                assert(served.faulted(i));
                                assert(served.faulted(j));
                            }
                            assert forall|i: int|
                                1 <= i < pst.unit_count() && pst.is_alive(i) implies #[trigger]
                                pst.quiescent_at(i) by {
                                assert(pst.units@[i] == served.units@[i]);
                                assert(served.is_alive(i));
                                assert(served.quiescent_at(i));
                            }
                            assert forall|k: int|
                                0 <= k < pst.inbox_of(0).len() implies (#[trigger] pst.inbox_of(
                                    0,
                                )[k]).tag < pst.next_tag() by {
                                assert(pst.inbox_of(0)[k] == pre.inbox_of(0)[k]);
                            }
                        }
                    }
                    Some(v)
                },
                _ => {
                    proof {
                        assert(false);
                    }
                    None
                },
            }
        } else {
            proof {
                if handler_result(pre.handler_of(target), pre.effective_state(target), message)
                    matches Some(sr2) {
                    assert(served.is_alive(target) == del.is_alive(target));
                    assert(false);
                }
                assert(crash_outcome(del, served, target));
                assert(fault_propagated(pre, served, target)) by {
                    assert forall|i: int, j: int|
                        #![trigger pre.linked(i, j)]
                        #![trigger served.linked(i, j)]
                        pre.linked(i, j) == served.linked(i, j) by {
                        assert(pre.linked(i, j) == inited.linked(i, j));
                        assert(inited.linked(i, j) == del.linked(i, j));
                        assert(del.linked(i, j) == served.linked(i, j));
                    }
                    assert forall|i: int| #[trigger] pre.faulted(i) implies served.faulted(i) by {
                        assert(inited.faulted(i));
                        assert(del.faulted(i));
                    }
                    assert forall|s: Set<int>| #[trigger] covers_fault(pre, target, s) implies
                        forall|i: int| #[trigger] served.faulted(i) ==> s.contains(i) by {
                        assert(covers_fault(del, target, s)) by {
                            assert forall|i: int| #[trigger] del.faulted(i) implies s.contains(
                                i,
                            ) by {
                                assert(inited.faulted(i) == del.faulted(i));
                                assert(pre.faulted(i));
                            }
                            assert forall|i: int, j: int|
                                #![trigger s.contains(i), del.linked(i, j)]
                                s.contains(i) && del.linked(i, j) implies s.contains(j) by {
                                assert(inited.linked(i, j));
                                assert(pre.linked(i, j));
                            }
                        }
                    }
                }
                assert forall|i: int|
                    0 <= i < pre.unit_count() && i != target implies #[trigger] unit_kept(
                    pre,
                    *final(node),
                    i,
                ) by {
                    assert(unit_kept(del, served, i));
                    assert(unit_unchanged(inited, del, i));
                    assert(unit_unchanged(pre, inited, i));
                }
                assert(unit_kept(del, served, 0));
                assert(final(node).inbox_of(0) == pre.inbox_of(0));
                assert(final(node).state_of(target) == pre.effective_state(target));
            }
            None
        }
    }
}

impl Node {
    /// Sends a one-way message to the current unit's own mailbox, under a
    /// fresh tag of its own, and returns that tag. This is how a unit
    /// queues unrelated work for itself while a request is in flight.
    pub fn send_to_self(&mut self, value: Value) -> (t: Tag)
        requires
            old(self).wf(),
            old(self).next_tag() < u64::MAX,
        ensures
            final(self).wf(),
            t.value == old(self).next_tag(),
            final(self).next_tag() == old(self).next_tag() + 1,
            final(self).issued_tags() == old(self).issued_tags().push(t.value),
            final(self).unit_count() == old(self).unit_count(),
            final(self).max_units() == old(self).max_units(),
            final(self).inbox_of(0) == old(self).inbox_of(0).push(
                (Packet { tag: t.value, payload: Payload::Response(value) }),
            ),
            forall|i: int|
                0 < i < old(self).unit_count() ==> #[trigger] unit_unchanged(
                    *old(self),
                    *final(self),
                    i,
                ),
            final(self).is_alive(0) == old(self).is_alive(0),
            forall|i: int, j: int|
                #![trigger old(self).linked(i, j)]
                #![trigger final(self).linked(i, j)]
                old(self).linked(i, j) == final(self).linked(i, j),
    {
        let ghost pre = *old(self);
        let t = Tag::new(&mut self.tags);
        let ghost tagged = *self;
        self.deliver_packet(0, Packet { tag: t.value, payload: Payload::Response(value) });
        proof {
            let pst = *final(self);
            assert(tagged.units@ == pre.units@);
            assert forall|i: int, j: int|
                #![trigger pre.linked(i, j)]
                #![trigger pst.linked(i, j)]
                pre.linked(i, j) == pst.linked(i, j) by {
                assert(pre.linked(i, j) == tagged.linked(i, j));
                assert(tagged.linked(i, j) == pst.linked(i, j));
            }
            assert forall|i: int| #[trigger] pst.is_alive(i) == pre.is_alive(i) by {
                if 0 <= i < pre.unit_count() && i != 0 {
                    assert(unit_unchanged(tagged, pst, i));
                }
            }
            assert forall|i: int|
                0 < i < pre.unit_count() implies #[trigger] unit_unchanged(pre, pst, i) by {
                assert(unit_unchanged(tagged, pst, i));
            }
            assert(pst.wf()) by {
                assert forall|i: int, j: int| #[trigger] pst.linked(i, j) implies 0 <= j
                    < pst.unit_count() && j != i by {
                    assert(pre.linked(i, j));
                }
                assert forall|i: int, j: int| #[trigger] pst.linked(i, j) implies pst.linked(
                    j,
                    i,
                ) by {
                    assert(pre.linked(i, j));
                    assert(pre.linked(j, i));
                }
                assert forall|i: int, j: int|
                    #![trigger pst.faulted(i), pst.linked(i, j)]
                    pst.faulted(i) && pst.linked(i, j) implies pst.faulted(j) by {
                    assert(pre.faulted(i));
                    assert(pre.linked(i, j));
                    assert(pre.faulted(j));
                }
                assert forall|i: int|
                    1 <= i < pst.unit_count() && pst.is_alive(i) implies #[trigger]
                    pst.quiescent_at(i) by {
                    assert(unit_unchanged(pre, pst, i));
                    assert(pre.quiescent_at(i));
                }
                assert forall|k: int|
                    0 <= k < pst.inbox_of(0).len() implies (#[trigger] pst.inbox_of(0)[k]).tag
                        < pst.next_tag() by {
                    if k < pre.inbox_of(0).len() {
                        assert(pst.inbox_of(0)[k] == pre.inbox_of(0)[k]);
                    } else {
                        assert(pst.inbox_of(0)[k].tag == t.value);
                    }
                }
            }
        }
        t
    }

    /// Takes the oldest message queued at the current unit's own mailbox.
    pub fn receive_self(&mut self) -> (p: Packet)
        requires
            old(self).wf(),
            old(self).inbox_of(0).len() > 0,
        ensures
            final(self).wf(),
            p == old(self).inbox_of(0)[0],
            final(self).inbox_of(0) == old(self).inbox_of(0).subrange(
                1,
                old(self).inbox_of(0).len() as int,
            ),
            final(self).unit_count() == old(self).unit_count(),
            final(self).tag_source() == old(self).tag_source(),
            final(self).max_units() == old(self).max_units(),
            forall|i: int|
                0 < i < old(self).unit_count() ==> #[trigger] unit_unchanged(
                    *old(self),
                    *final(self),
                    i,
                ),
            final(self).is_alive(0) == old(self).is_alive(0),
            forall|i: int, j: int|
                #![trigger old(self).linked(i, j)]
                #![trigger final(self).linked(i, j)]
                old(self).linked(i, j) == final(self).linked(i, j),
    {
        let ghost pre = *old(self);
        let u0 = unit_mut(&mut self.units, 0);
        let p = u0.mailbox.receive();
        proof {
            let pst = *final(self);
            assert(pst.units@[0].links == pre.units@[0].links);
            assert(pst.units@[0].alive == pre.units@[0].alive);
            assert forall|i: int, j: int|
                #![trigger pre.linked(i, j)]
                #![trigger pst.linked(i, j)]
                pre.linked(i, j) == pst.linked(i, j) by {
                if 0 <= i < pre.units@.len() && i != 0 {
                    assert(pst.units@[i] == pre.units@[i]);
                }
                if pre.linked(i, j) {
                    let k = choose|k: int|
                        0 <= k < pre.units@[i].links@.len()
                            && #[trigger] pre.units@[i].links@[k] as int == j;
                    assert(pst.units@[i].links@[k] as int == j);
                }
                if pst.linked(i, j) {
                    let k = choose|k: int|
                        0 <= k < pst.units@[i].links@.len()
                            && #[trigger] pst.units@[i].links@[k] as int == j;
                    assert(pre.units@[i].links@[k] as int == j);
                }
            }
            assert forall|i: int| #[trigger] pst.is_alive(i) == pre.is_alive(i) by {
                if 0 <= i < pre.units@.len() && i != 0 {
                    assert(pst.units@[i] == pre.units@[i]);
                }
            }
            assert forall|i: int|
                0 < i < pre.unit_count() implies #[trigger] unit_unchanged(pre, pst, i) by {
                assert(pst.units@[i] == pre.units@[i]);
            }
            assert(pst.wf()) by {
                assert forall|i: int, j: int| #[trigger] pst.linked(i, j) implies 0 <= j
                    < pst.unit_count() && j != i by {
                    assert(pre.linked(i, j));
                }
                assert forall|i: int, j: int| #[trigger] pst.linked(i, j) implies pst.linked(
                    j,
                    i,
                ) by {
                    assert(pre.linked(i, j));
                    assert(pre.linked(j, i));
                }
                assert forall|i: int, j: int|
                    #![trigger pst.faulted(i), pst.linked(i, j)]
                    pst.faulted(i) && pst.linked(i, j) implies pst.faulted(j) by {
                    assert(pre.faulted(i));
                    assert(pre.linked(i, j));
                    assert(pre.faulted(j));
                }
                assert forall|i: int|
                    1 <= i < pst.unit_count() && pst.is_alive(i) implies #[trigger]
                    pst.quiescent_at(i) by {
                    assert(unit_unchanged(pre, pst, i));
                    assert(pre.quiescent_at(i));
                }
                assert forall|k: int|
                    0 <= k < pst.inbox_of(0).len() implies (#[trigger] pst.inbox_of(0)[k]).tag
                        < pst.next_tag() by {
                    assert(pst.inbox_of(0)[k] == pre.inbox_of(0)[k + 1]);
                }
            }
        }
        p
    }

    /// How many units exist on this node, running or terminated.
    pub fn units_total(&self) -> (n: usize)
        ensures
            n as int == self.unit_count(),
    {
        self.units.len()
    }

    /// Whether the current unit is still running.
    pub fn current_unit_alive(&self) -> (b: bool)
        requires
            self.unit_count() >= 1,
        ensures
            b == self.is_alive(0),
    {
        self.units[0].alive
    }

    /// Whether the unit a handle names is still running.
    pub fn server_alive(&self, s: &Server) -> (b: bool)
        requires
            s.valid(*self),
        ensures
            b == self.is_alive(s.local_id()),
    {
        self.units[s.id].alive
    }

    /// How many messages are queued at the named unit — in particular, how
    /// many a freshly spawned unit received from the spawn handshake.
    pub fn server_pending(&self, s: &Server) -> (n: usize)
        requires
            s.valid(*self),
        ensures
            n == self.inbox_of(s.local_id()).len(),
    {
        self.units[s.id].mailbox.len()
    }

    /// How many messages are queued at the current unit's own mailbox.
    pub fn self_pending(&self) -> (n: usize)
        requires
            self.unit_count() >= 1,
        ensures
            n == self.inbox_of(0).len(),
    {
        self.units[0].mailbox.len()
    }
}

/// Tag uniqueness at the node: however many requests the current unit has
/// issued, with no reply yet consumed or all of them, the correlation tags
/// it used are pairwise distinct.
pub proof fn lemma_node_tags_distinct(node: Node)
    requires
        node.wf(),
    ensures
        forall|i: int, j: int|
            #![trigger node.issued_tags()[i], node.issued_tags()[j]]
            0 <= i < node.issued_tags().len() && 0 <= j < node.issued_tags().len() && i != j
                ==> node.issued_tags()[i] != node.issued_tags()[j],
{
    crate::tag::lemma_issued_tags_distinct(node.tag_source());
}

/// Linking propagates failure: when a fault transition unwinds `id`, every
/// unit linked to `id` is itself terminated abnormally in the same
/// transition — no polling, no delay.
pub proof fn lemma_linked_peer_terminates(pre: Node, post: Node, id: int, peer: int)
    requires
        fault_propagated(pre, post, id),
        pre.linked(id, peer),
    ensures
        post.faulted(peer),
{
    assert(post.faulted(id));
    assert(post.linked(id, peer));
}

/// A unit with no links is untouched by any fault transition it did not
/// itself cause: failure propagates along links and along nothing else.
pub proof fn lemma_unlinked_unit_unaffected(pre: Node, post: Node, id: int, lone: int)
    requires
        fault_propagated(pre, post, id),
        0 <= lone < pre.unit_count(),
        !pre.faulted(lone),
        lone != id,
        forall|j: int| !pre.linked(lone, j),
        forall|j: int| !pre.linked(j, lone),
    ensures
        !post.faulted(lone),
{
    let s = Set::new(|i: int| i != lone);
    assert(covers_fault(pre, id, s)) by {
        assert(s.contains(id));
        assert forall|i: int| #[trigger] pre.faulted(i) implies s.contains(i) by {
            assert(i != lone);
        }
        assert forall|i: int, j: int|
            #![trigger s.contains(i), pre.linked(i, j)]
            s.contains(i) && pre.linked(i, j) implies s.contains(j) by {
            assert(j != lone);
        }
    }
    assert(!s.contains(lone));
}

} // verus!
