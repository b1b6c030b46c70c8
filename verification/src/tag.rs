//! Correlation tags: per-unit unique tokens that match a reply to the
//! request that produced it.
//!
//! A tag is drawn from the issuing unit's own source and is never issued
//! twice by that source, so correlation checked against the unit's own
//! outstanding tags can never confuse two of its requests. No uniqueness
//! across units is claimed or needed.

use vstd::prelude::*;

verus! {

/// A correlation token. It has no meaning outside the request/response
/// exchange that created it.
#[derive(Clone, Copy, PartialEq, Eq, Structural, Debug)]
pub struct Tag {
    /// The token itself, unique per issuing source.
    pub value: u64,
}

/// The per-unit generator of tags: a monotonically increasing counter,
/// together with the (ghost) history of every tag it has issued.
pub struct TagSource {
    next: u64,
    issued: Ghost<Seq<u64>>,
}

impl TagSource {
    /// The value the next issued tag will have.
    pub closed spec fn next_value(self) -> u64 {
        self.next
    }

    /// Every tag this source has issued, in order of issue.
    pub closed spec fn issued(self) -> Seq<u64> {
        self.issued@
    }

    /// Issued tags are strictly increasing and all below the counter, so no
    /// tag is ever issued twice.
    pub open spec fn wf(self) -> bool {
        &&& forall|i: int|
            0 <= i < self.issued().len() ==> #[trigger] self.issued()[i] < self.next_value()
        &&& forall|i: int, j: int|
            #![trigger self.issued()[i], self.issued()[j]]
            0 <= i < j < self.issued().len() ==> self.issued()[i] < self.issued()[j]
    }

    /// A fresh source that has issued nothing.
    pub fn new() -> (s: Self)
        ensures
            s.wf(),
            s.issued() == Seq::<u64>::empty(),
            s.next_value() == 0,
    {
        TagSource { next: 0, issued: Ghost(Seq::empty()) }
    }
}

impl Tag {
    /// Issues a fresh tag: one different from every tag the source has
    /// issued before.
    pub fn new(source: &mut TagSource) -> (t: Tag)
        requires
            old(source).wf(),
            old(source).next_value() < u64::MAX,
        ensures
            final(source).wf(),
            t.value == old(source).next_value(),
            final(source).next_value() == old(source).next_value() + 1,
            final(source).issued() == old(source).issued().push(t.value),
            !old(source).issued().contains(t.value),
    {
        let value = source.next;
        source.next = source.next + 1;
        proof {
            source.issued@ = source.issued@.push(value);
            let s0 = old(source).issued();
            let s1 = source.issued@;
            assert forall|i: int, j: int|
                #![trigger s1[i], s1[j]]
                0 <= i < j < s1.len() implies s1[i] < s1[j] by {
                if j == s1.len() - 1 {
                    assert(s0[i] < old(source).next_value());
                } else {
                    assert(s0[i] < s0[j]);
                }
            }
            assert forall|i: int| 0 <= i < s0.len() implies #[trigger] s0[i] != value by {
                assert(s0[i] < old(source).next_value());
            }
        }
        Tag { value }
    }
}

/// Tag uniqueness: all tags a single source ever issues are pairwise
/// distinct, however many requests are in flight.
pub proof fn lemma_issued_tags_distinct(source: TagSource)
    requires
        source.wf(),
    ensures
        forall|i: int, j: int|
            #![trigger source.issued()[i], source.issued()[j]]
            0 <= i < source.issued().len() && 0 <= j < source.issued().len() && i != j
                ==> source.issued()[i] != source.issued()[j],
{
    assert forall|i: int, j: int|
        #![trigger source.issued()[i], source.issued()[j]]
        0 <= i < source.issued().len() && 0 <= j < source.issued().len() && i != j
            implies source.issued()[i] != source.issued()[j] by {
        if i < j {
            assert(source.issued()[i] < source.issued()[j]);
        } else {
            assert(source.issued()[j] < source.issued()[i]);
        }
    }
}

} // verus!
