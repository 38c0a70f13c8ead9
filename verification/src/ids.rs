//! Committee member and share identifiers.
//!
//! A `NodeID` names a committee member; a `VoteID` names one share (one
//! evaluation point of the secret polynomial). Identifier zero is reserved
//! for the secret itself and is never a share. A `VoteGroup` fixes, for
//! one epoch, which member holds which shares.

use vstd::prelude::*;
use crate::curve::{scalar_from_u64, scalar_val};

verus! {

/// A committee member: a positive 16-bit identifier.
#[derive(Clone, Copy, Debug, PartialEq, Eq)]
pub struct NodeID(pub u16);

impl NodeID {
    /// The scalar evaluation point this member signs under.
    pub fn to_identifier(&self) -> (r: k256::Scalar)
        ensures
            scalar_val(r) == self.0 as nat,
    {
        scalar_from_u64(self.0 as u64)
    }

    pub fn as_usize(&self) -> (r: usize)
        ensures
            r == self.0 as usize,
    {
        self.0 as usize
    }
}

/// One share of the committee's secret: a positive index that doubles as
/// the evaluation point of the secret polynomial.
#[derive(Clone, Copy, Debug, PartialEq, Eq)]
pub struct VoteID(pub usize);

impl VoteID {
    /// Index zero is the reserved evaluation point of the secret itself,
    /// so a vote is always positive.
    pub fn new(value: usize) -> (r: VoteID)
        requires
            value > 0,
        ensures
            r.0 == value,
    {
        VoteID(value)
    }

    /// The scalar evaluation point this share lives at.
    pub fn to_identifier(&self) -> (r: k256::Scalar)
        ensures
            scalar_val(r) == self.0 as nat,
    {
        scalar_from_u64(self.0 as u64)
    }

    pub fn as_usize(&self) -> (r: usize)
        ensures
            r == self.0,
    {
        self.0
    }
}

/// The scalar evaluation point for a plain index. Index zero stands for
/// the secret; positive indices stand for shares.
pub fn num_to_identifier(value: usize) -> (r: k256::Scalar)
    ensures
        scalar_val(r) == value as nat,
{
    scalar_from_u64(value as u64)
}

/// The scalar evaluation point for a 64-bit identifier.
pub fn num_to_identifier_u64(value: u64) -> (r: k256::Scalar)
    ensures
        scalar_val(r) == value as nat,
{
    scalar_from_u64(value)
}

/// Ordered assignment of shares to committee members: per member, the
/// list of votes it holds. Members are strictly ordered and the vote
/// total is cached.
pub struct VoteGroup {
    entries: Vec<(NodeID, Vec<VoteID>)>,
    total_votes: usize,
}

/// Sum of the vote-list lengths of the entries.
pub open spec fn vote_total(s: Seq<(NodeID, Vec<VoteID>)>) -> int
    decreases s.len(),
{
    if s.len() == 0 {
        0
    } else {
        vote_total(s.drop_last()) + s.last().1@.len()
    }
}

/// Member identifiers strictly increase along the entries: each member
/// appears once, in order.
pub open spec fn nodes_strictly_sorted(s: Seq<(NodeID, Vec<VoteID>)>) -> bool {
    forall|i: int, j: int| 0 <= i < j < s.len() ==> s[i].0.0 < s[j].0.0
}

/// Member identifiers are positive: identifier zero is the secret's
/// reserved evaluation point and belongs to no member.
pub open spec fn nodes_positive(s: Seq<(NodeID, Vec<VoteID>)>) -> bool {
    forall|i: int| 0 <= i < s.len() ==> (#[trigger] s[i]).0.0 > 0
}

impl VoteGroup {
    pub closed spec fn entries_seq(&self) -> Seq<(NodeID, Vec<VoteID>)> {
        self.entries@
    }

    /// The cached vote total matches the entries.
    pub closed spec fn total_cached(&self) -> bool {
        self.total_votes == vote_total(self.entries@)
    }

    pub open spec fn well_formed(&self) -> bool {
        &&& nodes_strictly_sorted(self.entries_seq())
        &&& nodes_positive(self.entries_seq())
        &&& self.total_cached()
    }

    /// The votes the given member holds, empty when it is not listed.
    pub open spec fn votes_of(&self, id: NodeID) -> Seq<VoteID> {
        if exists|i: int| 0 <= i < self.entries_seq().len() && self.entries_seq()[i].0 == id {
            let i = choose|i: int| 0 <= i < self.entries_seq().len() && self.entries_seq()[i].0 == id;
            self.entries_seq()[i].1@
        } else {
            Seq::empty()
        }
    }

    pub fn new(inner: Vec<(NodeID, Vec<VoteID>)>) -> (r: VoteGroup)
        requires
            nodes_strictly_sorted(inner@),
            nodes_positive(inner@),
            vote_total(inner@) <= usize::MAX,
        ensures
            r.entries_seq() == inner@,
            r.well_formed(),
    {
        let mut total: usize = 0;
        let mut i: usize = 0;
        while i < inner.len()
            invariant
                0 <= i <= inner.len(),
                total == vote_total(inner@.take(i as int)),
                vote_total(inner@) <= usize::MAX,
                nodes_strictly_sorted(inner@),
            decreases inner.len() - i,
        {
            proof {
                lemma_vote_total_take_step(inner@, i as int);
                lemma_vote_total_take_bound(inner@, i + 1);
            }
            total = total + inner[i].1.len();
            i = i + 1;
        }
        proof {
            assert(inner@.take(inner@.len() as int) =~= inner@);
        }
        VoteGroup { entries: inner, total_votes: total }
    }

    pub fn total_votes(&self) -> (r: usize)
        requires
            self.well_formed(),
        ensures
            r == vote_total(self.entries_seq()),
    {
        self.total_votes
    }

    /// How many votes the given member holds; zero when it is unknown.
    pub fn node_votes(&self, node_id: NodeID) -> (r: usize)
        requires
            self.well_formed(),
        ensures
            r == self.votes_of(node_id).len(),
    {
        let mut i: usize = 0;
        while i < self.entries.len()
            invariant
                0 <= i <= self.entries@.len(),
                forall|k: int| 0 <= k < i ==> self.entries@[k].0 != node_id,
                self.well_formed(),
            decreases self.entries@.len() - i,
        {
            if self.entries[i].0.0 == node_id.0 {
                proof {
                    let ii = i as int;
                    assert(self.entries_seq()[ii].0 == node_id);
                    let j = choose|j: int|
                        0 <= j < self.entries_seq().len() && self.entries_seq()[j].0 == node_id;
                    lemma_sorted_same_node(self.entries@, j, ii);
                }
                return self.entries[i].1.len();
            }
            i = i + 1;
        }
        0
    }

    pub fn len(&self) -> (r: usize)
        ensures
            r == self.entries_seq().len(),
    {
        self.entries.len()
    }

    pub fn node_at(&self, i: usize) -> (r: NodeID)
        requires
            i < self.entries_seq().len(),
        ensures
            r == self.entries_seq()[i as int].0,
    {
        self.entries[i].0
    }

    pub fn votes_at(&self, i: usize) -> (r: &Vec<VoteID>)
        requires
            i < self.entries_seq().len(),
        ensures
            r == self.entries_seq()[i as int].1,
    {
        &self.entries[i].1
    }
}

/// In a strictly sorted entry list, a member appears at one index only.
proof fn lemma_sorted_same_node(s: Seq<(NodeID, Vec<VoteID>)>, i: int, j: int)
    requires
        nodes_strictly_sorted(s),
        0 <= i < s.len(),
        0 <= j < s.len(),
        s[i].0 == s[j].0,
    ensures
        i == j,
{
}

/// Adding one entry to a prefix adds its vote count to the running total.
pub proof fn lemma_vote_total_take_step(s: Seq<(NodeID, Vec<VoteID>)>, i: int)
    requires
        0 <= i < s.len(),
    ensures
        vote_total(s.take(i + 1)) == vote_total(s.take(i)) + s[i].1@.len(),
{
    assert(s.take(i + 1).drop_last() =~= s.take(i));
    assert(s.take(i + 1).last() == s[i]);
}

/// A prefix never holds more votes than the whole.
pub proof fn lemma_vote_total_take_bound(s: Seq<(NodeID, Vec<VoteID>)>, i: int)
    requires
        0 <= i <= s.len(),
    ensures
        vote_total(s.take(i)) <= vote_total(s),
    decreases s.len() - i,
{
    if i < s.len() {
        lemma_vote_total_take_step(s, i);
        lemma_vote_total_take_bound(s, i + 1);
        assert(vote_total(s.take(i)) <= vote_total(s.take(i + 1)));
    } else {
        assert(s.take(i) =~= s);
    }
}

} // verus!
