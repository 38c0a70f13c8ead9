//! Bookkeeping of open signing tasks, bucketed by timeout round.

use vstd::prelude::*;
use crate::frost_error::FrostError;
use crate::sign_task::{FrostSignTask, Signature};

verus! {

#[derive(Clone, Copy, Debug, PartialEq, Eq)]
pub struct SignTaskID(pub usize);

pub struct SignTaskManager {
    next_sign_task_id: usize,
    open_sign_tasks: Vec<(usize, FrostSignTask)>,
    timeout_info: Vec<(usize, Vec<usize>)>,
}

impl SignTaskManager {
    pub closed spec fn open_tasks(&self) -> Seq<(usize, FrostSignTask)> {
        self.open_sign_tasks@
    }

    pub closed spec fn next_id(&self) -> int {
        self.next_sign_task_id as int
    }

    pub open spec fn has_task(&self, id: SignTaskID) -> bool {
        exists|i: int| 0 <= i < self.open_tasks().len() && (#[trigger] self.open_tasks()[i]).0 == id.0
    }

    pub open spec fn task_at(&self, id: SignTaskID) -> FrostSignTask {
        self.open_tasks()[choose|i: int|
            0 <= i < self.open_tasks().len() && (#[trigger] self.open_tasks()[i]).0 == id.0].1
    }

    pub closed spec fn buckets(&self) -> Seq<(usize, Vec<usize>)> {
        self.timeout_info@
    }

    /// Whether the task identifier is filed under a bucket that times
    /// out at or before the given round.
    pub open spec fn in_expired_bucket(&self, id: SignTaskID, round: usize) -> bool {
        exists|b: int, t: int|
            0 <= b < self.buckets().len() && self.buckets()[b].0 <= round && 0 <= t
                < self.buckets()[b].1@.len() && (#[trigger] self.buckets()[b].1@[t]) == id.0
    }

    pub open spec fn well_formed(&self) -> bool {
        &&& forall|i: int, j: int|
            0 <= i < j < self.open_tasks().len() ==> self.open_tasks()[i].0
                != self.open_tasks()[j].0
        &&& forall|i: int|
            0 <= i < self.open_tasks().len() ==> (#[trigger] self.open_tasks()[i]).0
                < self.next_id()
        &&& forall|i: int|
            0 <= i < self.open_tasks().len() ==> (#[trigger] self.open_tasks()[i]).1.well_formed()
    }

    pub fn next_id_value(&self) -> (r: usize)
        ensures
            r == self.next_id(),
    {
        self.next_sign_task_id
    }

    pub fn new() -> (r: SignTaskManager)
        ensures
            r.well_formed(),
            r.open_tasks().len() == 0,
            r.next_id() == 0,
    {
        SignTaskManager { next_sign_task_id: 0, open_sign_tasks: Vec::new(), timeout_info: Vec::new() }
    }

    /// Forgets a finished task.
    pub fn complete_sign_task(&mut self, id: SignTaskID)
        requires
            old(self).well_formed(),
        ensures
            final(self).well_formed(),
            !final(self).has_task(id),
            final(self).next_id() == old(self).next_id(),
            forall|id2: SignTaskID|
                id2.0 != id.0 ==> (#[trigger] final(self).has_task(id2)) == old(self).has_task(
                    id2,
                ),
    {
        self.drop_task(id);
    }

    /// Forgets a task whose signing failed.
    pub fn remove_failed_sign_task(&mut self, id: SignTaskID)
        requires
            old(self).well_formed(),
        ensures
            final(self).well_formed(),
            !final(self).has_task(id),
            final(self).next_id() == old(self).next_id(),
            forall|id2: SignTaskID|
                id2.0 != id.0 ==> (#[trigger] final(self).has_task(id2)) == old(self).has_task(
                    id2,
                ),
    {
        self.drop_task(id);
    }

    fn drop_task(&mut self, id: SignTaskID)
        requires
            old(self).well_formed(),
        ensures
            final(self).well_formed(),
            !final(self).has_task(id),
            forall|id2: SignTaskID|
                id2.0 != id.0 ==> (#[trigger] final(self).has_task(id2)) == old(self).has_task(
                    id2,
                ),
            final(self).next_id() == old(self).next_id(),
    {
        let ghost old_tasks = self.open_sign_tasks@;
        let mut i: usize = 0;
        while i < self.open_sign_tasks.len()
            invariant
                0 <= i <= self.open_tasks().len(),
                *self == *old(self),
                old(self).well_formed(),
                old_tasks == self.open_sign_tasks@,
                forall|k: int| 0 <= k < i ==> (#[trigger] self.open_tasks()[k]).0 != id.0,
            decreases self.open_tasks().len() - i,
        {
            if self.open_sign_tasks[i].0 == id.0 {
                self.open_sign_tasks.remove(i);
                proof {
                    assert(self.open_sign_tasks@ == old_tasks.remove(i as int));
                    assert forall|a: int, b: int|
                        0 <= a < b < self.open_tasks().len() implies self.open_tasks()[a].0
                        != self.open_tasks()[b].0 by {
                        let a2 = if a < i as int { a } else { a + 1 };
                        let b2 = if b < i as int { b } else { b + 1 };
                        assert(self.open_tasks()[a] == old_tasks[a2]);
                        assert(self.open_tasks()[b] == old_tasks[b2]);
                        assert(old_tasks[a2].0 != old_tasks[b2].0);
                    }
                    assert forall|id2: SignTaskID| id2.0 != id.0 implies (
                    #[trigger] self.has_task(id2)) == old(self).has_task(id2) by {
                        if self.has_task(id2) {
                            let k = choose|k: int|
                                0 <= k < self.open_tasks().len() && (
                                #[trigger] self.open_tasks()[k]).0 == id2.0;
                            let k2 = if k < i as int { k } else { k + 1 };
                            assert(old_tasks[k2].0 == id2.0);
                            assert((#[trigger] old(self).open_tasks()[k2]).0 == id2.0);
                        }
                        if old(self).has_task(id2) {
                            let k = choose|k: int|
                                0 <= k < old_tasks.len() && (#[trigger] old_tasks[k]).0 == id2.0;
                            if k != i as int {
                                let k2 = if k < i as int { k } else { k - 1 };
                                assert(self.open_tasks()[k2] == old_tasks[k]);
                            } else {
                                assert(old_tasks[k].0 == id.0);
                            }
                        }
                    }
                    assert forall|k: int|
                        0 <= k < self.open_tasks().len() implies !((
                        #[trigger] self.open_tasks()[k]).0 == id.0) by {
                        let k2 = if k < i as int { k } else { k + 1 };
                        assert(self.open_tasks()[k] == old_tasks[k2]);
                        if k2 > i as int {
                            assert(old_tasks[i as int].0 != old_tasks[k2].0);
                        }
                    }
                }
                return ;
            }
            i = i + 1;
        }
    }

    /// Opens a task under a fresh identifier, filed under its timeout
    /// round.
    pub fn insert_sign_task(&mut self, task: FrostSignTask, timeout_round: usize) -> (r: SignTaskID)
        requires
            old(self).well_formed(),
            old(self).next_id() < usize::MAX,
            task.well_formed(),
        ensures
            final(self).well_formed(),
            r.0 == old(self).next_id(),
            final(self).next_id() == old(self).next_id() + 1,
            final(self).has_task(r),
            final(self).task_at(r) == task,
            forall|id2: SignTaskID|
                id2.0 != r.0 ==> (#[trigger] final(self).has_task(id2)) == old(self).has_task(id2),
            forall|id2: SignTaskID|
                id2.0 != r.0 && old(self).has_task(id2) ==> (#[trigger] final(self).task_at(id2))
                    == old(self).task_at(id2),
    {
        let id = self.next_sign_task_id;
        self.next_sign_task_id = self.next_sign_task_id + 1;
        let ghost old_tasks = self.open_sign_tasks@;
        self.open_sign_tasks.push((id, task));

        let mut b: usize = 0;
        let mut bucket_found: bool = false;
        while b < self.timeout_info.len() && !bucket_found
            invariant
                0 <= b <= self.timeout_info@.len(),
                old(self).well_formed(),
                old_tasks == old(self).open_tasks(),
                id == old(self).next_id(),
                self.open_sign_tasks@ == old_tasks.push((id, task)),
                self.next_sign_task_id == id + 1,
                bucket_found ==> true,
            decreases self.timeout_info@.len() - b + (if bucket_found { 0int } else { 1int }),
        {
            if self.timeout_info[b].0 == timeout_round {
                let (round, mut ids) = self.timeout_info.remove(b);
                ids.push(id);
                self.timeout_info.insert(b, (round, ids));
                bucket_found = true;
            } else {
                b = b + 1;
            }
        }
        if !bucket_found {
            let mut ids: Vec<usize> = Vec::new();
            ids.push(id);
            self.timeout_info.push((timeout_round, ids));
        }

        proof {
            let n = old_tasks.len() as int;
            assert(self.open_tasks()[n].0 == id);
            assert forall|k: int|
                0 <= k < self.open_tasks().len() implies (#[trigger] self.open_tasks()[k]).0
                < self.next_id() && self.open_tasks()[k].1.well_formed() by {
                if k < n {
                    assert((#[trigger] old(self).open_tasks()[k]).0 < old(self).next_id());
                    assert(old(self).open_tasks()[k].1.well_formed());
                }
            }
            assert forall|a: int, b2: int|
                0 <= a < b2 < self.open_tasks().len() implies self.open_tasks()[a].0
                != self.open_tasks()[b2].0 by {
                if b2 < n {
                    assert(old(self).open_tasks()[a].0 != old(self).open_tasks()[b2].0);
                } else {
                    assert((#[trigger] old_tasks[a]).0 < id);
                }
            }
            assert forall|id2: SignTaskID| id2.0 != id implies (#[trigger] self.has_task(id2))
                == old(self).has_task(id2) by {
                if self.has_task(id2) {
                    let k = choose|k: int|
                        0 <= k < self.open_tasks().len() && (#[trigger] self.open_tasks()[k]).0
                            == id2.0;
                    if k == n {
                        assert(self.open_tasks()[k].0 == id);
                    }
                    assert((#[trigger] old(self).open_tasks()[k]).0 == id2.0);
                }
                if old(self).has_task(id2) {
                    let k = choose|k: int|
                        0 <= k < old_tasks.len() && (#[trigger] old_tasks[k]).0 == id2.0;
                    assert(self.open_tasks()[k].0 == id2.0);
                }
            }
            lemma_task_key_unique(self, SignTaskID(id));
            assert(self.task_at(SignTaskID(id)) == task) by {
                assert(self.open_tasks()[n].0 == id);
                assert(self.open_tasks()[n].1 == task);
            }
            assert forall|id2: SignTaskID|
                id2.0 != id && old(self).has_task(id2) implies (#[trigger] self.task_at(id2))
                == old(self).task_at(id2) by {
                let k = choose|k: int|
                    0 <= k < old_tasks.len() && (#[trigger] old_tasks[k]).0 == id2.0;
                assert(self.open_tasks()[k] == old_tasks[k]);
                assert((#[trigger] self.open_tasks()[k]).0 == id2.0);
                lemma_task_key_unique(self, id2);
                lemma_task_key_unique(old(self), id2);
                assert(self.task_at(id2) == self.open_tasks()[k].1);
                assert(old(self).task_at(id2) == old_tasks[k].1);
            }
        }
        SignTaskID(id)
    }

    /// The open task under the identifier.
    pub fn get(&self, id: SignTaskID) -> (r: Result<&FrostSignTask, FrostError>)
        requires
            self.well_formed(),
        ensures
            r is Ok <==> self.has_task(id),
            r is Err ==> r == Result::<&FrostSignTask, FrostError>::Err(FrostError::UnknownSignTask),
            r matches Ok(t) ==> *t == self.task_at(id) && t.well_formed(),
    {
        let mut i: usize = 0;
        while i < self.open_sign_tasks.len()
            invariant
                0 <= i <= self.open_tasks().len(),
                self.well_formed(),
                forall|k: int| 0 <= k < i ==> (#[trigger] self.open_tasks()[k]).0 != id.0,
            decreases self.open_tasks().len() - i,
        {
            if self.open_sign_tasks[i].0 == id.0 {
                proof {
                    assert((#[trigger] self.open_tasks()[i as int]).0 == id.0);
                    lemma_task_key_unique(self, id);
                }
                return Ok(&self.open_sign_tasks[i].1);
            }
            i = i + 1;
        }
        Err(FrostError::UnknownSignTask)
    }

    /// A copy of the task's message, for retries.
    pub fn task_message(&self, id: SignTaskID) -> (r: Result<Vec<u8>, FrostError>)
        requires
            self.well_formed(),
        ensures
            r is Ok <==> self.has_task(id),
            r is Err ==> r == Result::<Vec<u8>, FrostError>::Err(FrostError::UnknownSignTask),
            r matches Ok(m) ==> m@ == self.task_at(id).message_spec(),
    {
        let mut i: usize = 0;
        while i < self.open_sign_tasks.len()
            invariant
                0 <= i <= self.open_tasks().len(),
                self.well_formed(),
                forall|k: int| 0 <= k < i ==> (#[trigger] self.open_tasks()[k]).0 != id.0,
            decreases self.open_tasks().len() - i,
        {
            if self.open_sign_tasks[i].0 == id.0 {
                proof {
                    assert((#[trigger] self.open_tasks()[i as int]).0 == id.0);
                    lemma_task_key_unique(self, id);
                }
                return Ok(crate::frost_hash::clone_bytes(self.open_sign_tasks[i].1.message()));
            }
            i = i + 1;
        }
        Err(FrostError::UnknownSignTask)
    }

    /// Routes one signer's share to its task. On success the task is
    /// aggregated if complete (and then closed); any task-level error is
    /// passed through with the task kept open.
    pub fn insert_share(&mut self, id: SignTaskID, identifier: u64, share: k256::Scalar) -> (r:
        Result<Option<Signature>, FrostError>)
        requires
            old(self).well_formed(),
        ensures
            final(self).well_formed(),
            final(self).next_id() == old(self).next_id(),
            !old(self).has_task(id) ==> r == Result::<Option<Signature>, FrostError>::Err(
                FrostError::UnknownSignTask,
            ),
            old(self).has_task(id) ==> {
                &&& (r == Result::<Option<Signature>, FrostError>::Err(
                    FrostError::DuplicatedSignatureShare,
                ) <==> old(self).task_at(id).has_received(identifier))
                &&& (r is Ok <==> !old(self).task_at(id).has_received(identifier) && old(
                    self,
                ).task_at(id).is_participant(identifier) && old(self).task_at(id).share_verifies(
                    identifier,
                    crate::curve::scalar_val(share),
                ))
                // completion exactly when the last missing share arrived
                &&& (r matches Ok(s) && s is Some <==> r is Ok && old(self).task_at(
                    id,
                ).received().len() + 1 == old(self).task_at(id).idents().len())
                // a completed signature carries the task's group
                // commitment and the sum of the collected responses
                &&& (r matches Ok(s) ==> (s matches Some(sig) ==> !final(self).has_task(id)
                    && crate::curve::point_log(sig.big_r) == old(self).task_at(id).gc_log()
                    && crate::curve::scalar_val(sig.z) == crate::sign_task::share_sum(
                    old(self).task_at(id).received().push((identifier, share)),
                )))
                // otherwise the share stands recorded in the open task
                &&& (r == Result::<Option<Signature>, FrostError>::Ok(None) ==> final(self).has_task(id) && final(self).task_at(id).received() == old(self).task_at(
                    id,
                ).received().push((identifier, share)))
                // the error values are exact
                &&& (!old(self).task_at(id).has_received(identifier) ==> (r == Result::<
                    Option<Signature>,
                    FrostError,
                >::Err(FrostError::UnknownSigner) <==> !(old(self).task_at(id).has_share_entry(
                    identifier,
                ) && old(self).task_at(id).has_commit_entry(identifier))))
                &&& (!old(self).task_at(id).has_received(identifier) ==> (r == Result::<
                    Option<Signature>,
                    FrostError,
                >::Err(FrostError::InvalidSignatureShare) <==> old(self).task_at(
                    id,
                ).has_share_entry(identifier) && old(self).task_at(id).has_commit_entry(
                    identifier,
                ) && !old(self).task_at(id).share_verifies(
                    identifier,
                    crate::curve::scalar_val(share),
                )))
            },
            // other tasks are untouched
            forall|id2: SignTaskID|
                id2.0 != id.0 ==> (#[trigger] final(self).has_task(id2)) == old(self).has_task(
                    id2,
                ),
            forall|id2: SignTaskID|
                id2.0 != id.0 && old(self).has_task(id2) ==> (#[trigger] final(self).task_at(id2))
                    == old(self).task_at(id2),
            r is Err ==> (forall|id2: SignTaskID|
                (#[trigger] final(self).has_task(id2)) == old(self).has_task(id2)) && (forall|
                id2: SignTaskID,
            |
                old(self).has_task(id2) ==> (#[trigger] final(self).task_at(id2)) == old(
                    self,
                ).task_at(id2)),
    {
        let mut i: usize = 0;
        while i < self.open_sign_tasks.len()
            invariant
                0 <= i <= self.open_tasks().len(),
                *self == *old(self),
                old(self).well_formed(),
                forall|k: int| 0 <= k < i ==> (#[trigger] self.open_tasks()[k]).0 != id.0,
            decreases self.open_tasks().len() - i,
        {
            if self.open_sign_tasks[i].0 == id.0 {
                proof {
                    assert((#[trigger] self.open_tasks()[i as int]).0 == id.0);
                    lemma_task_key_unique(old(self), id);
                    assert(old(self).task_at(id) == self.open_tasks()[i as int].1);
                }
                let ghost old_tasks = self.open_sign_tasks@;
                let (tid, mut task) = self.open_sign_tasks.remove(i);
                let res = task.insert_signature_share(identifier, share);
                let outcome = match res {
                    Ok(_) => {
                        match task.try_aggregate_signature_share() {
                            Some(sig) => {
                                // complete: the task is closed
                                Some(Some(sig))
                            },
                            None => None,
                        }
                    },
                    Err(e) => {
                        self.open_sign_tasks.insert(i, (tid, task));
                        proof {
                            assert(self.open_sign_tasks@.len() == old_tasks.len());
                            assert forall|x: int|
                                0 <= x < old_tasks.len() && x != i as int
                                    implies #[trigger] self.open_sign_tasks@[x] == old_tasks[x] by {
                                if x > i as int {
                                    assert(self.open_sign_tasks@[x] == old_tasks.remove(
                                        i as int,
                                    )[x - 1]);
                                }
                            }
                            assert(self.open_sign_tasks@[i as int] == old_tasks[i as int]);
                            assert(self.open_sign_tasks@ =~= old_tasks);
                            assert(self.open_sign_tasks@[i as int].0 == id.0);
                            assert forall|a: int, b: int|
                                0 <= a < b < self.open_tasks().len() implies self.open_tasks()[a].0
                                != self.open_tasks()[b].0 by {
                                assert(old_tasks[a].0 != old_tasks[b].0);
                            }
                            lemma_task_frames(self, old(self));
                        }
                        return Err(e);
                    },
                };
                match outcome {
                    Some(sig_opt) => {
                        // the task completed and is dropped
                        proof {
                            assert(self.open_sign_tasks@ == old_tasks.remove(i as int));
                            assert forall|a: int, b: int|
                                0 <= a < b < self.open_tasks().len() implies self.open_tasks()[a].0
                                != self.open_tasks()[b].0 by {
                                let a2 = if a < i as int { a } else { a + 1 };
                                let b2 = if b < i as int { b } else { b + 1 };
                                assert(self.open_tasks()[a] == old_tasks[a2]);
                                assert(self.open_tasks()[b] == old_tasks[b2]);
                                assert(old_tasks[a2].0 != old_tasks[b2].0);
                            }
                            assert forall|k: int|
                                0 <= k < self.open_tasks().len() implies !((
                            #[trigger] self.open_tasks()[k]).0 == id.0) by {
                                let k2 = if k < i as int { k } else { k + 1 };
                                assert(self.open_tasks()[k] == old_tasks[k2]);
                                if k2 > i as int {
                                    assert(old_tasks[i as int].0 != old_tasks[k2].0);
                                }
                            }
                            assert forall|id2: SignTaskID|
                                id2.0 != id.0 implies (#[trigger] self.has_task(id2)) == old(
                                self,
                            ).has_task(id2) by {
                                if self.has_task(id2) {
                                    let k = choose|k: int|
                                        0 <= k < self.open_tasks().len() && (
                                        #[trigger] self.open_tasks()[k]).0 == id2.0;
                                    let k2 = if k < i as int { k } else { k + 1 };
                                    assert((#[trigger] old_tasks[k2]).0 == id2.0);
                                }
                                if old(self).has_task(id2) {
                                    let k = choose|k: int|
                                        0 <= k < old_tasks.len() && (#[trigger] old_tasks[k]).0
                                            == id2.0;
                                    if k != i as int {
                                        let k2 = if k < i as int { k } else { k - 1 };
                                        assert(self.open_tasks()[k2] == old_tasks[k]);
                                    } else {
                                        assert(old_tasks[k].0 == id.0);
                                    }
                                }
                            }
                            assert forall|id2: SignTaskID|
                                id2.0 != id.0 && old(self).has_task(id2) implies (
                            #[trigger] self.task_at(id2)) == old(self).task_at(id2) by {
                                let k = choose|k: int|
                                    0 <= k < old_tasks.len() && (#[trigger] old_tasks[k]).0
                                        == id2.0;
                                if k == i as int {
                                    assert(old_tasks[k].0 == id.0);
                                }
                                let k2 = if k < i as int { k } else { k - 1 };
                                assert(self.open_tasks()[k2] == old_tasks[k]);
                                assert((#[trigger] self.open_tasks()[k2]).0 == id2.0);
                                lemma_task_key_unique(self, id2);
                                lemma_task_key_unique(old(self), id2);
                            }
                        }
                        return Ok(sig_opt);
                    },
                    None => {
                        self.open_sign_tasks.insert(i, (tid, task));
                        proof {
                            assert(self.open_sign_tasks@.len() == old_tasks.len());
                            assert forall|x: int|
                                0 <= x < old_tasks.len() && x != i as int
                                    implies #[trigger] self.open_sign_tasks@[x] == old_tasks[x] by {
                                if x > i as int {
                                    assert(self.open_sign_tasks@[x] == old_tasks.remove(
                                        i as int,
                                    )[x - 1]);
                                }
                            }
                            assert forall|a: int, b: int|
                                0 <= a < b < self.open_tasks().len() implies self.open_tasks()[a].0
                                != self.open_tasks()[b].0 by {
                                assert(old_tasks[a].0 != old_tasks[b].0);
                            }
                            assert((#[trigger] self.open_tasks()[i as int]).0 == id.0);
                            assert(self.has_task(id));
                            lemma_task_key_unique(self, id);
                            assert(self.task_at(id) == self.open_tasks()[i as int].1);
                            assert forall|id2: SignTaskID|
                                id2.0 != id.0 implies (#[trigger] self.has_task(id2)) == old(
                                self,
                            ).has_task(id2) by {
                                if self.has_task(id2) {
                                    let k = choose|k: int|
                                        0 <= k < self.open_tasks().len() && (
                                        #[trigger] self.open_tasks()[k]).0 == id2.0;
                                    assert((#[trigger] old_tasks[k]).0 == id2.0);
                                }
                                if old(self).has_task(id2) {
                                    let k = choose|k: int|
                                        0 <= k < old_tasks.len() && (#[trigger] old_tasks[k]).0
                                            == id2.0;
                                    assert((#[trigger] self.open_tasks()[k]).0 == id2.0);
                                }
                            }
                            assert forall|id2: SignTaskID|
                                id2.0 != id.0 && old(self).has_task(id2) implies (
                            #[trigger] self.task_at(id2)) == old(self).task_at(id2) by {
                                let k = choose|k: int|
                                    0 <= k < old_tasks.len() && (#[trigger] old_tasks[k]).0
                                        == id2.0;
                                assert(k != i as int);
                                assert(self.open_tasks()[k] == old_tasks[k]);
                                assert((#[trigger] self.open_tasks()[k]).0 == id2.0);
                                lemma_task_key_unique(self, id2);
                                lemma_task_key_unique(old(self), id2);
                            }
                        }
                        return Ok(None);
                    },
                }
            }
            i = i + 1;
        }
        Err(FrostError::UnknownSignTask)
    }

    /// Drains every bucket up to the given round and closes its still
    /// open tasks, returning them for retry: afterwards a task is open
    /// exactly when it was open and not filed under an expired bucket,
    /// and every closed one is returned unchanged.
    #[verifier::rlimit(60)]
    pub fn gc_sign_tasks(&mut self, round: usize) -> (r: Vec<(SignTaskID, FrostSignTask)>)
        requires
            old(self).well_formed(),
        ensures
            final(self).well_formed(),
            final(self).next_id() == old(self).next_id(),
            forall|k: int|
                0 <= k < r@.len() ==> (#[trigger] r@[k]).1.well_formed() && old(self).has_task(
                    r@[k].0,
                ) && r@[k].1 == old(self).task_at(r@[k].0) && old(self).in_expired_bucket(
                    r@[k].0,
                    round,
                ),
            forall|idv: SignTaskID|
                #[trigger] final(self).has_task(idv) <==> (old(self).has_task(idv) && !old(
                    self,
                ).in_expired_bucket(idv, round)),
            forall|idv: SignTaskID|
                old(self).has_task(idv) && old(self).in_expired_bucket(idv, round)
                    ==> exists|k: int| 0 <= k < r@.len() && (#[trigger] r@[k]).0.0 == idv.0,
    {
        // collect the identifiers filed under expired buckets
        let mut expired: Vec<usize> = Vec::new();
        let mut keep: Vec<(usize, Vec<usize>)> = Vec::new();
        let mut b: usize = 0;
        while b < self.timeout_info.len()
            invariant
                0 <= b <= self.timeout_info@.len(),
                *self == *old(self),
                old(self).well_formed(),
                forall|b2: int, t: int|
                    0 <= b2 < b && old(self).buckets()[b2].0 <= round && 0 <= t < old(
                        self,
                    ).buckets()[b2].1@.len() ==> expired@.contains(
                        #[trigger] old(self).buckets()[b2].1@[t],
                    ),
                forall|t: int|
                    0 <= t < expired@.len() ==> old(self).in_expired_bucket(
                        SignTaskID(#[trigger] expired@[t]),
                        round,
                    ),
            decreases self.timeout_info@.len() - b,
        {
            let round_b = self.timeout_info[b].0;
            let bucket_len = self.timeout_info[b].1.len();
            let ghost pre_expired = expired@;
            let mut t: usize = 0;
            while t < bucket_len
                invariant
                    0 <= t <= bucket_len,
                    *self == *old(self),
                    b < self.timeout_info@.len(),
                    bucket_len == self.timeout_info@[b as int].1@.len(),
                    round_b == self.timeout_info@[b as int].0,
                    round_b <= round ==> expired@ == pre_expired + old(self).buckets()[
                        b as int].1@.take(t as int),
                    round_b > round ==> expired@ == pre_expired,
                    forall|t2: int|
                        0 <= t2 < expired@.len() ==> old(self).in_expired_bucket(
                            SignTaskID(#[trigger] expired@[t2]),
                            round,
                        ),
                decreases bucket_len - t,
            {
                if round_b <= round {
                    expired.push(self.timeout_info[b].1[t]);
                    proof {
                        assert(old(self).buckets()[b as int].0 <= round);
                        assert((#[trigger] old(self).buckets()[b as int].1@[t as int])
                            == expired@[expired@.len() - 1]);
                        assert(old(self).in_expired_bucket(
                            SignTaskID(expired@[expired@.len() - 1]),
                            round,
                        ));
                        assert(expired@ =~= pre_expired + old(self).buckets()[b as int].1@.take(
                            t + 1,
                        ));
                    }
                }
                t = t + 1;
            }
            if round_b > round {
                let mut ids2: Vec<usize> = Vec::new();
                let mut t2: usize = 0;
                while t2 < bucket_len
                    invariant
                        0 <= t2 <= bucket_len,
                        *self == *old(self),
                        b < self.timeout_info@.len(),
                        bucket_len == self.timeout_info@[b as int].1@.len(),
                    decreases bucket_len - t2,
                {
                    ids2.push(self.timeout_info[b].1[t2]);
                    t2 = t2 + 1;
                }
                keep.push((round_b, ids2));
            }
            proof {
                assert forall|b2: int, t3: int|
                    0 <= b2 < b + 1 && old(self).buckets()[b2].0 <= round && 0 <= t3 < old(
                        self,
                    ).buckets()[b2].1@.len() implies expired@.contains(
                        #[trigger] old(self).buckets()[b2].1@[t3],
                    ) by {
                    if b2 < b {
                        assert(pre_expired.contains(old(self).buckets()[b2].1@[t3]));
                        let w = choose|w: int|
                            0 <= w < pre_expired.len() && pre_expired[w] == old(
                                self,
                            ).buckets()[b2].1@[t3];
                        assert(expired@[w] == old(self).buckets()[b2].1@[t3]);
                    } else {
                        assert(round_b <= round);
                        assert(old(self).buckets()[b as int].1@.take(bucket_len as int)
                            =~= old(self).buckets()[b as int].1@);
                        assert(expired@[pre_expired.len() + t3] == old(
                            self,
                        ).buckets()[b2].1@[t3]);
                    }
                }
            }
            b = b + 1;
        }
        self.timeout_info = keep;
        proof {
            assert(self.open_sign_tasks@ == old(self).open_tasks());
            assert forall|a: int, b2: int|
                0 <= a < b2 < self.open_tasks().len() implies self.open_tasks()[a].0
                != self.open_tasks()[b2].0 by {
                assert(old(self).open_tasks()[a].0 != old(self).open_tasks()[b2].0);
            }
            assert forall|k: int|
                0 <= k < self.open_tasks().len() implies (#[trigger] self.open_tasks()[k]).0
                < self.next_id() && self.open_tasks()[k].1.well_formed() by {
                assert((#[trigger] old(self).open_tasks()[k]).0 < old(self).next_id());
                assert(old(self).open_tasks()[k].1.well_formed());
            }
            lemma_task_frames(self, old(self));
        }

        // close each expired task that is still open
        let mut out: Vec<(SignTaskID, FrostSignTask)> = Vec::new();
        let mut e: usize = 0;
        while e < expired.len()
            invariant
                0 <= e <= expired@.len(),
                self.well_formed(),
                self.next_id() == old(self).next_id(),
                old(self).well_formed(),
                forall|t: int|
                    0 <= t < expired@.len() ==> old(self).in_expired_bucket(
                        SignTaskID(#[trigger] expired@[t]),
                        round,
                    ),
                forall|k: int|
                    0 <= k < out@.len() ==> (#[trigger] out@[k]).1.well_formed() && old(
                        self,
                    ).has_task(out@[k].0) && out@[k].1 == old(self).task_at(out@[k].0)
                        && expired@.contains(out@[k].0.0),
                forall|idv: SignTaskID|
                    #[trigger] self.has_task(idv) <==> (old(self).has_task(idv) && !(exists|
                        k: int,
                    |
                        0 <= k < out@.len() && (#[trigger] out@[k]).0.0 == idv.0)),
                forall|idv: SignTaskID|
                    #[trigger] self.has_task(idv) ==> self.task_at(idv) == old(self).task_at(idv),
                forall|e2: int|
                    0 <= e2 < e && old(self).has_task(SignTaskID(#[trigger] expired@[e2]))
                        ==> exists|k: int| 0 <= k < out@.len() && (#[trigger] out@[k]).0.0
                        == expired@[e2],
            decreases expired@.len() - e,
        {
            let tid = expired[e];
            let mut found: Option<usize> = None;
            let mut i: usize = 0;
            while i < self.open_sign_tasks.len()
                invariant
                    0 <= i <= self.open_tasks().len(),
                    self.well_formed(),
                    found is None ==> forall|k: int|
                        0 <= k < i ==> (#[trigger] self.open_tasks()[k]).0 != tid,
                    found is Some ==> found->0 < self.open_tasks().len()
                        && (#[trigger] self.open_tasks()[found->0 as int]).0 == tid,
                decreases self.open_tasks().len() - i,
            {
                if self.open_sign_tasks[i].0 == tid {
                    found = Some(i);
                    proof {
                        assert((#[trigger] self.open_tasks()[i as int]).0 == tid);
                    }
                    i = self.open_sign_tasks.len();
                } else {
                    i = i + 1;
                }
            }
            let ghost pre = *self;
            let ghost old_out = out@;
            if let Some(ix) = found {
                let ghost old_tasks = self.open_sign_tasks@;
                let (id2, task) = self.open_sign_tasks.remove(ix);
                proof {
                    assert(id2 == tid);
                    assert(pre.has_task(SignTaskID(tid)));
                    lemma_task_key_unique(&pre, SignTaskID(tid));
                    assert(task == pre.task_at(SignTaskID(tid)));
                    assert(old(self).has_task(SignTaskID(tid)));
                    assert(task == old(self).task_at(SignTaskID(tid)));
                    assert(task.well_formed());
                    assert forall|a: int, b2: int|
                        0 <= a < b2 < self.open_tasks().len() implies self.open_tasks()[a].0
                        != self.open_tasks()[b2].0 by {
                        let a2 = if a < ix as int { a } else { a + 1 };
                        let b3 = if b2 < ix as int { b2 } else { b2 + 1 };
                        assert(self.open_tasks()[a] == old_tasks[a2]);
                        assert(self.open_tasks()[b2] == old_tasks[b3]);
                        assert(old_tasks[a2].0 != old_tasks[b3].0);
                    }
                    assert forall|k: int|
                        0 <= k < self.open_tasks().len() implies (
                        #[trigger] self.open_tasks()[k]).1.well_formed() && self.open_tasks()[k].0
                        < self.next_id() by {
                        let k2 = if k < ix as int { k } else { k + 1 };
                        assert(self.open_tasks()[k] == old_tasks[k2]);
                    }
                }
                out.push((SignTaskID(id2), task));
                proof {
                    assert(out@[out@.len() - 1].0.0 == tid);
                    assert(expired@[e as int] == tid);
                    assert(expired@.contains(tid));
                    // membership after the removal
                    assert forall|idv: SignTaskID|
                        #[trigger] self.has_task(idv) <==> (old(self).has_task(idv) && !(exists|
                            k: int,
                        |
                            0 <= k < out@.len() && (#[trigger] out@[k]).0.0 == idv.0)) by {
                        if self.has_task(idv) {
                            let k = choose|k: int|
                                0 <= k < self.open_tasks().len() && (
                                #[trigger] self.open_tasks()[k]).0 == idv.0;
                            let k2 = if k < ix as int { k } else { k + 1 };
                            assert((#[trigger] old_tasks[k2]).0 == idv.0);
                            assert(pre.has_task(idv));
                            if exists|k3: int|
                                0 <= k3 < out@.len() && (#[trigger] out@[k3]).0.0 == idv.0 {
                                let k3 = choose|k3: int|
                                    0 <= k3 < out@.len() && (#[trigger] out@[k3]).0.0 == idv.0;
                                if k3 < old_out.len() {
                                    assert((#[trigger] old_out[k3]).0.0 == idv.0);
                                    assert(!pre.has_task(idv));
                                } else {
                                    assert(idv.0 == tid);
                                    assert(old_tasks[k2].0 != old_tasks[ix as int].0 || k2
                                        == ix as int);
                                    assert(false);
                                }
                            }
                        }
                        if old(self).has_task(idv) && !(exists|k3: int|
                            0 <= k3 < out@.len() && (#[trigger] out@[k3]).0.0 == idv.0) {
                            assert(idv.0 != tid);
                            assert forall|k3: int|
                                0 <= k3 < old_out.len() implies (#[trigger] old_out[k3]).0.0
                                != idv.0 by {
                                assert(out@[k3] == old_out[k3]);
                            }
                            assert(pre.has_task(idv));
                            let k = choose|k: int|
                                0 <= k < old_tasks.len() && (#[trigger] old_tasks[k]).0 == idv.0;
                            if k == ix as int {
                                assert(old_tasks[k].0 == tid);
                            }
                            let k2 = if k < ix as int { k } else { k - 1 };
                            assert((#[trigger] self.open_tasks()[k2]) == old_tasks[k]);
                        }
                    }
                    // kept tasks keep their content
                    assert forall|idv: SignTaskID|
                        #[trigger] self.has_task(idv) implies self.task_at(idv) == old(
                        self,
                    ).task_at(idv) by {
                        let k = choose|k: int|
                            0 <= k < self.open_tasks().len() && (
                            #[trigger] self.open_tasks()[k]).0 == idv.0;
                        let k2 = if k < ix as int { k } else { k + 1 };
                        assert((#[trigger] old_tasks[k2]).0 == idv.0);
                        assert(self.open_tasks()[k] == old_tasks[k2]);
                        assert(pre.has_task(idv));
                        lemma_task_key_unique(self, idv);
                        lemma_task_key_unique(&pre, idv);
                        assert(self.task_at(idv) == self.open_tasks()[k].1);
                        assert(pre.task_at(idv) == old_tasks[k2].1);
                        assert(pre.task_at(idv) == old(self).task_at(idv));
                    }
                    // completeness over the processed prefix
                    assert forall|e2: int|
                        0 <= e2 < e + 1 && old(self).has_task(SignTaskID(
                            #[trigger] expired@[e2],
                        )) implies exists|k: int|
                            0 <= k < out@.len() && (#[trigger] out@[k]).0.0 == expired@[e2] by {
                        if e2 < e {
                            let k = choose|k: int|
                                0 <= k < old_out.len() && (#[trigger] old_out[k]).0.0
                                    == expired@[e2];
                            assert(out@[k].0.0 == expired@[e2]);
                        } else {
                            assert(out@[out@.len() - 1].0.0 == expired@[e2]);
                        }
                    }
                }
            } else {
                proof {
                    // the task is gone already: it stands in the result
                    assert forall|e2: int|
                        0 <= e2 < e + 1 && old(self).has_task(SignTaskID(
                            #[trigger] expired@[e2],
                        )) implies exists|k: int|
                            0 <= k < out@.len() && (#[trigger] out@[k]).0.0 == expired@[e2] by {
                        if e2 < e {
                            let k = choose|k: int|
                                0 <= k < old_out.len() && (#[trigger] old_out[k]).0.0
                                    == expired@[e2];
                            assert(out@[k].0.0 == expired@[e2]);
                        } else {
                            assert(!self.has_task(SignTaskID(tid))) by {
                                if self.has_task(SignTaskID(tid)) {
                                    let k = choose|k: int|
                                        0 <= k < self.open_tasks().len() && (
                                        #[trigger] self.open_tasks()[k]).0 == tid;
                                }
                            }
                            assert(old(self).has_task(SignTaskID(tid)));
                            let k3 = choose|k3: int|
                                0 <= k3 < out@.len() && (#[trigger] out@[k3]).0.0 == tid;
                            assert(out@[k3].0.0 == expired@[e2]);
                        }
                    }
                }
            }
            e = e + 1;
        }
        proof {
            // a task survives exactly when it was not filed under an
            // expired bucket
            assert forall|idv: SignTaskID|
                #[trigger] self.has_task(idv) <==> (old(self).has_task(idv) && !old(
                    self,
                ).in_expired_bucket(idv, round)) by {
                if self.has_task(idv) {
                    if old(self).in_expired_bucket(idv, round) {
                        let (b2, t3) = choose|b2: int, t3: int|
                            0 <= b2 < old(self).buckets().len() && old(self).buckets()[b2].0
                                <= round && 0 <= t3 < old(self).buckets()[b2].1@.len() && (
                            #[trigger] old(self).buckets()[b2].1@[t3]) == idv.0;
                        assert(expired@.contains(old(self).buckets()[b2].1@[t3]));
                        let w = choose|w: int|
                            0 <= w < expired@.len() && expired@[w] == old(
                                self,
                            ).buckets()[b2].1@[t3];
                        assert(old(self).has_task(SignTaskID(expired@[w])));
                        assert(exists|k: int|
                            0 <= k < out@.len() && (#[trigger] out@[k]).0.0 == idv.0);
                        assert(false);
                    }
                }
                if old(self).has_task(idv) && !old(self).in_expired_bucket(idv, round) {
                    if exists|k: int| 0 <= k < out@.len() && (#[trigger] out@[k]).0.0 == idv.0 {
                        let k = choose|k: int|
                            0 <= k < out@.len() && (#[trigger] out@[k]).0.0 == idv.0;
                        assert(expired@.contains(out@[k].0.0));
                        let w = choose|w: int|
                            0 <= w < expired@.len() && expired@[w] == out@[k].0.0;
                        assert(old(self).in_expired_bucket(SignTaskID(expired@[w]), round));
                        assert(false);
                    }
                }
            }
            // every expired open task stands in the result
            assert forall|idv: SignTaskID|
                old(self).has_task(idv) && old(self).in_expired_bucket(idv, round)
                    implies exists|k: int| 0 <= k < out@.len() && (#[trigger] out@[k]).0.0
                    == idv.0 by {
                let (b2, t3) = choose|b2: int, t3: int|
                    0 <= b2 < old(self).buckets().len() && old(self).buckets()[b2].0 <= round
                        && 0 <= t3 < old(self).buckets()[b2].1@.len() && (
                    #[trigger] old(self).buckets()[b2].1@[t3]) == idv.0;
                assert(expired@.contains(old(self).buckets()[b2].1@[t3]));
                let w = choose|w: int|
                    0 <= w < expired@.len() && expired@[w] == old(self).buckets()[b2].1@[t3];
                assert(old(self).has_task(SignTaskID(expired@[w])));
            }
            // returned tasks were open, in expired buckets, unchanged
            assert forall|k: int|
                0 <= k < out@.len() implies (#[trigger] out@[k]).1.well_formed() && old(
                    self,
                ).has_task(out@[k].0) && out@[k].1 == old(self).task_at(out@[k].0) && old(
                    self,
                ).in_expired_bucket(out@[k].0, round) by {
                assert(expired@.contains(out@[k].0.0));
                let w = choose|w: int|
                    0 <= w < expired@.len() && expired@[w] == out@[k].0.0;
                assert(old(self).in_expired_bucket(SignTaskID(expired@[w]), round));
            }
        }
        out
    }
}

/// Two managers with the same open list agree on every task lookup.
proof fn lemma_task_frames(a: &SignTaskManager, b: &SignTaskManager)
    requires
        a.open_tasks() == b.open_tasks(),
        forall|i: int, j: int|
            0 <= i < j < a.open_tasks().len() ==> a.open_tasks()[i].0 != a.open_tasks()[j].0,
    ensures
        forall|id2: SignTaskID| (#[trigger] a.has_task(id2)) == b.has_task(id2),
        forall|id2: SignTaskID|
            b.has_task(id2) ==> (#[trigger] a.task_at(id2)) == b.task_at(id2),
{
    assert forall|id2: SignTaskID| (#[trigger] a.has_task(id2)) == b.has_task(id2) by {
        if a.has_task(id2) {
            let k = choose|k: int|
                0 <= k < a.open_tasks().len() && (#[trigger] a.open_tasks()[k]).0 == id2.0;
            assert((#[trigger] b.open_tasks()[k]).0 == id2.0);
        }
        if b.has_task(id2) {
            let k = choose|k: int|
                0 <= k < b.open_tasks().len() && (#[trigger] b.open_tasks()[k]).0 == id2.0;
            assert((#[trigger] a.open_tasks()[k]).0 == id2.0);
        }
    }
    assert forall|id2: SignTaskID|
        b.has_task(id2) implies (#[trigger] a.task_at(id2)) == b.task_at(id2) by {
        let k = choose|k: int|
            0 <= k < b.open_tasks().len() && (#[trigger] b.open_tasks()[k]).0 == id2.0;
        assert((#[trigger] a.open_tasks()[k]).0 == id2.0);
        lemma_task_key_unique(a, id2);
        lemma_task_key_unique(b, id2);
        assert(a.task_at(id2) == a.open_tasks()[k].1);
        assert(b.task_at(id2) == b.open_tasks()[k].1);
    }
}

/// With unique task keys, any index holding the task is the one the
/// lookup denotes.
proof fn lemma_task_key_unique(m: &SignTaskManager, id: SignTaskID)
    requires
        forall|i: int, j: int|
            0 <= i < j < m.open_tasks().len() ==> m.open_tasks()[i].0 != m.open_tasks()[j].0,
        m.has_task(id),
    ensures
        forall|i: int|
            0 <= i < m.open_tasks().len() && (#[trigger] m.open_tasks()[i]).0 == id.0
                ==> m.open_tasks()[i].1 == m.task_at(id),
{
    let si = choose|i: int|
        0 <= i < m.open_tasks().len() && (#[trigger] m.open_tasks()[i]).0 == id.0;
    assert forall|i: int|
        0 <= i < m.open_tasks().len() && (#[trigger] m.open_tasks()[i]).0 == id.0
            implies m.open_tasks()[i].1 == m.task_at(id) by {
        if i < si {
            assert(m.open_tasks()[i].0 != m.open_tasks()[si].0);
        } else if si < i {
            assert(m.open_tasks()[si].0 != m.open_tasks()[i].0);
        }
    }
}

} // verus!
