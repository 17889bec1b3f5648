//! Workers: when a proxy is kept and when it is given up.

use vstd::prelude::*;

verus! {

/// After how many failures in a row a worker is given up.
pub const MAX_CONSEC_FAIL: usize = 3;

/// The status of a reply says that a quota is used up.
pub open spec fn is_quota_status(status: Option<u16>) -> bool {
    status == Some(429u16) || status == Some(509u16)
}

/// Whether a failed download, with the status of its reply where there was one, failed because a
/// quota is used up.
pub fn is_quota_error(status: Option<u16>) -> (r: bool)
    ensures
        r == is_quota_status(status),
        r <==> status == Some(429u16) || status == Some(509u16),
{
    match status {
        Some(code) => code == 429 || code == 509,
        None => false,
    }
}

/// What becomes of a worker whose download failed.
#[derive(Clone, Copy, Debug, PartialEq, Eq, Structural)]
pub enum Verdict {
    /// It goes on with the next chunk.
    GoOn,
    /// It is given up: the quota of its proxy is used up.
    RetireQuota,
    /// It is given up after this number of failures in a row.
    RetireErrors(usize),
}

/// A worker that downloads chunks one after the other.
#[derive(Clone, Copy, Debug)]
pub struct Worker {
    /// How many downloads failed since the last that did not.
    pub consec: usize,
}

/// What a failure with `status` makes of a worker that had `consec` failures in a row.
pub open spec fn verdict_of(consec: nat, status: Option<u16>) -> Verdict {
    if is_quota_status(status) {
        Verdict::RetireQuota
    } else if consec + 1 >= MAX_CONSEC_FAIL {
        Verdict::RetireErrors((consec + 1) as usize)
    } else {
        Verdict::GoOn
    }
}

impl Worker {
    /// The worker has not been given up.
    pub open spec fn is_active(self) -> bool {
        self.consec < MAX_CONSEC_FAIL
    }

    /// A worker without a failure.
    pub fn new() -> (r: Self)
        ensures
            r.is_active(),
            r.consec == 0,
    {
        Worker { consec: 0 }
    }

    /// A chunk has come.
    pub fn on_success(&mut self)
        ensures
            final(self).is_active(),
            final(self).consec == 0,
    {
        self.consec = 0;
    }

    /// A chunk has not come. The worker stays active exactly where it is to go on, or where the
    /// quota ends it before the failure counts.
    pub fn on_failure(&mut self, status: Option<u16>) -> (r: Verdict)
        requires
            old(self).is_active(),
        ensures
            r == verdict_of(old(self).consec as nat, status),
            r == Verdict::RetireQuota <==> status == Some(429u16) || status == Some(509u16),
            r == Verdict::GoOn <==> status != Some(429u16) && status != Some(509u16) && old(
                self,
            ).consec + 1 < MAX_CONSEC_FAIL,
            r matches Verdict::RetireErrors(n) ==> n == old(self).consec + 1,
            is_quota_status(status) ==> final(self).consec == old(self).consec,
            !is_quota_status(status) ==> final(self).consec == old(self).consec + 1,
            r == Verdict::GoOn ==> final(self).is_active(),
    {
        if is_quota_error(status) {
            return Verdict::RetireQuota;
        }
        self.consec = self.consec + 1;
        if self.consec >= MAX_CONSEC_FAIL {
            return Verdict::RetireErrors(self.consec);
        }
        Verdict::GoOn
    }
}

/// How many failures in a row a worker has had after `outcomes`, each a download that came
/// (`None`) or that failed with or without a status, if no verdict before has ended it.
pub open spec fn consec_after(outcomes: Seq<Option<Option<u16>>>) -> Option<nat>
    decreases outcomes.len(),
{
    if outcomes.len() == 0 {
        Some(0)
    } else {
        match (consec_after(outcomes.drop_last()), outcomes.last()) {
            (None, _) => None,
            (Some(_), None) => Some(0),
            (Some(n), Some(status)) => if verdict_of(n, status) == Verdict::GoOn {
                Some(n + 1)
            } else {
                None
            },
        }
    }
}

/// A worker that is still active has never met a used-up quota, and none of its last downloads
/// in a row, as many as are enough to give it up, all failed.
pub proof fn law_active_worker(outcomes: Seq<Option<Option<u16>>>)
    requires
        consec_after(outcomes) is Some,
    ensures
        consec_after(outcomes)->0 < MAX_CONSEC_FAIL,
        consec_after(outcomes)->0 <= outcomes.len(),
        forall|i: int|
            0 <= i < outcomes.len() && #[trigger] outcomes[i] is Some ==> !is_quota_status(
                outcomes[i]->0,
            ),
        forall|i: int|
            outcomes.len() - consec_after(outcomes)->0 <= i < outcomes.len()
                ==> #[trigger] outcomes[i] is Some,
        consec_after(outcomes)->0 < outcomes.len() ==> outcomes[outcomes.len() - 1
            - consec_after(outcomes)->0] is None,
    decreases outcomes.len(),
{
    if outcomes.len() > 0 {
        let front = outcomes.drop_last();
        law_active_worker(front);
        assert forall|i: int| 0 <= i < outcomes.len() && #[trigger] outcomes[i] is Some implies
            !is_quota_status(outcomes[i]->0) by {
            if i < front.len() {
                assert(front[i] == outcomes[i]);
            }
        }
        assert forall|i: int|
            outcomes.len() - consec_after(outcomes)->0 <= i < outcomes.len() implies
            #[trigger] outcomes[i] is Some by {
            if i < front.len() {
                assert(front[i] == outcomes[i]);
            }
        }
    }
}

/// What becomes of a worker after a failure: status 429 or 509 ends it at once; any other failure
/// ends it exactly where it is the third in a row, and else it goes on.
pub proof fn law_verdict(consec: nat, status: Option<u16>)
    requires
        consec < 3,
    ensures
        status == Some(429u16) || status == Some(509u16) ==> verdict_of(consec, status)
            == Verdict::RetireQuota,
        status != Some(429u16) && status != Some(509u16) && consec < 2 ==> verdict_of(
            consec,
            status,
        ) == Verdict::GoOn,
        status != Some(429u16) && status != Some(509u16) && consec == 2 ==> verdict_of(
            consec,
            status,
        ) == Verdict::RetireErrors(3),
{
}

/// Only failures in a row count: whatever came before, a chunk that comes starts the count anew, and
/// a worker that is given up stays so.
pub proof fn law_failures_in_a_row(before: Seq<Option<Option<u16>>>, status: Option<u16>)
    ensures
        consec_after(before) is Some ==> consec_after(before.push(None)) == Some(0nat),
        consec_after(before) is None ==> consec_after(before.push(None)) is None && consec_after(
            before.push(Some(status)),
        ) is None,
        consec_after(before) matches Some(n) ==> consec_after(before.push(Some(status))) == if status
            != Some(429u16) && status != Some(509u16) && n < 2 {
            Some(n + 1)
        } else {
            None
        },
{
    assert(before.push(None).drop_last() =~= before);
    assert(before.push(Some(status)).drop_last() =~= before);
}

} // verus!
