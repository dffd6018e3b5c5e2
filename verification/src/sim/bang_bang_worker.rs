//! Bookkeeping of the background bang-bang swing planner.
//!
//! The planner runs for tens to hundreds of milliseconds, so the physics thread
//! only sends a request and polls for the answer on later ticks while the ball
//! keeps flying. This is the side that decides: at most one request in flight,
//! every request with a fresh id, and only the answer to the request still
//! tracked is taken — an answer that arrives after its request was cancelled is
//! dropped. The caller owns the channels and the thread.
use vstd::prelude::*;

verus! {

/// The request being computed: its id and when it was asked for.
#[derive(Debug, Clone, Copy, PartialEq, Eq)]
pub struct Inflight<T> {
    pub id: u64,
    pub requested_at: T,
}

/// One call on the request bookkeeping, with what it returned.
pub enum Call<T> {
    /// [`BangBangRequests::next_request`].
    Next(Option<u64>),
    /// [`BangBangRequests::sent`] with its id and time.
    Sent(u64, T),
    /// [`BangBangRequests::accept`].
    Accept,
    /// [`BangBangRequests::cancel`].
    Cancel,
}

/// Ids handed out so far and the one request being waited for.
pub struct BangBangRequests<T> {
    next_id: u64,
    inflight: Option<Inflight<T>>,
    /// The last id handed out was never sent.
    unsent: Ghost<bool>,
}

/// Index of the last answer with id `id`.
pub open spec fn last_answer<R>(answers: Seq<(u64, R)>, id: u64) -> Option<int>
    decreases answers.len(),
{
    if answers.len() == 0 {
        None
    } else if answers.last().0 == id {
        Some(answers.len() - 1)
    } else {
        last_answer(answers.drop_last(), id)
    }
}

/// What a poll yields for the request `waited` for: when it was asked for and
/// the last answer that carries its id, if any arrived.
pub open spec fn answer_for<T, R>(waited: Option<Inflight<T>>, answers: Seq<(u64, R)>) -> Option<(T, R)> {
    match waited {
        None => None,
        Some(w) => match last_answer(answers, w.id) {
            None => None,
            Some(i) => Some((w.requested_at, answers[i].1)),
        },
    }
}

impl<T: Copy> BangBangRequests<T> {
    /// The last id handed out; zero before the first request.
    pub closed spec fn last_id(&self) -> u64 {
        self.next_id
    }

    /// The request being waited for.
    pub closed spec fn waiting_for(&self) -> Option<Inflight<T>> {
        self.inflight
    }

    /// The last id handed out may still be sent: it was handed out and not sent yet.
    pub closed spec fn is_fresh(&self) -> bool {
        self.unsent@
    }

    /// What always holds: the request waited for has the last id handed out,
    /// which was sent.
    pub closed spec fn wf(&self) -> bool {
        &&& self.inflight matches Some(r) ==> r.id == self.next_id && r.id > 0
        &&& self.inflight is Some ==> !self.unsent@
        &&& self.unsent@ ==> self.next_id > 0
    }

    /// `self` is `before` after `call`.
    pub open spec fn did(&self, before: &Self, call: Call<T>) -> bool {
        &&& self.wf()
        &&& match call {
            Call::Next(r) => self.waiting_for() == before.waiting_for() && match r {
                None => before.waiting_for() is Some && self.last_id() == before.last_id()
                    && self.is_fresh() == before.is_fresh(),
                Some(id) => before.waiting_for() is None && id == before.last_id() + 1
                    && self.last_id() == id && self.is_fresh(),
            },
            Call::Sent(id, at) => before.is_fresh() && id == before.last_id() && self.last_id()
                == before.last_id() && self.waiting_for() == Some(Inflight { id, requested_at: at })
                && !self.is_fresh(),
            Call::Accept => self.last_id() == before.last_id() && self.is_fresh() == before.is_fresh()
                && (self.waiting_for() is None || self.waiting_for() == before.waiting_for()),
            Call::Cancel => self.last_id() == before.last_id() && self.is_fresh() == before.is_fresh()
                && self.waiting_for() is None,
        }
    }

    /// Request `id` can never be waited for again: it was handed out, is not
    /// waited for, and may not be sent.
    pub open spec fn retired(&self, id: u64) -> bool {
        &&& id <= self.last_id()
        &&& !(self.waiting_for() matches Some(w) && w.id == id)
        &&& id == self.last_id() ==> !self.is_fresh()
    }

    /// The answer to a cancelled request is never taken: once the request
    /// waited for is cancelled, whatever calls follow never wait for its id
    /// again, and [`Self::accept`] takes only answers to the request waited for.
    pub proof fn lemma_cancelled_request_is_never_answered(runs: Seq<Self>, calls: Seq<Call<T>>, id: u64)
        requires
            runs.len() == calls.len() + 1,
            calls.len() > 0,
            runs[0].wf(),
            runs[0].waiting_for() matches Some(w) && w.id == id,
            calls[0] is Cancel,
            forall|i: int| 0 <= i < calls.len() ==> runs[i + 1].did(&runs[i], #[trigger] calls[i]),
        ensures
            forall|i: int| 1 <= i < runs.len() ==> (#[trigger] runs[i]).retired(id),
        decreases calls.len(),
    {
        let n = calls.len() - 1;
        assert(runs[1].did(&runs[0], calls[0]));
        if n > 0 {
            let front = runs.drop_last();
            Self::lemma_cancelled_request_is_never_answered(front, calls.drop_last(), id);
            assert(front[n as int] == runs[n as int]);
            assert(runs[n + 1].did(&runs[n as int], calls[n as int]));
            assert(runs[n as int].retired(id));
            assert forall|i: int| 1 <= i < runs.len() implies (#[trigger] runs[i]).retired(id) by {
                if i < n + 1 {
                    assert(front[i] == runs[i]);
                }
            }
        }
    }

    /// Nothing asked for yet.
    pub fn new() -> (r: Self)
        ensures
            r.wf(),
            r.last_id() == 0,
            r.waiting_for() is None,
            !r.is_fresh(),
    {
        BangBangRequests { next_id: 0, inflight: None, unsent: Ghost(false) }
    }

    /// The last id handed out; zero before the first request.
    pub fn issued(&self) -> (r: u64)
        ensures
            r == self.last_id(),
    {
        self.next_id
    }

    /// Is a request being computed?
    pub fn is_busy(&self) -> (r: bool)
        ensures
            r == self.waiting_for() is Some,
    {
        self.inflight.is_some()
    }

    /// The id for a new request, unless one is still being computed.
    ///
    /// The caller sends the request with this id and reports it with [`Self::sent`];
    /// an id whose request could not be sent is never reused.
    pub fn next_request(&mut self) -> (r: Option<u64>)
        requires
            old(self).wf(),
            old(self).last_id() < u64::MAX,
        ensures
            final(self).wf(),
            final(self).waiting_for() == old(self).waiting_for(),
            match r {
                None => old(self).waiting_for() is Some && final(self).last_id() == old(self).last_id(),
                Some(id) => old(self).waiting_for() is None && id == old(self).last_id() + 1
                    && final(self).last_id() == id && final(self).is_fresh(),
            },
            r is None ==> final(self).is_fresh() == old(self).is_fresh(),
            final(self).did(old(self), Call::Next(r)),
    {
        if self.inflight.is_some() {
            return None;
        }
        self.next_id = self.next_id + 1;
        self.unsent = Ghost(true);
        Some(self.next_id)
    }

    /// The request `id` is on its way; wait for its answer. Only the id just
    /// handed out by [`Self::next_request`], and only once: a request that was
    /// cancelled is never waited for again.
    pub fn sent(&mut self, id: u64, requested_at: T)
        requires
            old(self).wf(),
            old(self).is_fresh(),
            id == old(self).last_id(),
        ensures
            final(self).wf(),
            final(self).last_id() == old(self).last_id(),
            final(self).waiting_for() == Some(Inflight { id, requested_at }),
            !final(self).is_fresh(),
            final(self).did(old(self), Call::Sent(id, requested_at)),
    {
        self.inflight = Some(Inflight { id, requested_at });
        self.unsent = Ghost(false);
    }

    /// Takes the last of `answers` that belongs to the request waited for,
    /// with the time it was asked for, and stops waiting. Any other answer is
    /// stale and dropped.
    pub fn accept<R>(&mut self, answers: Vec<(u64, R)>) -> (r: Option<(T, R)>)
        requires
            old(self).wf(),
        ensures
            final(self).wf(),
            final(self).last_id() == old(self).last_id(),
            final(self).is_fresh() == old(self).is_fresh(),
            final(self).did(old(self), Call::Accept),
            r == answer_for(old(self).waiting_for(), answers@),
            final(self).waiting_for() == (if r is Some { None } else { old(self).waiting_for() }),
    {
        let waited = match self.inflight {
            Some(w) => w,
            None => return None,
        };
        let ghost all = answers@;
        let mut rest = answers;
        while rest.len() > 0
            invariant
                self.next_id == old(self).next_id,
                self.unsent == old(self).unsent,
                !self.unsent@,
                self.inflight == Some(waited),
                old(self).inflight == Some(waited),
                all == answers@,
                last_answer(all, waited.id) == last_answer(rest@, waited.id),
                rest@ == all.take(rest@.len() as int),
                rest@.len() <= all.len(),
            decreases rest@.len(),
        {
            let ghost before = rest@;
            let (id, result) = match rest.pop() {
                Some(answer) => answer,
                None => return None,
            };
            proof {
                assert(before.drop_last() =~= rest@);
                assert(all.take(rest@.len() as int) =~= before.take(rest@.len() as int));
            }
            if id == waited.id {
                self.inflight = None;
                return Some((waited.requested_at, result));
            }
        }
        None
    }

    /// Stops waiting: a new ball made the pending plan pointless. Its answer,
    /// should it still come, will be dropped.
    pub fn cancel(&mut self)
        requires
            old(self).wf(),
        ensures
            final(self).wf(),
            final(self).last_id() == old(self).last_id(),
            final(self).waiting_for() is None,
            final(self).is_fresh() == old(self).is_fresh(),
            final(self).did(old(self), Call::Cancel),
    {
        self.inflight = None;
    }
}

} // verus!
