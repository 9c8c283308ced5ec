//! Cutting what a connection sent into requests.

use vstd::prelude::*;
use vstd::slice::slice_subrange;

use crate::bytes;
use crate::bytes::read_u16;
use crate::wire::HEADER_SIZE;

verus! {

/// What has become of a connection's requests.
#[derive(Copy, Clone, Debug, PartialEq, Eq, Structural)]
pub struct RequestDrain {
    /// How many bytes were taken.
    pub consumed: usize,
    /// How many requests were handed on.
    pub dispatched: usize,
    /// Whether another request is there.
    pub complete_remaining: bool,
    /// Whether the last request was to be the last.
    pub stopped_early: bool,
}

/// The length that a request gives of itself.
pub open spec fn stated_len(sent: Seq<u8>) -> int {
    bytes::le16_at(sent, 6) as int
}

/// Whether `sent` begins with a request that is too short to be one.
pub open spec fn is_broken(sent: Seq<u8>) -> bool {
    sent.len() >= HEADER_SIZE && stated_len(sent) < HEADER_SIZE
}

/// Whether `sent` begins with a request that is all there.
pub open spec fn has_request(sent: Seq<u8>) -> bool {
    sent.len() >= HEADER_SIZE && HEADER_SIZE <= stated_len(sent) <= sent.len()
}

/// Whether something can be done with what was sent.
pub open spec fn is_complete(sent: Seq<u8>) -> bool {
    is_broken(sent) || has_request(sent)
}

/// Where request `n` begins.
pub open spec fn offset_of(sent: Seq<u8>, n: nat) -> int
    decreases n,
{
    if n == 0 {
        0
    } else {
        let before = offset_of(sent, (n - 1) as nat);
        before + stated_len(sent.skip(before))
    }
}

/// Whether `sent` begins with `n` requests that are all there.
pub open spec fn has_requests(sent: Seq<u8>, n: nat) -> bool {
    forall|k: nat| k < n ==> has_request(sent.skip(#[trigger] offset_of(sent, k)))
}

pub open spec fn request_of(sent: Seq<u8>, n: nat) -> Seq<u8> {
    sent.subrange(offset_of(sent, n), offset_of(sent, n + 1))
}

/// Whether `dispatch` may answer a request with `answer`.
pub open spec fn may_answer<D: FnMut(&[u8]) -> bool>(
    dispatch: D,
    request: Seq<u8>,
    answer: bool,
) -> bool {
    exists|handed: &[u8]| handed@ == request && #[trigger] dispatch.ensures((handed,), answer)
}

/// Whether `answers` are answers of `dispatch` to the first requests.
pub open spec fn are_answers<D: FnMut(&[u8]) -> bool>(
    dispatch: D,
    sent: Seq<u8>,
    answers: Seq<bool>,
) -> bool {
    forall|k: int|
        0 <= k < answers.len() ==> may_answer(
            dispatch,
            request_of(sent, k as nat),
            #[trigger] answers[k],
        )
}

/// Whether everything but the last request was answered with `true`, and the
/// last with whether to go on.
pub open spec fn goes_on(answers: Seq<bool>, stopped_early: bool) -> bool {
    &&& forall|k: int| 0 <= k < answers.len() - 1 ==> #[trigger] answers[k]
    &&& answers.len() > 0 ==> answers.last() == !stopped_early
}

impl RequestDrain {
    /// Whether this is what becomes of requests, at most `limit` of them, when
    /// they get the given answers.
    pub open spec fn accounts_for(self, sent: Seq<u8>, limit: usize, left: Seq<u8>) -> bool {
        let rest = sent.skip(offset_of(sent, self.dispatched as nat));
        &&& self.dispatched <= limit
        &&& has_requests(sent, self.dispatched as nat)
        &&& self.stopped_early ==> self.dispatched > 0
        &&& !self.stopped_early ==> self.dispatched == limit || !has_request(rest)
        &&& self.consumed == if !self.stopped_early && self.dispatched < limit && is_broken(rest) {
            sent.len() as int
        } else {
            offset_of(sent, self.dispatched as nat)
        }
        &&& left == sent.skip(self.consumed as int)
        &&& self.complete_remaining == is_complete(left)
    }
}

/// Requests follow one another in what was sent.
pub proof fn law_requests_follow_one_another(sent: Seq<u8>, n: nat)
    requires
        has_requests(sent, n),
    ensures
        0 <= offset_of(sent, n) <= sent.len(),
        n > 0 ==> offset_of(sent, (n - 1) as nat) + HEADER_SIZE <= offset_of(sent, n),
    decreases n,
{
    if n > 0 {
        let m = (n - 1) as nat;
        law_requests_follow_one_another(sent, m);
        assert(has_request(sent.skip(offset_of(sent, m))));
    }
}

/// Whether something can be done with what a connection sent.
pub fn has_complete_protocol_request(pending: &[u8]) -> (r: bool)
    ensures
        r == is_complete(pending@),
{
    if pending.len() < HEADER_SIZE {
        return false;
    }
    let len: usize = read_u16(pending, 6) as usize;
    len < HEADER_SIZE || len <= pending.len()
}

/// Hands on the requests that a connection sent, at most `limit` of them and
/// none after the first that `dispatch` answers with `false`. A request that is
/// too short to be one takes everything after it with it.
pub fn drain_protocol_requests_bounded<D>(
    pending: &mut Vec<u8>,
    limit: usize,
    mut dispatch: D,
) -> (r: RequestDrain)
where
    D: FnMut(&[u8]) -> bool,
    requires
        forall|request: &[u8]| dispatch.requires((request,)),
    ensures
        r.accounts_for(old(pending)@, limit, final(pending)@),
        exists|answers: Seq<bool>|
            answers.len() == r.dispatched && goes_on(answers, r.stopped_early) && #[trigger] are_answers(
                dispatch,
                old(pending)@,
                answers,
            ),
{
    let ghost sent = pending@;
    let ghost handler = dispatch;
    let mut consumed: usize = 0;
    let mut dispatched: usize = 0;
    let mut stopped_early: bool = false;
    let ghost mut answers: Seq<bool> = Seq::empty();
    proof {
        assert(sent.skip(0) =~= sent);
    }
    while dispatched < limit
        invariant_except_break
            !stopped_early,
            consumed == offset_of(sent, dispatched as nat),
            dispatched == 0 || answers.last(),
            forall|k: int| 0 <= k < answers.len() ==> #[trigger] answers[k],
        invariant
            dispatched <= limit,
            handler == dispatch,
            forall|request: &[u8]| handler.requires((request,)),
            pending@ == sent,
            consumed <= sent.len(),
            has_requests(sent, dispatched as nat),
            answers.len() == dispatched,
            are_answers(handler, sent, answers),
        ensures
            stopped_early ==> dispatched > 0,
            !stopped_early ==> dispatched == limit || !has_request(
                sent.skip(offset_of(sent, dispatched as nat)),
            ),
            consumed == if !stopped_early && dispatched < limit && is_broken(
                sent.skip(offset_of(sent, dispatched as nat)),
            ) {
                sent.len() as int
            } else {
                offset_of(sent, dispatched as nat)
            },
            goes_on(answers, stopped_early),
        decreases limit - dispatched,
    {
        let ghost rest = sent.skip(consumed as int);
        let left: usize = pending.len() - consumed;
        if left < HEADER_SIZE {
            break;
        }
        let len: usize = read_u16(pending.as_slice(), consumed + 6) as usize;
        proof {
            assert(rest[6] == sent[consumed + 6]);
            assert(rest[7] == sent[consumed + 7]);
            assert(len == stated_len(rest));
        }
        if len < HEADER_SIZE {
            consumed = pending.len();
            break;
        }
        if len > left {
            break;
        }
        let request = slice_subrange(pending.as_slice(), consumed, consumed + len);
        let keep_dispatching = dispatch(request);
        proof {
            let n = dispatched as nat;
            assert(offset_of(sent, n + 1) == consumed + len);
            assert(request@ == request_of(sent, n));
            let longer = answers.push(keep_dispatching);
            assert(may_answer(handler, request_of(sent, n), keep_dispatching));
            assert forall|k: int| 0 <= k < longer.len() implies may_answer(
                handler,
                request_of(sent, k as nat),
                #[trigger] longer[k],
            ) by {
                if k < answers.len() {
                    assert(longer[k] == answers[k]);
                }
            }
            answers = longer;
        }
        consumed += len;
        dispatched += 1;
        if !keep_dispatching {
            stopped_early = true;
            break;
        }
    }
    drop_front(pending, consumed);
    RequestDrain {
        consumed,
        dispatched,
        complete_remaining: has_complete_protocol_request(pending.as_slice()),
        stopped_early,
    }
}

/// Takes the first `n` bytes out.
pub(crate) fn drop_front(pending: &mut Vec<u8>, n: usize)
    requires
        n <= old(pending)@.len(),
    ensures
        final(pending)@ == old(pending)@.skip(n as int),
{
    if n > 0 {
        let rest: Vec<u8> = pending.split_off(n);
        proof {
            assert(rest@ =~= old(pending)@.skip(n as int));
        }
        *pending = rest;
    } else {
        proof {
            assert(pending@ =~= old(pending)@.skip(0));
        }
    }
}

} // verus!
