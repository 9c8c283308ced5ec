//! Waiting for activity: what is waited for, and what has come.

use vstd::prelude::*;

use crate::bytes;
use crate::bytes::{push_u32, push_u64, read_u16, read_u64};
use crate::schedule::accept::EIO;

verus! {

/// The error of a call with a wrong argument.
pub const EINVAL: i32 = 28;

/// The kinds of activity.
pub const CLOCK: u8 = 0;

pub const FD_READ: u8 = 1;

pub const FD_WRITE: u8 = 2;

/// How many things can be waited for at once.
pub const MAX_SUBSCRIPTIONS: usize = 256;

/// Bytes of one thing to wait for.
pub const SUBSCRIPTION_SIZE: usize = 48;

/// Bytes of one report of activity.
pub const EVENT_SIZE: usize = 32;

/// The clock that never goes back.
pub const CLOCKID_MONOTONIC: u32 = 1;

/// The signal that asks the server to end.
pub const SIGTERM: u16 = 15;

// What is waited for.

pub open spec fn zeros(n: nat) -> Seq<u8> {
    Seq::new(n, |i: int| 0u8)
}

/// A wait for activity of a descriptor. The report carries its place among all
/// waits, counted from one.
pub open spec fn fd_subscription(place: int, fd: i32, kind: u8) -> Seq<u8> {
    bytes::le64((place + 1) as u64) + seq![kind] + zeros(7) + bytes::le32(fd as u32) + zeros(28)
}

/// A wait for a time to pass. The report carries a zero.
pub open spec fn clock_subscription(timeout_ns: u64) -> Seq<u8> {
    zeros(8) + seq![CLOCK] + zeros(7) + bytes::le32(CLOCKID_MONOTONIC) + zeros(4) + bytes::le64(
        timeout_ns,
    ) + zeros(16)
}

pub open spec fn fd_subscriptions(interests: Seq<(i32, u8)>) -> Seq<u8>
    decreases interests.len(),
{
    if interests.len() == 0 {
        Seq::empty()
    } else {
        fd_subscriptions(interests.drop_last()) + fd_subscription(
            interests.len() - 1,
            interests.last().0,
            interests.last().1,
        )
    }
}

pub open spec fn subscriptions(interests: Seq<(i32, u8)>, timeout_ns: Option<u64>) -> Seq<u8> {
    match timeout_ns {
        Some(timeout_ns) => fd_subscriptions(interests) + clock_subscription(timeout_ns),
        None => fd_subscriptions(interests),
    }
}

pub open spec fn subscription_count(interests: Seq<(i32, u8)>, timeout_ns: Option<u64>) -> int {
    interests.len() + if timeout_ns is Some {
        1int
    } else {
        0
    }
}

/// Every wait has its place in what is handed to the system.
pub proof fn law_subscriptions_have_places(interests: Seq<(i32, u8)>, timeout_ns: Option<u64>)
    ensures
        subscriptions(interests, timeout_ns).len() == SUBSCRIPTION_SIZE * subscription_count(
            interests,
            timeout_ns,
        ),
{
    lemma_fd_subscriptions_len(interests);
}

proof fn lemma_fd_subscriptions_len(interests: Seq<(i32, u8)>)
    ensures
        fd_subscriptions(interests).len() == SUBSCRIPTION_SIZE * interests.len(),
    decreases interests.len(),
{
    if interests.len() > 0 {
        lemma_fd_subscriptions_len(interests.drop_last());
    }
}

fn push_zeros(out: &mut Vec<u8>, n: usize)
    ensures
        final(out)@ == old(out)@ + zeros(n as nat),
{
    let mut i: usize = 0;
    proof {
        assert(out@ =~= old(out)@ + zeros(0));
    }
    while i < n
        invariant
            i <= n,
            out@ == old(out)@ + zeros(i as nat),
        decreases n - i,
    {
        out.push(0);
        proof {
            assert(out@ =~= old(out)@ + zeros((i + 1) as nat));
        }
        i += 1;
    }
}

/// What is handed to the system to wait for the listed activities, and for a
/// time to pass if one is given.
pub fn encode_subscriptions(interests: &[(i32, u8)], timeout_ns: Option<u64>) -> (r: Result<
    Vec<u8>,
    i32,
>)
    ensures
        match r {
            Ok(encoded) => 0 < interests@.len() && subscription_count(interests@, timeout_ns)
                <= MAX_SUBSCRIPTIONS && encoded@ == subscriptions(interests@, timeout_ns),
            Err(errno) => errno == EINVAL && (interests@.len() == 0 || subscription_count(
                interests@,
                timeout_ns,
            ) > MAX_SUBSCRIPTIONS),
        },
{
    let room: usize = match timeout_ns {
        Some(_) => MAX_SUBSCRIPTIONS - 1,
        None => MAX_SUBSCRIPTIONS,
    };
    if interests.len() == 0 || interests.len() > room {
        return Err(EINVAL);
    }
    let mut out: Vec<u8> = Vec::new();
    let mut i: usize = 0;
    proof {
        assert(interests@.take(0) =~= Seq::<(i32, u8)>::empty());
        assert(out@ =~= Seq::<u8>::empty());
    }
    while i < interests.len()
        invariant
            i <= interests@.len(),
            interests@.len() <= MAX_SUBSCRIPTIONS,
            out@ == fd_subscriptions(interests@.take(i as int)),
        decreases interests@.len() - i,
    {
        let (fd, kind) = interests[i];
        let ghost before = out@;
        push_u64(&mut out, (i + 1) as u64);
        out.push(kind);
        push_zeros(&mut out, 7);
        push_u32(&mut out, fd as u32);
        push_zeros(&mut out, 28);
        proof {
            assert(interests@.take(i + 1).drop_last() =~= interests@.take(i as int));
            assert(out@ =~= before + fd_subscription(i as int, fd, kind));
        }
        i += 1;
    }
    proof {
        assert(interests@.take(i as int) =~= interests@);
    }
    if let Some(timeout_ns) = timeout_ns {
        let ghost before = out@;
        push_zeros(&mut out, 8);
        out.push(CLOCK);
        push_zeros(&mut out, 7);
        push_u32(&mut out, CLOCKID_MONOTONIC);
        push_zeros(&mut out, 4);
        push_u64(&mut out, timeout_ns);
        push_zeros(&mut out, 16);
        proof {
            assert(out@ =~= before + clock_subscription(timeout_ns));
        }
    }
    Ok(out)
}

/// Milliseconds in nanoseconds, as far as they can be counted.
pub fn timeout_ns(timeout_ms: u64) -> (ns: u64)
    ensures
        ns == if timeout_ms * 1_000_000 > u64::MAX {
            u64::MAX as int
        } else {
            timeout_ms * 1_000_000
        },
{
    match timeout_ms.checked_mul(1_000_000) {
        Some(ns) => ns,
        None => u64::MAX,
    }
}

// What has come.

/// What a report says of one wait: its fault, or the interest that it is
/// about; nothing for the time that passed.
pub open spec fn reported(
    interests: Seq<(i32, u8)>,
    events: Seq<u8>,
    index: int,
    allow_clock: bool,
) -> Result<Option<(i32, u8)>, i32> {
    let base = EVENT_SIZE * index;
    let errno = bytes::le16_at(events, base + 8);
    let userdata = bytes::le64_at(events, base);
    let kind = events[base + 10];
    if errno != 0 {
        Err(errno as i32)
    } else if allow_clock && userdata == 0 && kind == CLOCK {
        Ok(None)
    } else if userdata == 0 || userdata > interests.len() || kind != interests[userdata - 1].1 {
        Err(EIO)
    } else {
        Ok(Some(interests[userdata - 1]))
    }
}

/// What the first `n` reports say.
pub open spec fn all_reported(
    interests: Seq<(i32, u8)>,
    events: Seq<u8>,
    n: nat,
    allow_clock: bool,
) -> Result<Seq<(i32, u8)>, i32>
    decreases n,
{
    if n == 0 {
        Ok(Seq::empty())
    } else {
        match all_reported(interests, events, (n - 1) as nat, allow_clock) {
            Err(errno) => Err(errno),
            Ok(before) => match reported(interests, events, n - 1, allow_clock) {
                Err(errno) => Err(errno),
                Ok(Some(interest)) => Ok(before.push(interest)),
                Ok(None) => Ok(before),
            },
        }
    }
}

/// Whether there can be so many reports.
pub open spec fn can_report(
    interests: Seq<(i32, u8)>,
    events: Seq<u8>,
    n: int,
    allow_clock: bool,
) -> bool {
    0 < n <= interests.len() + (if allow_clock {
        1int
    } else {
        0
    }) && EVENT_SIZE * n <= events.len()
}

proof fn lemma_error_stays(
    interests: Seq<(i32, u8)>,
    events: Seq<u8>,
    n: nat,
    all: nat,
    allow_clock: bool,
)
    requires
        n <= all,
        all_reported(interests, events, n, allow_clock) is Err,
    ensures
        all_reported(interests, events, all, allow_clock) == all_reported(
            interests,
            events,
            n,
            allow_clock,
        ),
    decreases all,
{
    if n < all {
        lemma_error_stays(interests, events, n, (all - 1) as nat, allow_clock);
    }
}

/// Only what was waited for is reported.
pub proof fn law_reports_are_of_interest(
    interests: Seq<(i32, u8)>,
    events: Seq<u8>,
    n: nat,
    allow_clock: bool,
    i: int,
)
    ensures
        all_reported(interests, events, n, allow_clock) matches Ok(ready) ==> ready.len() <= n && (
        0 <= i < ready.len() ==> interests.contains(ready[i])),
    decreases n,
{
    if n > 0 {
        law_reports_are_of_interest(interests, events, (n - 1) as nat, allow_clock, i);
    }
}

/// One report.
fn decode_report(interests: &[(i32, u8)], events: &[u8], index: usize, allow_clock: bool) -> (r:
    Result<Option<(i32, u8)>, i32>)
    requires
        EVENT_SIZE * (index + 1) <= events@.len(),
    ensures
        r == reported(interests@, events@, index as int, allow_clock),
{
    assert(events.len() <= usize::MAX);
    let base: usize = EVENT_SIZE * index;
    let errno: u16 = read_u16(events, base + 8);
    if errno != 0 {
        return Err(errno as i32);
    }
    let userdata: u64 = read_u64(events, base);
    let kind: u8 = events[base + 10];
    if allow_clock && userdata == 0 && kind == CLOCK {
        return Ok(None);
    }
    if userdata == 0 || userdata > interests.len() as u64 {
        return Err(EIO);
    }
    let interest = interests[(userdata - 1) as usize];
    if kind != interest.1 {
        return Err(EIO);
    }
    Ok(Some(interest))
}

/// The interests that the system reports.
pub fn decode_ready_interests(
    interests: &[(i32, u8)],
    events: &[u8],
    nevents: usize,
    allow_clock: bool,
) -> (r: Result<Vec<(i32, u8)>, i32>)
    ensures
        match r {
            Ok(ready) => can_report(interests@, events@, nevents as int, allow_clock)
                && all_reported(interests@, events@, nevents as nat, allow_clock) == Ok::<
                Seq<(i32, u8)>,
                i32,
            >(ready@),
            Err(errno) => if can_report(interests@, events@, nevents as int, allow_clock) {
                all_reported(interests@, events@, nevents as nat, allow_clock) == Err::<
                    Seq<(i32, u8)>,
                    i32,
                >(errno)
            } else {
                errno == EIO
            },
        },
{
    if nevents == 0 || events.len() / EVENT_SIZE < nevents {
        return Err(EIO);
    }
    let counted: usize = if allow_clock {
        nevents - 1
    } else {
        nevents
    };
    if counted > interests.len() {
        return Err(EIO);
    }
    let mut ready: Vec<(i32, u8)> = Vec::new();
    let mut i: usize = 0;
    proof {
        assert(ready@ =~= Seq::<(i32, u8)>::empty());
    }
    while i < nevents
        invariant
            i <= nevents,
            can_report(interests@, events@, nevents as int, allow_clock),
            all_reported(interests@, events@, i as nat, allow_clock) == Ok::<Seq<(i32, u8)>, i32>(
                ready@,
            ),
        decreases nevents - i,
    {
        match decode_report(interests, events, i, allow_clock) {
            Err(errno) => {
                proof {
                    lemma_error_stays(
                        interests@,
                        events@,
                        (i + 1) as nat,
                        nevents as nat,
                        allow_clock,
                    );
                }
                return Err(errno);
            },
            Ok(Some(interest)) => {
                ready.push(interest);
            },
            Ok(None) => {},
        }
        i += 1;
    }
    Ok(ready)
}

/// What matters of what has come.
#[derive(Copy, Clone, Debug, PartialEq, Eq, Structural)]
pub struct PollReadiness {
    pub listener_read_ready: bool,
}

impl Default for PollReadiness {
    fn default() -> (readiness: Self)
        ensures
            !readiness.listener_read_ready,
    {
        PollReadiness { listener_read_ready: false }
    }
}

/// Whether somebody waits to be accepted.
pub fn summarize_poll_readiness(listener: i32, ready: &[(i32, u8)]) -> (r: PollReadiness)
    ensures
        r.listener_read_ready == ready@.contains((listener, FD_READ)),
{
    let mut i: usize = 0;
    while i < ready.len()
        invariant
            i <= ready@.len(),
            forall|j: int| 0 <= j < i ==> ready@[j] != (listener, FD_READ),
        decreases ready@.len() - i,
    {
        let (fd, kind) = ready[i];
        if fd == listener && kind == FD_READ {
            assert(ready@[i as int] == (listener, FD_READ));
            return PollReadiness { listener_read_ready: true };
        }
        i += 1;
    }
    PollReadiness { listener_read_ready: false }
}

// What to wait for.

pub open spec fn opt_interest(fd: Option<i32>) -> Seq<(i32, u8)> {
    match fd {
        Some(fd) => seq![(fd, FD_READ)],
        None => Seq::empty(),
    }
}

pub open spec fn read_interests(fds: Seq<i32>) -> Seq<(i32, u8)> {
    fds.map_values(|fd: i32| (fd, FD_READ))
}

/// What is waited for of connections: that they send something, and that those
/// with something to be sent take it.
pub open spec fn client_interests(clients: Seq<(i32, bool)>) -> Seq<(i32, u8)>
    decreases clients.len(),
{
    if clients.len() == 0 {
        Seq::empty()
    } else {
        let (fd, outbound_pending) = clients.last();
        let before = client_interests(clients.drop_last()).push((fd, FD_READ));
        if outbound_pending {
            before.push((fd, FD_WRITE))
        } else {
            before
        }
    }
}

pub open spec fn wait_interests(
    listener: i32,
    signal: i32,
    mouse: Option<i32>,
    keyboard: Option<i32>,
    watch_fds: Seq<i32>,
    clients: Seq<(i32, bool)>,
    transport_only: bool,
) -> Seq<(i32, u8)> {
    let devices = if transport_only {
        Seq::empty()
    } else {
        seq![(signal, FD_READ)] + opt_interest(mouse) + opt_interest(keyboard) + read_interests(
            watch_fds,
        )
    };
    seq![(listener, FD_READ)] + devices + client_interests(clients)
}

/// All connections can be waited for at once, whatever they have to be sent.
pub proof fn law_all_clients_can_be_waited_for(
    listener: i32,
    signal: i32,
    mouse: Option<i32>,
    keyboard: Option<i32>,
    watch_fds: Seq<i32>,
    clients: Seq<(i32, bool)>,
    transport_only: bool,
)
    requires
        watch_fds.len() <= 2,
        clients.len() <= crate::server::MAX_SERVER_CLIENTS,
    ensures
        wait_interests(
            listener,
            signal,
            mouse,
            keyboard,
            watch_fds,
            clients,
            transport_only,
        ).len() < MAX_SUBSCRIPTIONS,
{
    lemma_client_interests_len(clients);
}

proof fn lemma_client_interests_len(clients: Seq<(i32, bool)>)
    ensures
        clients.len() <= client_interests(clients).len() <= 2 * clients.len(),
    decreases clients.len(),
{
    if clients.len() > 0 {
        lemma_client_interests_len(clients.drop_last());
    }
}

/// What to wait for.
pub fn build_wait_interests(
    listener: i32,
    signal: i32,
    mouse: Option<i32>,
    keyboard: Option<i32>,
    watch_fds: &[i32],
    clients: &[(i32, bool)],
    transport_only: bool,
) -> (r: Result<Vec<(i32, u8)>, i32>)
    ensures
        ({
            let wanted = wait_interests(
                listener,
                signal,
                mouse,
                keyboard,
                watch_fds@,
                clients@,
                transport_only,
            );
            match r {
                Ok(interests) => interests@ == wanted && wanted.len() <= MAX_SUBSCRIPTIONS,
                Err(errno) => errno == EINVAL && wanted.len() > MAX_SUBSCRIPTIONS,
            }
        }),
{
    let mut interests: Vec<(i32, u8)> = Vec::new();
    interests.push((listener, FD_READ));
    let ghost first = interests@;
    if !transport_only {
        interests.push((signal, FD_READ));
        if let Some(fd) = mouse {
            interests.push((fd, FD_READ));
        }
        if let Some(fd) = keyboard {
            interests.push((fd, FD_READ));
        }
        let ghost before = interests@;
        let mut i: usize = 0;
        proof {
            assert(interests@ =~= before + read_interests(watch_fds@.take(0)));
        }
        while i < watch_fds.len()
            invariant
                i <= watch_fds@.len(),
                interests@ == before + read_interests(watch_fds@.take(i as int)),
            decreases watch_fds@.len() - i,
        {
            interests.push((watch_fds[i], FD_READ));
            proof {
                assert(interests@ =~= before + read_interests(watch_fds@.take(i + 1)));
            }
            i += 1;
        }
        proof {
            assert(watch_fds@.take(i as int) =~= watch_fds@);
            assert(interests@ =~= first + (seq![(signal, FD_READ)] + opt_interest(mouse)
                + opt_interest(keyboard) + read_interests(watch_fds@)));
        }
    } else {
        proof {
            assert(interests@ =~= first + Seq::<(i32, u8)>::empty());
        }
    }
    let ghost before = interests@;
    let mut i: usize = 0;
    proof {
        assert(clients@.take(0) =~= Seq::<(i32, bool)>::empty());
        assert(interests@ =~= before + client_interests(clients@.take(0)));
    }
    while i < clients.len()
        invariant
            i <= clients@.len(),
            interests@ == before + client_interests(clients@.take(i as int)),
        decreases clients@.len() - i,
    {
        let (fd, outbound_pending) = clients[i];
        interests.push((fd, FD_READ));
        if outbound_pending {
            interests.push((fd, FD_WRITE));
        }
        proof {
            assert(clients@.take(i + 1).drop_last() =~= clients@.take(i as int));
            assert(interests@ =~= before + client_interests(clients@.take(i + 1)));
        }
        i += 1;
    }
    proof {
        assert(clients@.take(i as int) =~= clients@);
        assert(first =~= seq![(listener, FD_READ)]);
    }
    if interests.len() > MAX_SUBSCRIPTIONS {
        return Err(EINVAL);
    }
    Ok(interests)
}

/// Whether one of the signals that were read, two bytes each, asks the server
/// to end.
pub open spec fn has_sigterm(signals: Seq<u8>) -> bool {
    exists|i: int|
        0 <= i && 2 * i + 2 <= signals.len() && #[trigger] bytes::le16_at(signals, 2 * i) == SIGTERM
}

/// Whether one of the signals that were read asks the server to end.
pub fn asks_to_end(signals: &[u8]) -> (r: bool)
    ensures
        r == has_sigterm(signals@),
{
    let mut i: usize = 0;
    let count: usize = signals.len() / 2;
    while i < count
        invariant
            i <= count,
            count == signals@.len() as int / 2,
            signals@.len() <= usize::MAX,
            forall|j: int| 0 <= j < i ==> #[trigger] bytes::le16_at(signals@, 2 * j) != SIGTERM,
        decreases count - i,
    {
        if read_u16(signals, 2 * i) == SIGTERM {
            assert(bytes::le16_at(signals@, 2 * (i as int)) == SIGTERM);
            return true;
        }
        i += 1;
    }
    false
}

} // verus!
