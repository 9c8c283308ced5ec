//! Taking in new connections and reports of changed files, a few in a turn.

use vstd::prelude::*;

use crate::schedule::shutdown::EAGAIN;
use crate::schedule::{ACCEPTS_PER_TURN, WATCH_READS_PER_TURN};

verus! {

/// The error of a call that failed on the device.
pub const EIO: i32 = 29;

/// The bytes of one report of a changed file.
pub const FS_WATCH_EVENT_SIZE: usize = 16;

/// The bytes that reports are read into.
pub const WATCH_BUFFER_BYTES: usize = 256;

/// What accepting came to, if `fds` is what it gave: a negative one is an
/// error and the last.
pub open spec fn accept_outcome(fds: Seq<i32>) -> Result<usize, i32> {
    if fds.len() > 0 && fds.last() < 0 {
        Err(fds.last())
    } else {
        Ok(fds.len() as usize)
    }
}

/// Whether accepting stopped where it should: after an error, or when enough
/// were accepted.
pub open spec fn accepts_enough(fds: Seq<i32>) -> bool {
    &&& 0 < fds.len() <= ACCEPTS_PER_TURN
    &&& fds.len() < ACCEPTS_PER_TURN ==> fds.last() < 0
    &&& forall|i: int| 0 <= i < fds.len() - 1 ==> #[trigger] fds[i] >= 0
}

/// Whether `fds` came of `accept`, and each that is not an error went to
/// `handle`.
pub open spec fn were_accepted<A: FnMut() -> i32, H: FnMut(i32)>(
    accept: A,
    handle: H,
    fds: Seq<i32>,
) -> bool {
    forall|i: int|
        0 <= i < fds.len() ==> accept.ensures((), #[trigger] fds[i]) && (fds[i] >= 0
            ==> handle.ensures((fds[i],), ()))
}

/// Accepts connections, at most a few, until an error comes.
pub fn drain_accepts_bounded<A, H>(accept: A, handle: H) -> (r: Result<usize, i32>)
where
    A: FnMut() -> i32,
    H: FnMut(i32),
    requires
        accept.requires(()),
        forall|fd: i32| handle.requires((fd,)),
    ensures
        exists|fds: Seq<i32>|
            #[trigger] were_accepted(accept, handle, fds) && accepts_enough(fds) && r
                == accept_outcome(fds),
{
    let mut next = accept;
    let mut take = handle;
    let ghost mut fds: Seq<i32> = Seq::empty();
    let mut accepted: usize = 0;
    while accepted < ACCEPTS_PER_TURN
        invariant
            accepted <= ACCEPTS_PER_TURN,
            next == accept,
            take == handle,
            accept.requires(()),
            forall|fd: i32| handle.requires((fd,)),
            fds.len() == accepted,
            were_accepted(accept, handle, fds),
            forall|i: int| 0 <= i < fds.len() ==> #[trigger] fds[i] >= 0,
        decreases ACCEPTS_PER_TURN - accepted,
    {
        let fd: i32 = next();
        let ghost longer = fds.push(fd);
        if fd < 0 {
            proof {
                assert forall|i: int| 0 <= i < longer.len() implies accept.ensures(
                    (),
                    #[trigger] longer[i],
                ) && (longer[i] >= 0 ==> handle.ensures((longer[i],), ())) by {
                    if i < fds.len() {
                        assert(longer[i] == fds[i]);
                    }
                }
                assert(were_accepted(accept, handle, longer));
            }
            return Err(fd);
        }
        take(fd);
        proof {
            assert forall|i: int| 0 <= i < longer.len() implies accept.ensures(
                (),
                #[trigger] longer[i],
            ) && (longer[i] >= 0 ==> handle.ensures((longer[i],), ())) by {
                if i < fds.len() {
                    assert(longer[i] == fds[i]);
                }
            }
            fds = longer;
        }
        accepted += 1;
    }
    Ok(accepted)
}

/// What to do after a read of reports.
#[derive(Copy, Clone, Debug, PartialEq, Eq, Structural)]
pub enum WatchStep {
    /// Reports were read: something changed.
    Changed,
    /// There is nothing more to read.
    Quiet,
    Failed(i32),
}

pub open spec fn watch_step(read: Result<usize, i32>) -> WatchStep {
    match read {
        Err(errno) => if errno == EAGAIN {
            WatchStep::Quiet
        } else {
            WatchStep::Failed(errno)
        },
        Ok(nread) => if nread == 0 {
            WatchStep::Quiet
        } else if nread as int % FS_WATCH_EVENT_SIZE as int == 0 {
            WatchStep::Changed
        } else {
            WatchStep::Failed(EIO)
        },
    }
}

/// What to do after a read of reports.
pub fn after_watch_read(read: Result<usize, i32>) -> (step: WatchStep)
    ensures
        step == watch_step(read),
{
    match read {
        Err(errno) => if errno == EAGAIN {
            WatchStep::Quiet
        } else {
            WatchStep::Failed(errno)
        },
        Ok(nread) => if nread == 0 {
            WatchStep::Quiet
        } else if nread % FS_WATCH_EVENT_SIZE == 0 {
            WatchStep::Changed
        } else {
            WatchStep::Failed(EIO)
        },
    }
}

/// What reading reports came to, if `reads` is what the reads gave.
pub open spec fn watch_outcome(reads: Seq<Result<usize, i32>>) -> Result<bool, i32> {
    if reads.len() == 0 {
        Ok(false)
    } else {
        match watch_step(reads.last()) {
            WatchStep::Changed => Ok(true),
            WatchStep::Quiet => Ok(reads.len() > 1),
            WatchStep::Failed(errno) => Err(errno),
        }
    }
}

/// Whether reading stopped where it should: after a read that gave no reports,
/// or when enough were read.
pub open spec fn reads_enough(reads: Seq<Result<usize, i32>>) -> bool {
    &&& 0 < reads.len() <= WATCH_READS_PER_TURN
    &&& reads.len() < WATCH_READS_PER_TURN ==> watch_step(reads.last()) != WatchStep::Changed
    &&& forall|i: int|
        0 <= i < reads.len() - 1 ==> watch_step(#[trigger] reads[i]) == WatchStep::Changed
}

/// Whether `read` may give a result, with room for some reports.
pub open spec fn may_read<R: FnMut(&mut [u8]) -> Result<usize, i32>>(
    read: R,
    result: Result<usize, i32>,
) -> bool {
    exists|records: &mut [u8]|
        (*records)@.len() == WATCH_BUFFER_BYTES && #[trigger] read.ensures((records,), result)
}

/// Whether `reads` came of `read`.
pub open spec fn were_read<R: FnMut(&mut [u8]) -> Result<usize, i32>>(
    read: R,
    reads: Seq<Result<usize, i32>>,
) -> bool {
    forall|i: int| 0 <= i < reads.len() ==> may_read(read, #[trigger] reads[i])
}

/// Reads reports of changed files, a few times at most. `read` fills what it is
/// given and says how many bytes it read.
pub fn drain_watch_records_bounded<R>(read: R) -> (r: Result<bool, i32>)
where
    R: FnMut(&mut [u8]) -> Result<usize, i32>,
    requires
        forall|records: &mut [u8]| read.requires((records,)),
    ensures
        exists|reads: Seq<Result<usize, i32>>|
            #[trigger] were_read(read, reads) && reads_enough(reads) && r == watch_outcome(reads),
{
    let mut next = read;
    let ghost mut reads: Seq<Result<usize, i32>> = Seq::empty();
    let mut done: usize = 0;
    let mut changed: bool = false;
    while done < WATCH_READS_PER_TURN
        invariant
            done <= WATCH_READS_PER_TURN,
            next == read,
            forall|records: &mut [u8]| read.requires((records,)),
            reads.len() == done,
            changed == (done > 0),
            were_read(read, reads),
            forall|i: int|
                0 <= i < reads.len() ==> watch_step(#[trigger] reads[i]) == WatchStep::Changed,
        decreases WATCH_READS_PER_TURN - done,
    {
        let mut buffer: [u8; WATCH_BUFFER_BYTES] = [0u8; WATCH_BUFFER_BYTES];
        let result = next(&mut buffer);
        proof {
            assert(may_read(read, result));
            let longer = reads.push(result);
            assert forall|i: int| 0 <= i < longer.len() implies may_read(
                read,
                #[trigger] longer[i],
            ) by {
                if i < reads.len() {
                    assert(longer[i] == reads[i]);
                }
            }
            assert(were_read(read, longer));
            reads = longer;
        }
        match after_watch_read(result) {
            WatchStep::Changed => {
                changed = true;
            },
            WatchStep::Quiet => {
                return Ok(changed);
            },
            WatchStep::Failed(errno) => {
                return Err(errno);
            },
        }
        done += 1;
    }
    Ok(changed)
}

} // verus!
