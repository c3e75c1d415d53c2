//! What a wait status means, and what the shell makes of each answer of
//! `waitpid`. The bits of a wait status are those of Linux.

use vstd::prelude::*;

verus! {

/// `libc::WIFEXITED`: the low seven bits of the status are zero.
pub assume_specification[ libc::WIFEXITED ](status: libc::c_int) -> (r: bool)
    ensures
        r == (status & 0x7f == 0),
;

/// `libc::WEXITSTATUS`: the eight bits above the lowest eight.
pub assume_specification[ libc::WEXITSTATUS ](status: libc::c_int) -> (r: libc::c_int)
    ensures
        r == (status >> 8) & 0xff,
;

/// `libc::WIFSIGNALED`: the low seven bits are neither zero nor all ones.
pub assume_specification[ libc::WIFSIGNALED ](status: libc::c_int) -> (r: bool)
    ensures
        r == (status & 0x7f != 0 && status & 0x7f != 0x7f),
;

/// `libc::WTERMSIG`: the low seven bits.
pub assume_specification[ libc::WTERMSIG ](status: libc::c_int) -> (r: libc::c_int)
    ensures
        r == status & 0x7f,
;

/// `libc::WIFSTOPPED`: the lowest eight bits are 0x7f.
pub assume_specification[ libc::WIFSTOPPED ](status: libc::c_int) -> (r: bool)
    ensures
        r == (status & 0xff == 0x7f),
;

/// `libc::WIFCONTINUED`: the status is 0xffff.
pub assume_specification[ libc::WIFCONTINUED ](status: libc::c_int) -> (r: bool)
    ensures
        r == (status == 0xffff),
;

/// Result of waiting for a foreground child.
#[derive(Debug, Clone, Copy, PartialEq, Eq, Structural)]
pub enum FgOutcome {
    /// The child stopped and was not reaped: it is kept in the job table for a
    /// later `fg` or `bg`.
    Stopped,
    /// The child terminated, with its exit status, or 128 and the signal that
    /// killed it.
    Exited(i32),
}

/// The exit status that a wait status stands for: what the child passed to
/// `exit`, or 128 and the signal that killed it, or 1.
pub open spec fn decoded(status: i32) -> int {
    if status & 0x7f == 0 {
        ((status >> 8) & 0xff) as int
    } else if status & 0x7f != 0x7f {
        128 + (status & 0x7f)
    } else {
        1
    }
}

/// Decodes a wait status.
pub fn exit_status(status: i32) -> (r: i32)
    ensures
        r == decoded(status),
        0 <= r <= 255,
{
    assert(0 <= status & 0x7f <= 0x7f) by (bit_vector);
    assert(0 <= (status >> 8) & 0xff <= 0xff) by (bit_vector);
    if libc::WIFEXITED(status) {
        libc::WEXITSTATUS(status)
    } else if libc::WIFSIGNALED(status) {
        128 + libc::WTERMSIG(status)
    } else {
        1
    }
}

/// What a `waitpid` for `pid` that does not block tells.
pub open spec fn reaped(pid: i32, returned: i32, status: i32) -> Option<i32> {
    if returned == pid {
        Some(decoded(status) as i32)
    } else {
        None
    }
}

/// What a `waitpid` for `pid` that does not block tells: the exit status if it
/// returned `pid`, nothing if the child still runs or is not ours.
pub fn try_reap(pid: i32, returned: i32, status: i32) -> (r: Option<i32>)
    ensures
        r == reaped(pid, returned, status),
        match r {
            Some(code) => returned == pid && code == decoded(status),
            None => returned != pid,
        },
{
    if returned == pid {
        Some(exit_status(status))
    } else {
        None
    }
}

/// What to do after a `waitpid`.
#[derive(Debug, Clone, Copy, PartialEq, Eq, Structural)]
pub enum Waited<T> {
    /// The wait is over.
    Over(T),
    /// Wait again.
    Again,
}

/// What a blocking `waitpid` for `pid` tells.
pub open spec fn blocked(pid: i32, returned: i32, interrupted: bool, status: i32) -> Waited<
    Option<i32>,
> {
    if returned == pid {
        Waited::Over(Some(decoded(status) as i32))
    } else if returned < 0 && !interrupted {
        Waited::Over(None)
    } else {
        Waited::Again
    }
}

/// What a blocking `waitpid` for `pid` tells: the exit status if it returned
/// `pid`, nothing if it failed because there is no such child. A wait that a
/// signal interrupted, and any other answer, is taken up again.
pub fn wait_blocking(pid: i32, returned: i32, interrupted: bool, status: i32) -> (r: Waited<
    Option<i32>,
>)
    ensures
        r == blocked(pid, returned, interrupted, status),
        match r {
            Waited::Over(Some(code)) => returned == pid && code == decoded(status),
            Waited::Over(None) => returned != pid && returned < 0 && !interrupted,
            Waited::Again => returned != pid && (returned >= 0 || interrupted),
        },
{
    if returned == pid {
        Waited::Over(Some(exit_status(status)))
    } else if returned < 0 && !interrupted {
        Waited::Over(None)
    } else {
        Waited::Again
    }
}

/// What a `waitpid` for a foreground child tells.
pub open spec fn foreground(returned: i32, interrupted: bool, status: i32) -> Waited<FgOutcome> {
    if returned < 0 {
        if interrupted {
            Waited::Again
        } else {
            Waited::Over(FgOutcome::Exited(1))
        }
    } else if status & 0xff == 0x7f {
        Waited::Over(FgOutcome::Stopped)
    } else if status == 0xffff {
        Waited::Again
    } else {
        Waited::Over(FgOutcome::Exited(decoded(status) as i32))
    }
}

/// What a `waitpid` for a foreground child tells, one that also reports stops
/// and resumptions: a failure counts as exit status 1, a stop ends the wait
/// with the child alive, and a resumption is waited out, as is the interruption
/// of the wait by a signal.
pub fn wait_foreground(returned: i32, interrupted: bool, status: i32) -> (r: Waited<FgOutcome>)
    ensures
        r == foreground(returned, interrupted, status),
        r == if returned < 0 {
            if interrupted {
                Waited::Again
            } else {
                Waited::Over(FgOutcome::Exited(1))
            }
        } else if status & 0xff == 0x7f {
            Waited::Over(FgOutcome::Stopped)
        } else if status == 0xffff {
            Waited::Again
        } else {
            Waited::Over(FgOutcome::Exited(decoded(status) as i32))
        },
{
    if returned < 0 {
        if interrupted {
            Waited::Again
        } else {
            Waited::Over(FgOutcome::Exited(1))
        }
    } else if libc::WIFSTOPPED(status) {
        Waited::Over(FgOutcome::Stopped)
    } else if libc::WIFCONTINUED(status) {
        Waited::Again
    } else {
        Waited::Over(FgOutcome::Exited(exit_status(status)))
    }
}

/// What a blocking `waitpid` for a stage of a pipeline tells.
pub open spec fn stage(pid: i32, returned: i32, interrupted: bool, status: i32) -> Waited<
    Option<i32>,
> {
    if returned == pid {
        Waited::Over(
            if status & 0x7f == 0 {
                Some(((status >> 8) & 0xff) as i32)
            } else {
                None
            },
        )
    } else if returned < 0 && interrupted {
        Waited::Again
    } else {
        Waited::Over(None)
    }
}

/// What a blocking `waitpid` for a stage of a pipeline tells: the code that it
/// passed to `exit`, nothing if a signal ended it or the wait failed. A wait
/// that a signal interrupted is taken up again.
pub fn wait_stage(pid: i32, returned: i32, interrupted: bool, status: i32) -> (r: Waited<
    Option<i32>,
>)
    ensures
        r == stage(pid, returned, interrupted, status),
        r == if returned == pid {
            Waited::Over(
                if status & 0x7f == 0 {
                    Some(((status >> 8) & 0xff) as i32)
                } else {
                    None
                },
            )
        } else if returned < 0 && interrupted {
            Waited::Again
        } else {
            Waited::Over(None)
        },
{
    if returned == pid {
        if libc::WIFEXITED(status) {
            Waited::Over(Some(libc::WEXITSTATUS(status)))
        } else {
            Waited::Over(None)
        }
    } else if returned < 0 && interrupted {
        Waited::Again
    } else {
        Waited::Over(None)
    }
}

/// The wait status of a child that called `exit(code)` stands for `code`, and
/// that of a child killed by a signal for 128 and the signal.
pub proof fn law_wait_status(code: i32, signal: i32)
    requires
        0 <= code <= 255,
        1 <= signal <= 126,
    ensures
        decoded(code << 8) == code,
        decoded(signal) == 128 + signal,
{
    assert((code << 8) & 0x7f == 0) by (bit_vector)
        requires
            0 <= code <= 255,
    ;
    assert(((code << 8) >> 8) & 0xff == code) by (bit_vector)
        requires
            0 <= code <= 255,
    ;
    assert(signal & 0x7f == signal) by (bit_vector)
        requires
            1 <= signal <= 126,
    ;
}

/// What a wait comes to for a child that called `exit(code)`, for one that a
/// signal killed, and for one that a signal stopped. A stage of a pipeline that
/// a signal killed has no code; a stop ends the wait in the foreground alone.
pub proof fn law_waits_end(pid: i32, code: i32, signal: i32, interrupted: bool)
    requires
        pid > 0,
        0 <= code <= 255,
        1 <= signal <= 126,
    ensures
        reaped(pid, pid, code << 8) == Some(code),
        reaped(pid, pid, signal) == Some((128 + signal) as i32),
        blocked(pid, pid, interrupted, code << 8) == Waited::Over(Some(code)),
        blocked(pid, pid, interrupted, signal) == Waited::Over(Some((128 + signal) as i32)),
        foreground(pid, interrupted, code << 8) == Waited::Over(FgOutcome::Exited(code)),
        foreground(pid, interrupted, signal) == Waited::Over(
            FgOutcome::Exited((128 + signal) as i32),
        ),
        foreground(pid, interrupted, (signal << 8) | 0x7f) == Waited::Over(FgOutcome::Stopped),
        stage(pid, pid, interrupted, code << 8) == Waited::Over(Some(code)),
        stage(pid, pid, interrupted, signal) == Waited::Over(None::<i32>),
{
    law_wait_status(code, signal);
    assert((code << 8) & 0x7f == 0 && ((code << 8) >> 8) & 0xff == code && (code << 8) & 0xff == 0
        && code << 8 != 0xffff) by (bit_vector)
        requires
            0 <= code <= 255,
    ;
    assert(signal & 0x7f == signal && signal & 0xff == signal) by (bit_vector)
        requires
            1 <= signal <= 126,
    ;
    assert(((signal << 8) | 0x7f) & 0xff == 0x7f) by (bit_vector)
        requires
            1 <= signal <= 126,
    ;
}

/// What a wait comes to otherwise. One that a signal interrupted is taken up
/// again; one that fails ends: nothing was collected, and a program in the
/// foreground counts as failed with status 1. A child that goes on is waited
/// for again, and without blocking a child that still runs is left alone.
pub proof fn law_waits_go_on(pid: i32, status: i32, returned: i32, failed: i32)
    requires
        pid > 0,
        failed < 0,
    ensures
        returned != pid ==> reaped(pid, returned, status) is None,
        blocked(pid, failed, true, status) == Waited::<Option<i32>>::Again,
        blocked(pid, failed, false, status) == Waited::Over(None::<i32>),
        blocked(pid, 0, false, status) == Waited::<Option<i32>>::Again,
        foreground(failed, true, status) == Waited::<FgOutcome>::Again,
        foreground(failed, false, status) == Waited::Over(FgOutcome::Exited(1)),
        foreground(pid, false, 0xffff) == Waited::<FgOutcome>::Again,
        stage(pid, failed, true, status) == Waited::<Option<i32>>::Again,
        stage(pid, failed, false, status) == Waited::Over(None::<i32>),
{
    assert(0xffffi32 & 0xff != 0x7f) by (bit_vector);
}

} // verus!
