//! Laws of signals, of `kill` and of the job table.

use crate::arithlaws;
use crate::builtinlaws;
use crate::builtins;
use crate::jobctl::FgOutcome;
use crate::jobs;
use crate::outside;
use crate::outside::{JobsStyle, Signal};
use crate::report;
use crate::state;
use crate::text;
use crate::textlaws;
use crate::wordlaws;
use vstd::prelude::*;

verus! {

// ---------------------------------------------------------------------------
// Signals.
// ---------------------------------------------------------------------------

/// The names of the signals and the numbers that they have on Linux.
pub open spec fn signal_table() -> Seq<(Seq<char>, int)> {
    seq![
        ("HUP"@, 1),
        ("INT"@, 2),
        ("QUIT"@, 3),
        ("KILL"@, 9),
        ("USR1"@, 10),
        ("USR2"@, 12),
        ("PIPE"@, 13),
        ("TERM"@, 15),
        ("CHLD"@, 17),
        ("CONT"@, 18),
        ("STOP"@, 19),
        ("TSTP"@, 20),
        ("TTIN"@, 21),
        ("TTOU"@, 22),
    ]
}

proof fn lemma_names()
    ensures
        "HUP"@ =~= seq!['H', 'U', 'P'],
        "INT"@ =~= seq!['I', 'N', 'T'],
        "QUIT"@ =~= seq!['Q', 'U', 'I', 'T'],
        "KILL"@ =~= seq!['K', 'I', 'L', 'L'],
        "USR1"@ =~= seq!['U', 'S', 'R', '1'],
        "USR2"@ =~= seq!['U', 'S', 'R', '2'],
        "PIPE"@ =~= seq!['P', 'I', 'P', 'E'],
        "TERM"@ =~= seq!['T', 'E', 'R', 'M'],
        "CHLD"@ =~= seq!['C', 'H', 'L', 'D'],
        "CONT"@ =~= seq!['C', 'O', 'N', 'T'],
        "STOP"@ =~= seq!['S', 'T', 'O', 'P'],
        "TSTP"@ =~= seq!['T', 'S', 'T', 'P'],
        "TTIN"@ =~= seq!['T', 'T', 'I', 'N'],
        "TTOU"@ =~= seq!['T', 'T', 'O', 'U'],
{
    reveal_strlit("HUP");
    reveal_strlit("INT");
    reveal_strlit("QUIT");
    reveal_strlit("KILL");
    reveal_strlit("USR1");
    reveal_strlit("USR2");
    reveal_strlit("PIPE");
    reveal_strlit("TERM");
    reveal_strlit("CHLD");
    reveal_strlit("CONT");
    reveal_strlit("STOP");
    reveal_strlit("TSTP");
    reveal_strlit("TTIN");
    reveal_strlit("TTOU");
}

proof fn lemma_called(i: int)
    requires
        0 <= i < signal_table().len(),
    ensures
        ({
            let (name, n) = signal_table()[i];
            &&& jobs::signal_called(name) matches Some(sig) && jobs::number_of_signal(sig) == n
            &&& 3 <= name.len() <= 4
            &&& name.len() == 3 ==> name[0] == 'H' || name[0] == 'I'
            &&& name.len() == 4 ==> name[1] != 'I' || name[2] != 'G'
            &&& name[0] == 'S' ==> name[1] == 'T'
            &&& forall|k: int| 0 <= k < name.len() ==> text::ascii(#[trigger] name[k])
        }),
{
    lemma_names();
    if i == 0 {
        let s = seq!['H', 'U', 'P'];
        assert("HUP"@ == s);
        assert("INT"@[0] != s[0]);
        assert("QUIT"@.len() != s.len());
        assert("KILL"@.len() != s.len());
        assert("USR1"@.len() != s.len());
        assert("USR2"@.len() != s.len());
        assert("PIPE"@.len() != s.len());
        assert("TERM"@.len() != s.len());
        assert("CHLD"@.len() != s.len());
        assert("CONT"@.len() != s.len());
        assert("STOP"@.len() != s.len());
        assert("TSTP"@.len() != s.len());
        assert("TTIN"@.len() != s.len());
        assert("TTOU"@.len() != s.len());
        assert(jobs::signal_called("HUP"@) == Some(Signal::Hup));
    }
    if i == 1 {
        let s = seq!['I', 'N', 'T'];
        assert("INT"@ == s);
        assert("HUP"@[0] != s[0]);
        assert("QUIT"@.len() != s.len());
        assert("KILL"@.len() != s.len());
        assert("USR1"@.len() != s.len());
        assert("USR2"@.len() != s.len());
        assert("PIPE"@.len() != s.len());
        assert("TERM"@.len() != s.len());
        assert("CHLD"@.len() != s.len());
        assert("CONT"@.len() != s.len());
        assert("STOP"@.len() != s.len());
        assert("TSTP"@.len() != s.len());
        assert("TTIN"@.len() != s.len());
        assert("TTOU"@.len() != s.len());
        assert(jobs::signal_called("INT"@) == Some(Signal::Int));
    }
    if i == 2 {
        let s = seq!['Q', 'U', 'I', 'T'];
        assert("QUIT"@ == s);
        assert("HUP"@.len() != s.len());
        assert("INT"@.len() != s.len());
        assert("KILL"@[0] != s[0]);
        assert("USR1"@[0] != s[0]);
        assert("USR2"@[0] != s[0]);
        assert("PIPE"@[0] != s[0]);
        assert("TERM"@[0] != s[0]);
        assert("CHLD"@[0] != s[0]);
        assert("CONT"@[0] != s[0]);
        assert("STOP"@[0] != s[0]);
        assert("TSTP"@[0] != s[0]);
        assert("TTIN"@[0] != s[0]);
        assert("TTOU"@[0] != s[0]);
        assert(jobs::signal_called("QUIT"@) == Some(Signal::Quit));
    }
    if i == 3 {
        let s = seq!['K', 'I', 'L', 'L'];
        assert("KILL"@ == s);
        assert("HUP"@.len() != s.len());
        assert("INT"@.len() != s.len());
        assert("QUIT"@[0] != s[0]);
        assert("USR1"@[0] != s[0]);
        assert("USR2"@[0] != s[0]);
        assert("PIPE"@[0] != s[0]);
        assert("TERM"@[0] != s[0]);
        assert("CHLD"@[0] != s[0]);
        assert("CONT"@[0] != s[0]);
        assert("STOP"@[0] != s[0]);
        assert("TSTP"@[0] != s[0]);
        assert("TTIN"@[0] != s[0]);
        assert("TTOU"@[0] != s[0]);
        assert(jobs::signal_called("KILL"@) == Some(Signal::Kill));
    }
    if i == 4 {
        let s = seq!['U', 'S', 'R', '1'];
        assert("USR1"@ == s);
        assert("HUP"@.len() != s.len());
        assert("INT"@.len() != s.len());
        assert("QUIT"@[0] != s[0]);
        assert("KILL"@[0] != s[0]);
        assert("USR2"@[3] != s[3]);
        assert("PIPE"@[0] != s[0]);
        assert("TERM"@[0] != s[0]);
        assert("CHLD"@[0] != s[0]);
        assert("CONT"@[0] != s[0]);
        assert("STOP"@[0] != s[0]);
        assert("TSTP"@[0] != s[0]);
        assert("TTIN"@[0] != s[0]);
        assert("TTOU"@[0] != s[0]);
        assert(jobs::signal_called("USR1"@) == Some(Signal::Usr1));
    }
    if i == 5 {
        let s = seq!['U', 'S', 'R', '2'];
        assert("USR2"@ == s);
        assert("HUP"@.len() != s.len());
        assert("INT"@.len() != s.len());
        assert("QUIT"@[0] != s[0]);
        assert("KILL"@[0] != s[0]);
        assert("USR1"@[3] != s[3]);
        assert("PIPE"@[0] != s[0]);
        assert("TERM"@[0] != s[0]);
        assert("CHLD"@[0] != s[0]);
        assert("CONT"@[0] != s[0]);
        assert("STOP"@[0] != s[0]);
        assert("TSTP"@[0] != s[0]);
        assert("TTIN"@[0] != s[0]);
        assert("TTOU"@[0] != s[0]);
        assert(jobs::signal_called("USR2"@) == Some(Signal::Usr2));
    }
    if i == 6 {
        let s = seq!['P', 'I', 'P', 'E'];
        assert("PIPE"@ == s);
        assert("HUP"@.len() != s.len());
        assert("INT"@.len() != s.len());
        assert("QUIT"@[0] != s[0]);
        assert("KILL"@[0] != s[0]);
        assert("USR1"@[0] != s[0]);
        assert("USR2"@[0] != s[0]);
        assert("TERM"@[0] != s[0]);
        assert("CHLD"@[0] != s[0]);
        assert("CONT"@[0] != s[0]);
        assert("STOP"@[0] != s[0]);
        assert("TSTP"@[0] != s[0]);
        assert("TTIN"@[0] != s[0]);
        assert("TTOU"@[0] != s[0]);
        assert(jobs::signal_called("PIPE"@) == Some(Signal::Pipe));
    }
    if i == 7 {
        let s = seq!['T', 'E', 'R', 'M'];
        assert("TERM"@ == s);
        assert("HUP"@.len() != s.len());
        assert("INT"@.len() != s.len());
        assert("QUIT"@[0] != s[0]);
        assert("KILL"@[0] != s[0]);
        assert("USR1"@[0] != s[0]);
        assert("USR2"@[0] != s[0]);
        assert("PIPE"@[0] != s[0]);
        assert("CHLD"@[0] != s[0]);
        assert("CONT"@[0] != s[0]);
        assert("STOP"@[0] != s[0]);
        assert("TSTP"@[1] != s[1]);
        assert("TTIN"@[1] != s[1]);
        assert("TTOU"@[1] != s[1]);
        assert(jobs::signal_called("TERM"@) == Some(Signal::Term));
    }
    if i == 8 {
        let s = seq!['C', 'H', 'L', 'D'];
        assert("CHLD"@ == s);
        assert("HUP"@.len() != s.len());
        assert("INT"@.len() != s.len());
        assert("QUIT"@[0] != s[0]);
        assert("KILL"@[0] != s[0]);
        assert("USR1"@[0] != s[0]);
        assert("USR2"@[0] != s[0]);
        assert("PIPE"@[0] != s[0]);
        assert("TERM"@[0] != s[0]);
        assert("CONT"@[1] != s[1]);
        assert("STOP"@[0] != s[0]);
        assert("TSTP"@[0] != s[0]);
        assert("TTIN"@[0] != s[0]);
        assert("TTOU"@[0] != s[0]);
        assert(jobs::signal_called("CHLD"@) == Some(Signal::Chld));
    }
    if i == 9 {
        let s = seq!['C', 'O', 'N', 'T'];
        assert("CONT"@ == s);
        assert("HUP"@.len() != s.len());
        assert("INT"@.len() != s.len());
        assert("QUIT"@[0] != s[0]);
        assert("KILL"@[0] != s[0]);
        assert("USR1"@[0] != s[0]);
        assert("USR2"@[0] != s[0]);
        assert("PIPE"@[0] != s[0]);
        assert("TERM"@[0] != s[0]);
        assert("CHLD"@[1] != s[1]);
        assert("STOP"@[0] != s[0]);
        assert("TSTP"@[0] != s[0]);
        assert("TTIN"@[0] != s[0]);
        assert("TTOU"@[0] != s[0]);
        assert(jobs::signal_called("CONT"@) == Some(Signal::Cont));
    }
    if i == 10 {
        let s = seq!['S', 'T', 'O', 'P'];
        assert("STOP"@ == s);
        assert("HUP"@.len() != s.len());
        assert("INT"@.len() != s.len());
        assert("QUIT"@[0] != s[0]);
        assert("KILL"@[0] != s[0]);
        assert("USR1"@[0] != s[0]);
        assert("USR2"@[0] != s[0]);
        assert("PIPE"@[0] != s[0]);
        assert("TERM"@[0] != s[0]);
        assert("CHLD"@[0] != s[0]);
        assert("CONT"@[0] != s[0]);
        assert("TSTP"@[0] != s[0]);
        assert("TTIN"@[0] != s[0]);
        assert("TTOU"@[0] != s[0]);
        assert(jobs::signal_called("STOP"@) == Some(Signal::Stop));
    }
    if i == 11 {
        let s = seq!['T', 'S', 'T', 'P'];
        assert("TSTP"@ == s);
        assert("HUP"@.len() != s.len());
        assert("INT"@.len() != s.len());
        assert("QUIT"@[0] != s[0]);
        assert("KILL"@[0] != s[0]);
        assert("USR1"@[0] != s[0]);
        assert("USR2"@[0] != s[0]);
        assert("PIPE"@[0] != s[0]);
        assert("TERM"@[1] != s[1]);
        assert("CHLD"@[0] != s[0]);
        assert("CONT"@[0] != s[0]);
        assert("STOP"@[0] != s[0]);
        assert("TTIN"@[1] != s[1]);
        assert("TTOU"@[1] != s[1]);
        assert(jobs::signal_called("TSTP"@) == Some(Signal::Tstp));
    }
    if i == 12 {
        let s = seq!['T', 'T', 'I', 'N'];
        assert("TTIN"@ == s);
        assert("HUP"@.len() != s.len());
        assert("INT"@.len() != s.len());
        assert("QUIT"@[0] != s[0]);
        assert("KILL"@[0] != s[0]);
        assert("USR1"@[0] != s[0]);
        assert("USR2"@[0] != s[0]);
        assert("PIPE"@[0] != s[0]);
        assert("TERM"@[1] != s[1]);
        assert("CHLD"@[0] != s[0]);
        assert("CONT"@[0] != s[0]);
        assert("STOP"@[0] != s[0]);
        assert("TSTP"@[1] != s[1]);
        assert("TTOU"@[2] != s[2]);
        assert(jobs::signal_called("TTIN"@) == Some(Signal::Ttin));
    }
    if i == 13 {
        let s = seq!['T', 'T', 'O', 'U'];
        assert("TTOU"@ == s);
        assert("HUP"@.len() != s.len());
        assert("INT"@.len() != s.len());
        assert("QUIT"@[0] != s[0]);
        assert("KILL"@[0] != s[0]);
        assert("USR1"@[0] != s[0]);
        assert("USR2"@[0] != s[0]);
        assert("PIPE"@[0] != s[0]);
        assert("TERM"@[1] != s[1]);
        assert("CHLD"@[0] != s[0]);
        assert("CONT"@[0] != s[0]);
        assert("STOP"@[0] != s[0]);
        assert("TSTP"@[1] != s[1]);
        assert("TTIN"@[2] != s[2]);
        assert(jobs::signal_called("TTOU"@) == Some(Signal::Ttou));
    }
}

/// Each name of a signal stands for the signal with that number, in either
/// case, with or without `SIG` in front; two different names stand for two
/// different signals.
pub proof fn law_signal_names(i: int, j: int, s: Seq<char>)
    requires
        0 <= i < signal_table().len(),
        0 <= j < signal_table().len(),
        s.map_values(|c: char| jobs::ascii_upper(c)) == signal_table()[i].0,
    ensures
        ({
            let long = "SIG"@ + s;
            let short = jobs::signal_of(
                s,
                jobs::without_sig(s).map_values(|c: char| jobs::ascii_upper(c)),
            );
            let prefixed = jobs::signal_of(
                long,
                jobs::without_sig(long).map_values(|c: char| jobs::ascii_upper(c)),
            );
            &&& short matches Some(sig) && jobs::number_of_signal(sig) == signal_table()[i].1
            &&& prefixed == short
            &&& short == jobs::signal_called(signal_table()[i].0)
        }),
        i != j ==> signal_table()[i].0 != signal_table()[j].0 && jobs::signal_called(
            signal_table()[i].0,
        ) != jobs::signal_called(signal_table()[j].0),
{
    lemma_called(i);
    lemma_called(j);
    let upper = s.map_values(|c: char| jobs::ascii_upper(c));
    let name = signal_table()[i].0;
    assert(s.len() == name.len());
    assert forall|k: int| 0 <= k < s.len() implies jobs::ascii_upper(s[k]) == #[trigger] name[k] by {
        assert(upper[k] == jobs::ascii_upper(s[k]));
    }
    assert(jobs::ascii_upper(s[0]) == name[0]);
    assert(jobs::ascii_upper(s[1]) == name[1]);
    assert(jobs::ascii_upper(s[2]) == name[2]);
    assert(jobs::without_sig(s) == s);
    reveal_strlit("SIG");
    let long = "SIG"@ + s;
    assert(long[0] == 'S' && long[1] == 'I' && long[2] == 'G');
    assert(long.skip(3) =~= s);
    assert(jobs::without_sig(long) == jobs::without_sig(s));
    if i != j {
        lemma_distinct(i, j);
    }
}

proof fn lemma_distinct(i: int, j: int)
    requires
        0 <= i < signal_table().len(),
        0 <= j < signal_table().len(),
        i != j,
    ensures
        signal_table()[i].1 != signal_table()[j].1,
{
}

/// `SIG` in front of a name makes no difference, and nothing else is taken off
/// its front.
pub proof fn law_sig_prefix(s: Seq<char>)
    ensures
        jobs::without_sig("SIG"@ + s) == jobs::without_sig(s),
        !text::begins_with(s, "SIG"@) ==> jobs::without_sig(s) == s,
{
    reveal_strlit("SIG");
    let long = "SIG"@ + s;
    assert(long[0] == 'S' && long[1] == 'I' && long[2] == 'G');
    assert(long.skip(3) =~= s);
    if s.len() >= 3 && s[0] == 'S' && s[1] == 'I' && s[2] == 'G' {
        assert(s.take(3) =~= "SIG"@);
    }
}

/// A text that is no name of a signal, but a number, stands for the signal
/// with that number; anything else stands for none.
pub proof fn law_signal_numbers(s: Seq<char>, upper: Seq<char>, n: i32)
    requires
        jobs::signal_called(upper) is None,
    ensures
        jobs::signal_of(text::decimal_int(n as int), upper) == Some(Signal::Number(n)),
        jobs::number_of_signal(Signal::Number(n)) == n,
        text::parse_int(s, i32::MIN as int, i32::MAX as int) is None ==> jobs::signal_of(
            s,
            upper,
        ) is None,
{
    arithlaws::law_decimal_reads_back(n as int, i32::MIN as int, i32::MAX as int);
}

// ---------------------------------------------------------------------------
// kill.
// ---------------------------------------------------------------------------

/// What `kill` asks for.
pub open spec fn killing(
    args: Seq<Seq<char>>,
    st: state::StateModel,
    signal: Signal,
    targets: Seq<(Seq<char>, Option<i32>)>,
) -> bool {
    builtins::builtin_step(args, st).0.next == outside::NextModel::Ask(
        outside::RequestModel::Kill { signal, targets },
    )
}

/// The targets of `kill`: the operands in order, each with the process that it
/// names.
pub open spec fn aimed(
    operands: Seq<Seq<char>>,
    jobs: Seq<state::RecordModel>,
    targets: Seq<(Seq<char>, Option<i32>)>,
) -> bool {
    &&& targets.len() == operands.len()
    &&& forall|k: int|
        0 <= k < operands.len() ==> (#[trigger] targets[k]).0 == operands[k] && targets[k].1
            == jobs::specified_pid(jobs, operands[k])
}

proof fn lemma_targets(
    args: Seq<Seq<char>>,
    i: int,
    jobs: Seq<state::RecordModel>,
    acc: Seq<(Seq<char>, Option<i32>)>,
)
    requires
        0 <= i <= args.len(),
    ensures
        ({
            let r = jobs::kill_targets(args, i, jobs, acc);
            &&& r.len() == acc.len() + args.len() - i
            &&& forall|k: int| 0 <= k < acc.len() ==> #[trigger] r[k] == acc[k]
            &&& forall|k: int|
                acc.len() <= k < r.len() ==> #[trigger] r[k] == (
                    args[i + k - acc.len()],
                    jobs::specified_pid(jobs, args[i + k - acc.len()]),
                )
        }),
    decreases args.len() - i,
{
    if i < args.len() {
        let more = acc.push((args[i], jobs::specified_pid(jobs, args[i])));
        lemma_targets(args, i + 1, jobs, more);
        let r = jobs::kill_targets(args, i, jobs, acc);
        assert(r == jobs::kill_targets(args, i + 1, jobs, more));
        assert forall|k: int| 0 <= k < acc.len() implies #[trigger] r[k] == acc[k] by {
            assert(more[k] == acc[k]);
        }
        assert forall|k: int| acc.len() <= k < r.len() implies #[trigger] r[k] == (
            args[i + k - acc.len()],
            jobs::specified_pid(jobs, args[i + k - acc.len()]),
        ) by {
            if k == acc.len() {
                assert(r[k] == more[k]);
            }
        }
    }
}

/// `kill` sends to each of its operands, in order, the signal that asks to
/// terminate, or the one that `-NAME` or `-s NAME` in front of them names; a
/// name that stands for no signal counts as the one that asks to terminate.
/// Without operands it is a usage error.
pub proof fn law_kill(
    operands: Seq<Seq<char>>,
    name: Seq<char>,
    st: state::StateModel,
    targets: Seq<(Seq<char>, Option<i32>)>,
)
    requires
        operands.len() > 0,
        operands[0].len() > 0 ==> operands[0][0] != '-',
        name.len() > 0,
        name != "s"@,
        aimed(operands, st.jobs, targets),
    ensures
        ({
            let signal = match jobs::signal_named(name) {
                Some(sig) => sig,
                None => Signal::Term,
            };
            &&& killing(seq!["kill"@] + operands, st, Signal::Term, targets)
            &&& killing(seq!["kill"@, "-"@ + name] + operands, st, signal, targets)
            &&& killing(seq!["kill"@, "-s"@, name] + operands, st, signal, targets)
        }),
        builtins::builtin_step(seq!["kill"@], st).0.next == outside::NextModel::Done(
            outside::BuiltinResult::Status(2),
        ),
{
    builtinlaws::lemma_builtin_names();
    reveal_strlit("-s");
    reveal_strlit("-");
    reveal_strlit("s");
    let a = seq!["kill"@] + operands;
    let b = seq!["kill"@, "-"@ + name] + operands;
    let c = seq!["kill"@, "-s"@, name] + operands;
    assert(a[1] == operands[0]);
    assert(b[1] == "-"@ + name);
    assert((("-"@) + name)[0] == '-');
    assert(("-"@ + name).skip(1) =~= name);
    assert("-s"@[0] == '-');
    assert("-s"@.skip(1) =~= "s"@);
    assert(b[1] != "-s"@);
    assert(a[1] != "-s"@);
    lemma_targets(a, 1, st.jobs, Seq::empty());
    lemma_targets(b, 2, st.jobs, Seq::empty());
    lemma_targets(c, 3, st.jobs, Seq::empty());
    let ra = jobs::kill_targets(a, 1, st.jobs, Seq::empty());
    let rb = jobs::kill_targets(b, 2, st.jobs, Seq::empty());
    let rc = jobs::kill_targets(c, 3, st.jobs, Seq::empty());
    assert(ra =~= targets) by {
        assert forall|k: int| 0 <= k < operands.len() implies ra[k] == targets[k] by {
            assert(a[1 + k] == operands[k]);
        }
    }
    assert(rb =~= targets) by {
        assert forall|k: int| 0 <= k < operands.len() implies rb[k] == targets[k] by {
            assert(b[2 + k] == operands[k]);
        }
    }
    assert(rc =~= targets) by {
        assert forall|k: int| 0 <= k < operands.len() implies rc[k] == targets[k] by {
            assert(c[3 + k] == operands[k]);
        }
    }
}

proof fn lemma_kill_prefix(
    targets: Seq<(Seq<char>, Option<i32>)>,
    t: (Seq<char>, Option<i32>),
    delivered: Seq<bool>,
    ok: bool,
    n: int,
)
    requires
        delivered.len() == targets.len(),
        0 <= n <= targets.len(),
    ensures
        jobs::kill_failures(targets.push(t), n, delivered.push(ok)) == jobs::kill_failures(
            targets,
            n,
            delivered,
        ),
    decreases n,
{
    if n > 0 {
        lemma_kill_prefix(targets, t, delivered, ok, n - 1);
        assert(targets.push(t)[n - 1] == targets[n - 1]);
        assert(delivered.push(ok)[n - 1] == delivered[n - 1]);
    }
}

/// A target of `kill` adds a diagnostic that names it exactly if it names no
/// process or the signal did not get there; `kill` fails exactly if there is a
/// diagnostic.
pub proof fn law_kill_failures(
    targets: Seq<(Seq<char>, Option<i32>)>,
    t: (Seq<char>, Option<i32>),
    delivered: Seq<bool>,
    ok: bool,
)
    requires
        delivered.len() == targets.len(),
    ensures
        ({
            let before = jobs::kill_end(targets, delivered);
            let after = jobs::kill_end(targets.push(t), delivered.push(ok));
            &&& jobs::kill_end(Seq::empty(), Seq::empty()) == outside::ended(Seq::empty(), 0)
            &&& t.1 is Some && ok ==> after == before
            &&& !(t.1 is Some && ok) ==> {
                &&& after.next == outside::NextModel::Done(outside::BuiltinResult::Status(1))
                &&& after.lines.len() == before.lines.len() + 1
                &&& after.lines.drop_last() == before.lines
                &&& after.lines.last().error
                &&& after.lines.last().text == "kill: "@ + t.0 + ": no such process or job"@
                    + seq!['\n']
            }
        }),
{
    let n = targets.len() as int;
    lemma_kill_prefix(targets, t, delivered, ok, n);
    let before = jobs::kill_end(targets, delivered);
    let after = jobs::kill_end(targets.push(t), delivered.push(ok));
    if !(t.1 is Some && ok) {
        assert(after.lines.drop_last() =~= before.lines);
        let m = "kill: "@ + t.0 + ": no such process or job"@;
        assert(m.push('\n') =~= m + seq!['\n']);
    }
}

// ---------------------------------------------------------------------------
// fg, bg, wait, disown.
// ---------------------------------------------------------------------------

/// `fg` writes the command of the job that it names and asks for its process
/// to be resumed; a job that exits then leaves the table, and only that one,
/// and its status is that of `fg`; one that stops again stays, as a stopped
/// job, and `fg` succeeds. Where no job is named `fg` fails.
pub proof fn law_fg(args: Seq<Seq<char>>, i: int, code: i32, k: int, st: state::StateModel)
    requires
        args.len() > 0,
        args[0] == "fg"@,
        0 <= i < st.jobs.len(),
    ensures
        ({
            let named = jobs::specified(
                st.jobs,
                if args.len() > 1 {
                    Some(args[1])
                } else {
                    None
                },
            );
            let (step, same) = builtins::builtin_step(args, st);
            &&& same == st
            &&& named == Some(i) ==> {
                &&& step.lines.len() == 1
                &&& !step.lines[0].error
                &&& step.lines[0].text == st.jobs[i].command + seq!['\n']
                &&& step.next == outside::NextModel::Ask(
                    outside::RequestModel::Foreground { index: i, pid: st.jobs[i].pid },
                )
            }
            &&& named is None ==> builtinlaws::wrote(step, true, "fg: no such job"@, 1)
        }),
        ({
            let asked = outside::RequestModel::Foreground { index: i, pid: st.jobs[i].pid };
            let (step, done) = builtins::builtin_end(
                asked,
                outside::ReplyModel::Foreground(FgOutcome::Exited(code)),
                st,
            );
            &&& builtinlaws::quiet(step, code)
            &&& done.jobs.len() == st.jobs.len() - 1
            &&& 0 <= k < i ==> done.jobs[k] == st.jobs[k]
            &&& i <= k < done.jobs.len() ==> done.jobs[k] == st.jobs[k + 1]
        }),
        ({
            let asked = outside::RequestModel::Foreground { index: i, pid: st.jobs[i].pid };
            let (step, done) = builtins::builtin_end(
                asked,
                outside::ReplyModel::Foreground(FgOutcome::Stopped),
                st,
            );
            &&& builtinlaws::quiet(step, 0)
            &&& done.jobs.len() == st.jobs.len()
            &&& done.jobs[i].stopped
            &&& done.jobs[i].pid == st.jobs[i].pid
            &&& done.jobs[i].id == st.jobs[i].id
            &&& done.jobs[i].command == st.jobs[i].command
            &&& 0 <= k < st.jobs.len() && k != i ==> done.jobs[k] == st.jobs[k]
        }),
{
    builtinlaws::lemma_builtin_names();
    let m = st.jobs[i].command;
    assert(m.push('\n') =~= m + seq!['\n']);
    let n = "fg: no such job"@;
    assert(n.push('\n') =~= n + seq!['\n']);
}

/// `bg` announces the job that it names, asks for its process to be resumed,
/// and takes it for running from then on; the other jobs stay as they are.
/// Where no job is named it fails.
pub proof fn law_bg(args: Seq<Seq<char>>, i: int, k: int, st: state::StateModel)
    requires
        args.len() > 0,
        args[0] == "bg"@,
        0 <= i < st.jobs.len(),
    ensures
        ({
            let named = jobs::specified(
                st.jobs,
                if args.len() > 1 {
                    Some(args[1])
                } else {
                    None
                },
            );
            let (step, done) = builtins::builtin_step(args, st);
            &&& named == Some(i) ==> {
                &&& step.lines.len() == 1
                &&& !step.lines[0].error
                &&& step.lines[0].text == "["@ + text::decimal(st.jobs[i].id as nat) + "] "@
                    + st.jobs[i].command + " &"@ + seq!['\n']
                &&& step.next == outside::NextModel::Ask(
                    outside::RequestModel::Continue { pid: st.jobs[i].pid },
                )
                &&& done.jobs.len() == st.jobs.len()
                &&& !done.jobs[i].stopped
                &&& done.jobs[i].pid == st.jobs[i].pid
                &&& done.jobs[i].id == st.jobs[i].id
                &&& done.jobs[i].command == st.jobs[i].command
                &&& 0 <= k < st.jobs.len() && k != i ==> done.jobs[k] == st.jobs[k]
            }
            &&& named is None ==> builtinlaws::wrote(step, true, "bg: no such job"@, 1) && done == st
        }),
        builtins::builtin_end(
            outside::RequestModel::Continue { pid: st.jobs[i].pid },
            outside::ReplyModel::Resumed,
            st,
        ) == (outside::ended(Seq::empty(), 0), st),
{
    builtinlaws::lemma_builtin_names();
    let m = "["@ + text::decimal(st.jobs[i].id as nat) + "] "@ + st.jobs[i].command + " &"@;
    assert(m.push('\n') =~= m + seq!['\n']);
    let n = "bg: no such job"@;
    assert(n.push('\n') =~= n + seq!['\n']);
}

proof fn lemma_wait_pids(
    args: Seq<Seq<char>>,
    i: int,
    jobs: Seq<state::RecordModel>,
    acc: Seq<i32>,
)
    requires
        0 <= i <= args.len(),
    ensures
        match jobs::wait_pids(args, i, jobs, acc) {
            Ok(pids) => {
                &&& pids.len() == acc.len() + args.len() - i
                &&& forall|k: int| 0 <= k < acc.len() ==> #[trigger] pids[k] == acc[k]
                &&& forall|k: int|
                    i <= k < args.len() ==> jobs::specified_pid(jobs, #[trigger] args[k]) == Some(
                        pids[acc.len() + k - i],
                    )
            },
            Err(word) => exists|k: int|
                {
                    &&& i <= k < args.len()
                    &&& word == #[trigger] args[k]
                    &&& jobs::specified_pid(jobs, args[k]) is None
                    &&& forall|j: int|
                        i <= j < k ==> jobs::specified_pid(jobs, #[trigger] args[j]) is Some
                },
        },
    decreases args.len() - i,
{
    if i < args.len() {
        match jobs::specified_pid(jobs, args[i]) {
            Some(pid) => {
                lemma_wait_pids(args, i + 1, jobs, acc.push(pid));
                let r = jobs::wait_pids(args, i, jobs, acc);
                assert(r == jobs::wait_pids(args, i + 1, jobs, acc.push(pid)));
                match r {
                    Ok(pids) => {
                        assert(pids[acc.len() as int] == acc.push(pid)[acc.len() as int]);
                        assert forall|k: int| 0 <= k < acc.len() implies #[trigger] pids[k]
                            == acc[k] by {
                            assert(pids[k] == acc.push(pid)[k]);
                        }
                    },
                    Err(word) => {
                        let k = choose|k: int|
                            {
                                &&& i + 1 <= k < args.len()
                                &&& word == #[trigger] args[k]
                                &&& jobs::specified_pid(jobs, args[k]) is None
                                &&& forall|j: int|
                                    i + 1 <= j < k ==> jobs::specified_pid(
                                        jobs,
                                        #[trigger] args[j],
                                    ) is Some
                            };
                        assert(word == args[k]);
                    },
                }
            },
            None => {
                assert(jobs::wait_pids(args, i, jobs, acc) == Err::<Seq<i32>, Seq<char>>(args[i]));
            },
        }
    }
}

/// `wait` waits for all jobs in order, or for the processes that its operands
/// name, each of them and in order; the first operand that names none ends it
/// with status 127 and a diagnostic.
pub proof fn law_wait(operands: Seq<Seq<char>>, st: state::StateModel)
    ensures
        ({
            let (step, done) = builtins::builtin_step(seq!["wait"@] + operands, st);
            &&& done == st
            &&& match step.next {
                outside::NextModel::Ask(outside::RequestModel::Wait { pids }) => {
                    &&& step.lines.len() == 0
                    &&& operands.len() == 0 ==> pids.len() == st.jobs.len() && forall|k: int|
                        0 <= k < pids.len() ==> #[trigger] pids[k] == st.jobs[k].pid
                    &&& operands.len() > 0 ==> pids.len() == operands.len() && forall|k: int|
                        0 <= k < operands.len() ==> jobs::specified_pid(
                            st.jobs,
                            #[trigger] operands[k],
                        ) == Some(pids[k])
                },
                outside::NextModel::Done(outside::BuiltinResult::Status(status)) => {
                    &&& status == 127
                    &&& exists|k: int|
                        {
                            &&& 0 <= k < operands.len()
                            &&& jobs::specified_pid(st.jobs, #[trigger] operands[k]) is None
                            &&& builtinlaws::wrote(
                                step,
                                true,
                                "wait: "@ + operands[k] + ": no such job"@,
                                127,
                            )
                        }
                },
                _ => false,
            }
        }),
{
    builtinlaws::lemma_builtin_names();
    let args = seq!["wait"@] + operands;
    lemma_wait_pids(args, 1, st.jobs, Seq::empty());
    assert forall|k: int| 0 <= k < operands.len() implies args[k + 1] == #[trigger] operands[k] by {}
    match jobs::wait_pids(args, 1, st.jobs, Seq::empty()) {
        Ok(pids) => {
            assert forall|k: int| 0 <= k < operands.len() implies jobs::specified_pid(
                st.jobs,
                #[trigger] operands[k],
            ) == Some(pids[k]) by {
                assert(args[k + 1] == operands[k]);
            }
        },
        Err(word) => {
            let k = choose|k: int|
                1 <= k < args.len() && word == #[trigger] args[k] && jobs::specified_pid(
                    st.jobs,
                    args[k],
                ) is None;
            assert(word == operands[k - 1]);
            let m = "wait: "@ + word + ": no such job"@;
            assert(m.push('\n') =~= m + seq!['\n']);
        },
    }
}

proof fn lemma_last_collected(statuses: Seq<Option<i32>>, s: Option<i32>, n: int, status: i32)
    requires
        0 <= n <= statuses.len(),
    ensures
        jobs::last_collected(statuses.push(s), n, status) == jobs::last_collected(
            statuses,
            n,
            status,
        ),
    decreases n,
{
    if n > 0 {
        lemma_last_collected(statuses, s, n - 1, status);
        assert(statuses.push(s)[n - 1] == statuses[n - 1]);
    }
}

/// The jobs without some processes are exactly the others, in the order in
/// which they were.
pub proof fn law_dropped_jobs(jobs: Seq<state::RecordModel>, pids: Seq<i32>, j: state::RecordModel)
    ensures
        jobs::without_pids(jobs, pids).contains(j) <==> jobs.contains(j) && !pids.contains(j.pid),
        jobs::without_pids(jobs.push(j), pids) == if pids.contains(j.pid) {
            jobs::without_pids(jobs, pids)
        } else {
            jobs::without_pids(jobs, pids).push(j)
        },
    decreases jobs.len(),
{
    reveal(Seq::filter);
    assert(jobs.push(j).drop_last() =~= jobs);
    let kept = jobs::without_pids(jobs, pids);
    if jobs.len() > 0 {
        let shorter = jobs.drop_last();
        let last = jobs.last();
        law_dropped_jobs(shorter, pids, j);
        let before = jobs::without_pids(shorter, pids);
        assert(jobs.contains(j) <==> shorter.contains(j) || last == j) by {
            if jobs.contains(j) {
                let k = choose|k: int| 0 <= k < jobs.len() && jobs[k] == j;
                if k < shorter.len() {
                    assert(shorter[k] == j);
                }
            }
            if shorter.contains(j) {
                let k = choose|k: int| 0 <= k < shorter.len() && shorter[k] == j;
                assert(jobs[k] == j);
            }
            assert(jobs[jobs.len() - 1] == last);
        }
        let more = before.push(last);
        assert(more.contains(j) <==> before.contains(j) || last == j) by {
            if more.contains(j) {
                let k = choose|k: int| 0 <= k < more.len() && more[k] == j;
                if k < before.len() {
                    assert(before[k] == j);
                }
            }
            if before.contains(j) {
                let k = choose|k: int| 0 <= k < before.len() && before[k] == j;
                assert(more[k] == j);
            }
            assert(more[before.len() as int] == last);
        }
    }
}

/// When `wait` is over, its status is the last one that was collected, or that
/// of the last command where none was; the jobs waited for have left the table
/// and the others are still in it.
pub proof fn law_wait_ends(
    pids: Seq<i32>,
    statuses: Seq<Option<i32>>,
    code: i32,
    j: state::RecordModel,
    st: state::StateModel,
)
    ensures
        ({
            let asked = outside::RequestModel::Wait { pids };
            let end = |s: Seq<Option<i32>>|
                builtins::builtin_end(asked, outside::ReplyModel::Statuses(s), st);
            &&& builtinlaws::quiet(end(Seq::empty()).0, st.last_status)
            &&& builtinlaws::quiet(end(statuses.push(Some(code))).0, code)
            &&& end(statuses.push(None)).0 == end(statuses).0
            &&& end(statuses).1.jobs.contains(j) <==> st.jobs.contains(j) && !pids.contains(j.pid)
        }),
{
    lemma_last_collected(statuses, Some(code), statuses.len() as int, st.last_status);
    lemma_last_collected(statuses, None, statuses.len() as int, st.last_status);
    law_dropped_jobs(st.jobs, pids, j);
}

/// `disown` forgets the most recent job, or the one that its operand names, and
/// no other; an operand that names none is passed over. It never fails.
pub proof fn law_disown(spec_text: Seq<char>, j: state::RecordModel, st: state::StateModel)
    requires
        spec_text.len() > 0 ==> spec_text[0] != '-',
    ensures
        ({
            let (step, done) = builtins::builtin_step(seq!["disown"@], st);
            &&& builtinlaws::quiet(step, 0)
            &&& done.jobs.contains(j) <==> st.jobs.contains(j) && j.pid != st.jobs.last().pid
        }),
        ({
            let (step, done) = builtins::builtin_step(seq!["disown"@, spec_text], st);
            &&& builtinlaws::quiet(step, 0)
            &&& done.jobs.contains(j) <==> st.jobs.contains(j) && jobs::specified_pid(
                st.jobs,
                spec_text,
            ) != Some(j.pid)
        }),
{
    builtinlaws::lemma_builtin_names();
    let none = Seq::<i32>::empty();
    reveal_with_fuel(jobs::disown_pids, 2);
    let args = seq!["disown"@, spec_text];
    law_dropped_jobs(st.jobs, jobs::disowned(seq!["disown"@], st.jobs), j);
    law_dropped_jobs(st.jobs, jobs::disowned(args, st.jobs), j);
    assert(jobs::disowned(args, st.jobs) == match jobs::specified_pid(st.jobs, spec_text) {
        Some(pid) => none.push(pid),
        None => none,
    });
    if st.jobs.len() > 0 {
        let one = seq![st.jobs.last().pid];
        assert(one.contains(j.pid) <==> j.pid == st.jobs.last().pid) by {
            assert(one[0] == st.jobs.last().pid);
        }
    }
    if jobs::specified_pid(st.jobs, spec_text) is Some {
        let pid = jobs::specified_pid(st.jobs, spec_text).unwrap();
        assert(none.push(pid).contains(j.pid) <==> j.pid == pid) by {
            assert(none.push(pid)[0] == pid);
        }
    }
}

/// A specifier that begins with `%` names the process of a job; any other is
/// the process id itself.
pub proof fn law_process_ids(jobs: Seq<state::RecordModel>, n: i32, s: Seq<char>)
    ensures
        jobs::specified_pid(jobs, text::decimal_int(n as int)) == Some(n),
        s.len() > 0 && s[0] == '%' ==> match jobs::specified(jobs, Some(s)) {
            Some(i) => jobs::specified_pid(jobs, s) == Some(jobs[i].pid),
            None => jobs::specified_pid(jobs, s) is None,
        },
{
    arithlaws::law_decimal_reads_back(n as int, i32::MIN as int, i32::MAX as int);
    let d = text::decimal_int(n as int);
    if n < 0 {
        assert(d[0] == '-');
    } else {
        arithlaws::law_decimal(n as nat);
        assert(text::ascii_digit(d[0]));
    }
}

proof fn lemma_found_pid(jobs: Seq<state::RecordModel>, from: int, i: int)
    requires
        0 <= from <= i < jobs.len(),
        forall|k: int| 0 <= k < i ==> (#[trigger] jobs[k]).pid != jobs[i].pid,
    ensures
        jobs::pid_from(jobs, from, jobs[i].pid) == Some(i),
    decreases i - from,
{
    if from < i {
        assert(jobs[from].pid != jobs[i].pid);
        lemma_found_pid(jobs, from + 1, i);
    }
}

/// A job answers to its process id as well, unless that is the id of a job.
pub proof fn law_jobs_by_process(jobs: Seq<state::RecordModel>, i: int)
    requires
        0 <= i < jobs.len(),
        jobs[i].pid >= 0,
        forall|k: int| 0 <= k < i ==> (#[trigger] jobs[k]).pid != jobs[i].pid,
        forall|k: int| 0 <= k < jobs.len() ==> (#[trigger] jobs[k]).id != jobs[i].pid,
    ensures
        jobs::specified(jobs, Some(text::decimal(jobs[i].pid as nat))) == Some(i),
        jobs::specified(jobs, Some("%"@ + text::decimal(jobs[i].pid as nat))) == Some(i),
{
    let pid = jobs[i].pid;
    let d = text::decimal(pid as nat);
    let s = "%"@ + d;
    arithlaws::law_decimal(pid as nat);
    arithlaws::law_decimal_reads_back(pid as int, 0, usize::MAX as int);
    lemma_found_pid(jobs, 0, i);
    jobs::lemma_id_from(jobs, 0, pid as int);
    reveal_strlit("%");
    reveal_strlit("+");
    reveal_strlit("-");
    assert(text::ascii_digit(d[0]) && text::ascii_digit(d.last()));
    assert(s[0] == '%' && s.last() == d.last());
    text::lemma_untrimmed(s);
    text::lemma_untrimmed(d);
    assert(s.skip(1) =~= d);
    assert(d[0] != "+"@[0] && d[0] != "%"@[0] && d[0] != "-"@[0]);
}

// ---------------------------------------------------------------------------
// jobs, and reaping before a prompt.
// ---------------------------------------------------------------------------

proof fn lemma_style_push(args: Seq<Seq<char>>, x: Seq<char>, i: int, style: JobsStyle)
    requires
        0 <= i <= args.len(),
    ensures
        jobs::style_from(args.push(x), i, style) == if x == "-l"@ {
            JobsStyle::Long
        } else if x == "-p"@ {
            JobsStyle::Pids
        } else {
            jobs::style_from(args, i, style)
        },
    decreases args.len() - i,
{
    let more = args.push(x);
    reveal_with_fuel(jobs::style_from, 2);
    if i < args.len() {
        assert(more[i] == args[i]);
        if args[i] == "-l"@ {
            lemma_style_push(args, x, i + 1, JobsStyle::Long);
        } else if args[i] == "-p"@ {
            lemma_style_push(args, x, i + 1, JobsStyle::Pids);
        } else {
            lemma_style_push(args, x, i + 1, style);
        }
    } else {
        assert(more[i] == x);
    }
}

/// `jobs` asks which processes have finished, for all jobs in order. Of the
/// flags `-l` and `-p` the last one counts; other operands do not matter.
pub proof fn law_jobs_flags(args: Seq<Seq<char>>, x: Seq<char>, k: int, st: state::StateModel)
    requires
        args.len() > 0,
        args[0] == "jobs"@,
    ensures
        ({
            let style = |a: Seq<Seq<char>>|
                match builtins::builtin_step(a, st).0.next {
                    outside::NextModel::Ask(
                        outside::RequestModel::Reap { pids, style },
                    ) => if pids.len() == st.jobs.len() && (0 <= k < pids.len() ==> pids[k]
                        == st.jobs[k].pid) {
                        Some(style)
                    } else {
                        None
                    },
                    _ => None,
                };
            &&& style(seq!["jobs"@]) == Some(JobsStyle::Plain)
            &&& style(args) is Some
            &&& x == "-l"@ ==> style(args.push(x)) == Some(JobsStyle::Long)
            &&& x == "-p"@ ==> style(args.push(x)) == Some(JobsStyle::Pids)
            &&& x != "-l"@ && x != "-p"@ ==> style(args.push(x)) == style(args)
        }),
{
    builtinlaws::lemma_builtin_names();
    lemma_style_push(args, x, 1, JobsStyle::Plain);
    reveal_strlit("-l");
    reveal_strlit("-p");
    assert("-l"@[1] != "-p"@[1]);
    assert(args.push(x)[0] == "jobs"@);
    assert(jobs::style_from(seq!["jobs"@], 1, JobsStyle::Plain) == JobsStyle::Plain);
}

/// What a job is doing, as `jobs` tells it.
pub open spec fn doing(done: bool, stopped: bool) -> Seq<char> {
    if done {
        seq!['D', 'o', 'n', 'e', ' ', ' ', ' ', ' ']
    } else if stopped {
        seq!['S', 't', 'o', 'p', 'p', 'e', 'd', ' ']
    } else {
        seq!['R', 'u', 'n', 'n', 'i', 'n', 'g', ' ']
    }
}

/// The number of a job in brackets, in two columns at least.
pub open spec fn bracketed(id: nat) -> Seq<char> {
    seq!['['] + (if id < 10 {
        seq![' ']
    } else {
        Seq::empty()
    }) + text::decimal(id) + seq![']']
}

/// A line of `jobs`: the job number, or with `-l` the job number and the
/// process id, or with `-p` the process id; then what the job is doing, and its
/// command.
pub proof fn law_job_lines(j: state::RecordModel, done: bool)
    ensures
        ({
            let pid = text::decimal_int(j.pid as int);
            let end = seq![' '] + doing(done, j.stopped) + seq![' '] + j.command;
            &&& jobs::job_line(j, done, JobsStyle::Plain) == bracketed(j.id as nat) + end
            &&& jobs::job_line(j, done, JobsStyle::Long) == bracketed(j.id as nat) + seq![' '] + pid
                + end
            &&& jobs::job_line(j, done, JobsStyle::Pids) == pid + end
        }),
{
    reveal_strlit("[");
    reveal_strlit("]");
    reveal_strlit("] ");
    reveal_strlit(" ");
    reveal_strlit("Done    ");
    reveal_strlit("Stopped ");
    reveal_strlit("Running ");
    assert(jobs::job_marker(done, j.stopped) =~= doing(done, j.stopped));
    let pid = text::decimal_int(j.pid as int);
    let end = seq![' '] + doing(done, j.stopped) + seq![' '] + j.command;
    assert(jobs::job_line(j, done, JobsStyle::Plain) =~= bracketed(j.id as nat) + end);
    assert(jobs::job_line(j, done, JobsStyle::Long) =~= bracketed(j.id as nat) + seq![' '] + pid
        + end);
    assert(jobs::job_line(j, done, JobsStyle::Pids) =~= pid + end);
}

proof fn lemma_listing(
    all: Seq<state::RecordModel>,
    n: int,
    statuses: Seq<Option<i32>>,
    style: JobsStyle,
)
    requires
        0 <= n <= all.len(),
    ensures
        jobs::listing(all, n, statuses, style).len() == n,
        forall|k: int|
            0 <= k < n ==> #[trigger] jobs::listing(all, n, statuses, style)[k] == report::said(
                jobs::job_line(all[k], jobs::collected(statuses, k) is Some, style),
            ),
    decreases n,
{
    if n > 0 {
        lemma_listing(all, n - 1, statuses, style);
        let lines = jobs::listing(all, n, statuses, style);
        assert forall|k: int| 0 <= k < n implies #[trigger] lines[k] == report::said(
            jobs::job_line(all[k], jobs::collected(statuses, k) is Some, style),
        ) by {
            if k < n - 1 {
                assert(lines[k] == jobs::listing(all, n - 1, statuses, style)[k]);
            }
        }
    }
}

proof fn lemma_unfinished_prefix(
    all: Seq<state::RecordModel>,
    j: state::RecordModel,
    statuses: Seq<Option<i32>>,
    s: Option<i32>,
    n: int,
)
    requires
        0 <= n <= all.len(),
        statuses.len() == all.len(),
    ensures
        jobs::unfinished(all.push(j), n, statuses.push(s)) == jobs::unfinished(all, n, statuses),
    decreases n,
{
    if n > 0 {
        lemma_unfinished_prefix(all, j, statuses, s, n - 1);
        assert(all.push(j)[n - 1] == all[n - 1]);
        assert(statuses.push(s)[n - 1] == statuses[n - 1]);
    }
}

/// `jobs` writes one line for every job, in order, those that have finished as
/// done, and succeeds. Then exactly those leave the table.
pub proof fn law_jobs_listing(
    st: state::StateModel,
    style: JobsStyle,
    statuses: Seq<Option<i32>>,
    pids: Seq<i32>,
    k: int,
    j: state::RecordModel,
    s: Option<i32>,
)
    requires
        statuses.len() == st.jobs.len(),
    ensures
        ({
            let asked = outside::RequestModel::Reap { pids, style };
            let (step, done) = builtins::builtin_end(
                asked,
                outside::ReplyModel::Statuses(statuses),
                st,
            );
            let more = builtins::builtin_end(
                asked,
                outside::ReplyModel::Statuses(statuses.push(s)),
                state::StateModel { jobs: st.jobs.push(j), ..st },
            ).1;
            &&& step.next == outside::NextModel::Done(outside::BuiltinResult::Status(0))
            &&& step.lines.len() == st.jobs.len()
            &&& 0 <= k < st.jobs.len() ==> !step.lines[k].error && step.lines[k].text
                == jobs::job_line(st.jobs[k], statuses[k] is Some, style) + seq!['\n']
            &&& st.jobs.len() == 0 ==> done.jobs.len() == 0
            &&& more.jobs == if s is Some {
                done.jobs
            } else {
                done.jobs.push(j)
            }
        }),
{
    let n = st.jobs.len() as int;
    lemma_listing(st.jobs, n, statuses, style);
    lemma_unfinished_prefix(st.jobs, j, statuses, s, n);
    if 0 <= k < n {
        let t = jobs::job_line(st.jobs[k], statuses[k] is Some, style);
        assert(t.push('\n') =~= t + seq!['\n']);
    }
}

proof fn lemma_running_prefix(all: Seq<state::RecordModel>, j: state::RecordModel, n: int)
    requires
        0 <= n <= all.len(),
    ensures
        jobs::running(all.push(j), n) == jobs::running(all, n),
        jobs::running_pids(all.push(j), n) == jobs::running_pids(all, n),
        0 <= jobs::running(all, n),
        jobs::running(all, n) == jobs::running_pids(all, n).len(),
    decreases n,
{
    if n > 0 {
        lemma_running_prefix(all, j, n - 1);
        assert(all.push(j)[n - 1] == all[n - 1]);
    }
}

proof fn lemma_running_grows(all: Seq<state::RecordModel>, m: int, n: int)
    requires
        0 <= m <= n <= all.len(),
    ensures
        jobs::running(all, m) <= jobs::running(all, n),
    decreases n - m,
{
    if m < n {
        lemma_running_grows(all, m, n - 1);
    }
}

proof fn lemma_reaped_prefix(
    all: Seq<state::RecordModel>,
    j: state::RecordModel,
    statuses: Seq<Option<i32>>,
    more: Seq<Option<i32>>,
    n: int,
)
    requires
        0 <= n <= all.len(),
        statuses.len() == jobs::running(all, all.len() as int),
        more == statuses || exists|s: Option<i32>| more == #[trigger] statuses.push(s),
    ensures
        jobs::unreaped(all.push(j), n, more) == jobs::unreaped(all, n, statuses),
        jobs::announcements(all.push(j), n, more) == jobs::announcements(all, n, statuses),
    decreases n,
{
    if n > 0 {
        lemma_reaped_prefix(all, j, statuses, more, n - 1);
        lemma_running_prefix(all, j, n - 1);
        lemma_running_grows(all, n, all.len() as int);
        assert(all.push(j)[n - 1] == all[n - 1]);
        let at = jobs::running(all, n - 1);
        if !all[n - 1].stopped {
            assert(at < statuses.len());
            assert(more[at] == statuses[at]);
        }
        assert(jobs::reaped(all.push(j), n - 1, more) == jobs::reaped(all, n - 1, statuses));
    }
}

/// Before a prompt the running jobs are looked after and the stopped ones are
/// left alone. A job that has finished is announced and leaves the table, one
/// that has not stays; the jobs before it are treated as if it were not there.
pub proof fn law_reaping(
    all: Seq<state::RecordModel>,
    j: state::RecordModel,
    statuses: Seq<Option<i32>>,
    s: Option<i32>,
)
    requires
        statuses.len() == jobs::running_pids(all, all.len() as int).len(),
    ensures
        ({
            let n = all.len() as int;
            let more = all.push(j);
            let kept = jobs::unreaped(all, n, statuses);
            let told = jobs::announcements(all, n, statuses);
            let replies = if j.stopped {
                statuses
            } else {
                statuses.push(s)
            };
            let kept_now = jobs::unreaped(more, n + 1, replies);
            let told_now = jobs::announcements(more, n + 1, replies);
            &&& jobs::running_pids(more, n + 1) == if j.stopped {
                jobs::running_pids(all, n)
            } else {
                jobs::running_pids(all, n).push(j.pid)
            }
            &&& j.stopped || s is None ==> kept_now == kept.push(j) && told_now == told
            &&& !j.stopped && s is Some ==> {
                &&& kept_now == kept
                &&& told_now.len() == told.len() + 1
                &&& told_now.drop_last() == told
                &&& told_now.last().error
                &&& told_now.last().text == if s == Some(0i32) {
                    "["@ + text::decimal(j.id as nat) + "]  Done  "@ + j.command + seq!['\n']
                } else {
                    "["@ + text::decimal(j.id as nat) + "]  Exit "@ + text::decimal_int(
                        s.unwrap() as int,
                    ) + "  "@ + j.command + seq!['\n']
                }
            }
            &&& all.len() == 0 ==> kept.len() == 0 && told.len() == 0
        }),
{
    let n = all.len() as int;
    let more = all.push(j);
    lemma_running_prefix(all, j, n);
    let replies = if j.stopped {
        statuses
    } else {
        statuses.push(s)
    };
    lemma_reaped_prefix(all, j, statuses, replies, n);
    assert(more[n] == j);
    let told = jobs::announcements(all, n, statuses);
    let told_now = jobs::announcements(more, n + 1, replies);
    if !j.stopped {
        assert(replies[statuses.len() as int] == s);
        if s is Some {
            assert(told_now.drop_last() =~= told);
            let a = jobs::announcement(j, s.unwrap());
            assert(a.push('\n') =~= a + seq!['\n']);
        }
    }
}

/// `%` alone is the most recent job. A specifier that is neither one of the
/// signs nor a number names no job, and neither does a number that no job has.
pub proof fn law_other_specifiers(jobs: Seq<state::RecordModel>, s: Seq<char>, n: nat)
    requires
        n <= usize::MAX,
        forall|k: int| 0 <= k < jobs.len() ==> (#[trigger] jobs[k]).id != n && jobs[k].pid != n,
        s.len() > 1,
        wordlaws::spaceless(s),
        !('0' <= s[1] && s[1] <= '9'),
    ensures
        jobs.len() > 0 ==> jobs::specified(jobs, Some("%"@)) == Some(jobs.len() - 1),
        jobs.len() == 0 ==> jobs::specified(jobs, None) is None,
        jobs::specified(jobs, Some("%"@ + text::decimal(n))) is None,
        jobs::specified(jobs, Some("%"@ + s)) is None,
{
    reveal_strlit("%");
    reveal_strlit("+");
    reveal_strlit("-");
    text::lemma_untrimmed("%"@);
    assert("%"@.skip(1).len() == 0);
    let d = text::decimal(n);
    let t = "%"@ + d;
    arithlaws::law_decimal(n);
    arithlaws::law_decimal_reads_back(n as int, 0, usize::MAX as int);
    assert(text::ascii_digit(d[0]) && text::ascii_digit(d.last()));
    assert(t[0] == '%' && t.last() == d.last());
    text::lemma_untrimmed(t);
    assert(t.skip(1) =~= d);
    assert(d[0] != "+"@[0] && d[0] != "%"@[0] && d[0] != "-"@[0]);
    jobs::lemma_id_from(jobs, 0, n as int);
    if n <= i32::MAX {
        jobs::lemma_pid_from(jobs, 0, n as i32);
    }
    let u = "%"@ + s;
    assert(u[0] == '%' && u.last() == s[s.len() - 1]);
    text::lemma_untrimmed(u);
    assert(u.skip(1) =~= s);
    assert("+"@.len() == 1 && "%"@.len() == 1 && "-"@.len() == 1);
    textlaws::law_numbers(0, 0, usize::MAX as int, s, 1);
}

proof fn lemma_disown_push(
    args: Seq<Seq<char>>,
    x: Seq<char>,
    i: int,
    jobs: Seq<state::RecordModel>,
    acc: Seq<i32>,
)
    requires
        0 <= i <= args.len(),
    ensures
        jobs::disown_pids(args.push(x), i, jobs, acc) == if x.len() > 0 && x[0] == '-' {
            jobs::disown_pids(args, i, jobs, acc)
        } else {
            match jobs::specified_pid(jobs, x) {
                Some(pid) => jobs::disown_pids(args, i, jobs, acc).push(pid),
                None => jobs::disown_pids(args, i, jobs, acc),
            }
        },
    decreases args.len() - i,
{
    let more = args.push(x);
    reveal_with_fuel(jobs::disown_pids, 2);
    if i < args.len() {
        assert(more[i] == args[i]);
        if args[i].len() > 0 && args[i][0] == '-' {
            lemma_disown_push(args, x, i + 1, jobs, acc);
        } else {
            match jobs::specified_pid(jobs, args[i]) {
                Some(pid) => {
                    lemma_disown_push(args, x, i + 1, jobs, acc.push(pid));
                },
                None => {
                    lemma_disown_push(args, x, i + 1, jobs, acc);
                },
            }
        }
    } else {
        assert(more[i] == x);
    }
}

/// Each operand of `disown` takes the job that it names out of the table, on
/// top of those that the others take out; a flag takes none.
pub proof fn law_disown_more(
    args: Seq<Seq<char>>,
    x: Seq<char>,
    j: state::RecordModel,
    st: state::StateModel,
)
    requires
        args.len() >= 2,
        args[0] == "disown"@,
    ensures
        ({
            let before = builtins::builtin_step(args, st).1.jobs;
            let after = builtins::builtin_step(args.push(x), st).1.jobs;
            after.contains(j) <==> before.contains(j) && !(!(x.len() > 0 && x[0] == '-')
                && jobs::specified_pid(st.jobs, x) == Some(j.pid))
        }),
{
    builtinlaws::lemma_builtin_names();
    lemma_disown_push(args, x, 1, st.jobs, Seq::empty());
    let a = jobs::disowned(args, st.jobs);
    let b = jobs::disowned(args.push(x), st.jobs);
    law_dropped_jobs(st.jobs, a, j);
    law_dropped_jobs(st.jobs, b, j);
    assert(args.push(x)[0] == "disown"@);
    if !(x.len() > 0 && x[0] == '-') && jobs::specified_pid(st.jobs, x) is Some {
        let pid = jobs::specified_pid(st.jobs, x).unwrap();
        assert(b == a.push(pid));
        assert(b.contains(j.pid) <==> a.contains(j.pid) || j.pid == pid) by {
            if b.contains(j.pid) {
                let k = choose|k: int| 0 <= k < b.len() && b[k] == j.pid;
                if k < a.len() {
                    assert(a[k] == j.pid);
                }
            }
            if a.contains(j.pid) {
                let k = choose|k: int| 0 <= k < a.len() && a[k] == j.pid;
                assert(b[k] == j.pid);
            }
            assert(b[a.len() as int] == pid);
        }
    }
}

} // verus!
