//! External commands: a command that is no builtin is looked up as
//! `/bin/<cmd>`, and a nonzero exit code is reported.
use vstd::prelude::*;

verus! {

/// Size of a path buffer, terminating NUL byte included.
pub const PATH_MAX: usize = 256;

pub const SLASH: u8 = 0x2F;

/// `/bin/`
pub open spec fn bin_prefix() -> Seq<u8> {
    seq![0x2Fu8, 0x62u8, 0x69u8, 0x6Eu8, 0x2Fu8]
}

/// The NUL-terminated path `/bin/<cmd>` for the command `args[0]`; `None`
/// when there is no command, when it is empty or holds a `/`, or when the
/// path does not fit in `PATH_MAX` bytes.
pub open spec fn spec_external_path(args: Seq<Seq<u8>>) -> Option<Seq<u8>> {
    if args.len() == 0 {
        None
    } else {
        let cmd = args[0];
        if cmd.len() == 0 || cmd.contains(SLASH) {
            None
        } else if bin_prefix().len() + cmd.len() + 1 > PATH_MAX {
            None
        } else {
            Some(bin_prefix() + cmd + seq![0u8])
        }
    }
}

/// The contents of each argument.
pub open spec fn arg_views(args: Seq<Vec<u8>>) -> Seq<Seq<u8>> {
    args.map_values(|a: Vec<u8>| a@)
}

/// The path under which the external command `args[0]` is looked for.
pub fn external_path(args: &[Vec<u8>]) -> (r: Option<Vec<u8>>)
    ensures
        match r {
            Some(p) => spec_external_path(arg_views(args@)) == Some(p@),
            None => spec_external_path(arg_views(args@)) is None,
        },
{
    let ghost views = arg_views(args@);
    if args.len() == 0 {
        return None;
    }
    let cmd = &args[0];
    assert(views[0] == cmd@);
    if cmd.len() == 0 {
        return None;
    }
    let mut k: usize = 0;
    while k < cmd.len()
        invariant
            k <= cmd@.len(),
            views == arg_views(args@),
            args@.len() > 0,
            views[0] == cmd@,
            forall|q: int| 0 <= q < k ==> cmd@[q] != SLASH,
        decreases cmd@.len() - k,
    {
        if cmd[k] == SLASH {
            assert(cmd@.contains(SLASH)) by {
                assert(cmd@[k as int] == SLASH);
            }
            return None;
        }
        k += 1;
    }
    assert(!cmd@.contains(SLASH));
    if cmd.len() > PATH_MAX - 6 {
        return None;
    }
    let mut full: Vec<u8> = Vec::new();
    full.push(0x2F);
    full.push(0x62);
    full.push(0x69);
    full.push(0x6E);
    full.push(0x2F);
    let ghost start = full@;
    let mut j: usize = 0;
    while j < cmd.len()
        invariant
            j <= cmd@.len(),
            full@ == start + cmd@.subrange(0, j as int),
        decreases cmd@.len() - j,
    {
        full.push(cmd[j]);
        j += 1;
        assert(full@ =~= start + cmd@.subrange(0, j as int));
    }
    full.push(0);
    assert(full@ =~= bin_prefix() + cmd@ + seq![0u8]);
    Some(full)
}

/// The decimal digits of `n`.
pub open spec fn decimal_digits(n: nat) -> Seq<u8>
    decreases n,
{
    if n < 10 {
        seq![(0x30 + n) as u8]
    } else {
        decimal_digits(n / 10) + seq![(0x30 + n % 10) as u8]
    }
}

/// `n` in decimal, with a leading `-` when negative.
pub open spec fn decimal(n: int) -> Seq<u8> {
    if n < 0 {
        seq![0x2Du8] + decimal_digits((-n) as nat)
    } else {
        decimal_digits(n as nat)
    }
}

fn push_digits(out: &mut Vec<u8>, n: u64)
    ensures
        final(out)@ == old(out)@ + decimal_digits(n as nat),
    decreases n,
{
    if n >= 10 {
        push_digits(out, n / 10);
    }
    out.push(0x30 + (n % 10) as u8);
    proof {
        assert(final(out)@ =~= old(out)@ + decimal_digits(n as nat));
    }
}

/// `osh: `
pub open spec fn report_head() -> Seq<u8> {
    seq![0x6Fu8, 0x73u8, 0x68u8, 0x3Au8, 0x20u8]
}

/// `: exited with code `
pub open spec fn report_middle() -> Seq<u8> {
    seq![
        0x3Au8, 0x20u8, 0x65u8, 0x78u8, 0x69u8, 0x74u8, 0x65u8, 0x64u8, 0x20u8, 0x77u8,
        0x69u8, 0x74u8, 0x68u8, 0x20u8, 0x63u8, 0x6Fu8, 0x64u8, 0x65u8, 0x20u8,
    ]
}

/// What the shell prints when an external command ends with `status`:
/// nothing for 0, else `osh: <cmd>: exited with code <status>` and a newline.
pub open spec fn spec_exit_report(cmd: Seq<u8>, status: i32) -> Option<Seq<u8>> {
    if status == 0 {
        None
    } else {
        Some(report_head() + cmd + report_middle() + decimal(status as int) + seq![0x0Au8])
    }
}

/// The message for an external command `cmd` that exited with `status`.
pub fn exit_report(cmd: &[u8], status: i32) -> (r: Option<Vec<u8>>)
    ensures
        match r {
            Some(m) => spec_exit_report(cmd@, status) == Some(m@),
            None => spec_exit_report(cmd@, status) is None,
        },
{
    if status == 0 {
        return None;
    }
    let mut out: Vec<u8> = Vec::new();
    out.push(0x6F);
    out.push(0x73);
    out.push(0x68);
    out.push(0x3A);
    out.push(0x20);
    let mut j: usize = 0;
    let ghost head = out@;
    while j < cmd.len()
        invariant
            j <= cmd@.len(),
            out@ == head + cmd@.subrange(0, j as int),
        decreases cmd@.len() - j,
    {
        out.push(cmd[j]);
        j += 1;
        assert(out@ =~= head + cmd@.subrange(0, j as int));
    }
    assert(cmd@.subrange(0, cmd@.len() as int) =~= cmd@);
    let ghost before_middle = out@;
    let middle: [u8; 19] = [
        0x3A, 0x20, 0x65, 0x78, 0x69, 0x74, 0x65, 0x64, 0x20, 0x77, 0x69, 0x74, 0x68, 0x20,
        0x63, 0x6F, 0x64, 0x65, 0x20,
    ];
    let mut k: usize = 0;
    while k < 19
        invariant
            k <= 19,
            middle@ == report_middle(),
            out@ == before_middle + report_middle().subrange(0, k as int),
        decreases 19 - k,
    {
        out.push(middle[k]);
        k += 1;
        assert(out@ =~= before_middle + report_middle().subrange(0, k as int));
    }
    assert(report_middle().subrange(0, 19) =~= report_middle());
    let ghost before_num = out@;
    if status < 0 {
        out.push(0x2D);
        let magnitude: u64 = (0 - (status as i64)) as u64;
        push_digits(&mut out, magnitude);
    } else {
        push_digits(&mut out, status as u64);
    }
    out.push(0x0A);
    assert(out@ =~= report_head() + cmd@ + report_middle() + decimal(status as int) + seq![0x0Au8]);
    Some(out)
}


/// What the system answered at one stage of running an external command.
pub enum ExternalEvent {
    /// The status lookup of the path: negative when there is no such file.
    Stat(i64),
    /// How many argument strings were built: 0 when one was too long.
    Argv(usize),
    /// The spawn call: the new process's id, or a negative error.
    Spawned(i64),
    /// The wait call's result, negative on error, and the exit status.
    Waited(i64, i32),
}

/// A failure that the shell reports after it found the command.
#[derive(PartialEq, Eq, Structural, Clone, Copy, Debug)]
pub enum ExternalError {
    ArgvTooLong,
    Spawn(i64),
    Wait(i64),
}

/// What to do next when running an external command.
pub enum ExternalAction {
    /// Build the argument strings.
    BuildArgv,
    /// Start the command.
    Spawn,
    /// Wait for it to end.
    Wait,
    /// There is no such command: the lookup answers false.
    NotFound,
    /// Report the failure; the lookup answers true.
    Error(ExternalError),
    /// The command ran; print the message if there is one; the lookup
    /// answers true.
    Finished(Option<Vec<u8>>),
}

impl ExternalAction {
    /// What the lookup answers once the action ends it: whether the command
    /// was found; `None` while there is more to do.
    pub fn result(&self) -> (r: Option<bool>)
        ensures
            r == match self {
                ExternalAction::NotFound => Some(false),
                ExternalAction::Error(_) => Some(true),
                ExternalAction::Finished(_) => Some(true),
                _ => None::<bool>,
            },
    {
        match self {
            ExternalAction::NotFound => Some(false),
            ExternalAction::Error(_) => Some(true),
            ExternalAction::Finished(_) => Some(true),
            _ => None,
        }
    }
}

/// The next action after `event`, for the command `cmd`: a failed lookup
/// means the command is not there; a failure to build the arguments, to
/// spawn or to wait is reported; a finished command is reported when its
/// exit status is not 0.
pub fn external_step(cmd: &[u8], event: ExternalEvent) -> (a: ExternalAction)
    ensures
        match event {
            ExternalEvent::Stat(r) => if r < 0 {
                a is NotFound
            } else {
                a is BuildArgv
            },
            ExternalEvent::Argv(n) => if n == 0 {
                a == ExternalAction::Error(ExternalError::ArgvTooLong)
            } else {
                a is Spawn
            },
            ExternalEvent::Spawned(pid) => if pid < 0 {
                a == ExternalAction::Error(ExternalError::Spawn(pid))
            } else {
                a is Wait
            },
            ExternalEvent::Waited(w, status) => if w < 0 {
                a == ExternalAction::Error(ExternalError::Wait(w))
            } else {
                &&& a is Finished
                &&& match a {
                    ExternalAction::Finished(Some(m)) => spec_exit_report(cmd@, status) == Some(m@),
                    ExternalAction::Finished(None) => spec_exit_report(cmd@, status) is None,
                    _ => false,
                }
            },
        },
{
    match event {
        ExternalEvent::Stat(r) => {
            if r < 0 {
                ExternalAction::NotFound
            } else {
                ExternalAction::BuildArgv
            }
        },
        ExternalEvent::Argv(n) => {
            if n == 0 {
                ExternalAction::Error(ExternalError::ArgvTooLong)
            } else {
                ExternalAction::Spawn
            }
        },
        ExternalEvent::Spawned(pid) => {
            if pid < 0 {
                ExternalAction::Error(ExternalError::Spawn(pid))
            } else {
                ExternalAction::Wait
            }
        },
        ExternalEvent::Waited(w, status) => {
            if w < 0 {
                ExternalAction::Error(ExternalError::Wait(w))
            } else {
                ExternalAction::Finished(exit_report(cmd, status))
            }
        },
    }
}


/// The number that a string of decimal digits stands for.
pub open spec fn digits_value(d: Seq<u8>) -> int
    decreases d.len(),
{
    if d.len() == 0 {
        0
    } else {
        digits_value(d.drop_last()) * 10 + (d.last() - 0x30)
    }
}

/// `decimal_digits(n)` is a nonempty string of the digits `0`..`9` with no
/// leading zero (unless `n` is 0) that stands for `n`.
pub proof fn lemma_decimal_digits(n: nat)
    ensures
        decimal_digits(n).len() >= 1,
        forall|i: int| 0 <= i < decimal_digits(n).len() ==> 0x30 <= #[trigger] decimal_digits(n)[i] <= 0x39,
        decimal_digits(n).len() > 1 ==> decimal_digits(n)[0] != 0x30,
        digits_value(decimal_digits(n)) == n,
    decreases n,
{
    if n >= 10 {
        lemma_decimal_digits(n / 10);
        let d = decimal_digits(n);
        let h = decimal_digits(n / 10);
        assert(d == h + seq![(0x30 + n % 10) as u8]);
        assert(d.drop_last() =~= h);
        assert forall|i: int| 0 <= i < d.len() implies 0x30 <= #[trigger] d[i] <= 0x39 by {
            if i < h.len() {
                assert(d[i] == h[i]);
            }
        }
        if n / 10 < 10 {
            assert(h == seq![(0x30 + n / 10) as u8]);
            assert(h[0] != 0x30);
        } else {
            lemma_decimal_digits(n / 100);
            assert(n / 10 / 10 == n / 100);
            assert(h.len() == decimal_digits(n / 100).len() + 1);
        }
        assert(d[0] == h[0]);
        assert(d.last() == (0x30 + n % 10) as u8);
        assert(digits_value(d) == digits_value(h) * 10 + (n % 10));
        assert(n == (n / 10) * 10 + n % 10);
    } else {
        let d = decimal_digits(n);
        assert(d == seq![(0x30 + n) as u8]);
        assert(d.drop_last() =~= Seq::<u8>::empty());
        assert(digits_value(d.drop_last()) == 0);
    }
}

/// The path of the command `args[0]` is `/bin/` (0x2F 0x62 0x69 0x6E 0x2F),
/// the command and a NUL byte; there is one exactly when there is a
/// command, it is not empty, holds no `/` (0x2F), and is at most 250 bytes
/// long, so that the path fits in 256 bytes.
pub proof fn lemma_external_path_bytes(args: Seq<Seq<u8>>)
    ensures
        spec_external_path(args) is Some <==> (args.len() > 0 && args[0].len() > 0 && !args[0].contains(
            0x2Fu8,
        ) && args[0].len() <= 250),
        spec_external_path(args) is Some ==> spec_external_path(args).unwrap() == seq![
            0x2Fu8,
            0x62u8,
            0x69u8,
            0x6Eu8,
            0x2Fu8,
        ] + args[0] + seq![0x00u8],
{
}

/// A command that exits with status 0 gets no message; any other status
/// gets `osh: `, the command, `: exited with code `, the status in decimal
/// with a `-` before a negative one, and a line feed.
pub proof fn lemma_exit_report_bytes(cmd: Seq<u8>, status: i32)
    ensures
        spec_exit_report(cmd, status) is None <==> status == 0,
        status != 0 ==> spec_exit_report(cmd, status) == Some(
            seq![0x6Fu8, 0x73u8, 0x68u8, 0x3Au8, 0x20u8] + cmd + seq![
                0x3Au8, 0x20u8, 0x65u8, 0x78u8, 0x69u8, 0x74u8, 0x65u8, 0x64u8, 0x20u8, 0x77u8,
                0x69u8, 0x74u8, 0x68u8, 0x20u8, 0x63u8, 0x6Fu8, 0x64u8, 0x65u8, 0x20u8,
            ] + (if status < 0 { seq![0x2Du8] } else { Seq::<u8>::empty() }) + decimal_digits(
                (if status < 0 { -status } else { status as int }) as nat,
            ) + seq![0x0Au8],
        ),
{
    if status < 0 {
        assert(decimal(status as int) == seq![0x2Du8] + decimal_digits((-status) as nat));
    } else {
        assert(decimal(status as int) =~= Seq::<u8>::empty() + decimal_digits(status as nat));
    }
}

} // verus!
