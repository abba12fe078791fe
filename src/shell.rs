//! Decisions behind the shell commands that touch the task table: command
//! matching, argument extraction, `kill` and starting an application image.
use vstd::prelude::*;
use vstd::string::StrSliceExecFns;
use crate::task::{TaskManager, MAX_TASKS};

verus! {

/// Characters in the input line.
pub const BUFFER_LEN: usize = 256;
/// Characters in a command argument.
pub const ARG_LEN: usize = 11;
/// Base of the execution windows.
pub const APP_TARGET: u32 = 0x00A00000;
/// Stride between two slots' execution windows.
pub const APP_SIZE: u32 = 0x00010000;
/// First word of every runnable image.
pub const APP_SIGNATURE: u32 = 0xB16B00B5;

/// Code of a character with ASCII upper case letters taken to lower case.
pub open spec fn lower(c: char) -> u32 {
    if 65 <= c as u32 <= 90 {
        (c as u32 + 32) as u32
    } else {
        c as u32
    }
}

fn lower_code(c: char) -> (r: u32)
    ensures
        r == lower(c),
{
    let code = c as u32;
    if 65 <= code && code <= 90 {
        code + 32
    } else {
        code
    }
}

/// `c` separates words: a space or a NUL.
pub open spec fn is_gap(c: char) -> bool {
    c as u32 == 0x20 || c as u32 == 0
}

/// The argument after a command of `prefix` characters: `b[start..end]`,
/// where `start` is the first position at or after `prefix` that is not a
/// gap and `end` the first gap after it (or the end of the line).
pub open spec fn is_argument(b: Seq<char>, prefix: int, start: int, end: int) -> bool {
    &&& prefix <= start < end <= b.len()
    &&& forall|i: int| prefix <= i < start ==> is_gap(#[trigger] b[i])
    &&& forall|i: int| start <= i < end ==> !is_gap(#[trigger] b[i])
    &&& (end == b.len() || is_gap(b[end]))
}

/// The range of the argument that follows a command of `prefix`
/// characters, or none when the rest of the line is blank.
pub fn parse_argument(b: &[char], prefix: usize) -> (r: Option<(usize, usize)>)
    ensures
        r is None <==> forall|i: int| prefix <= i < b@.len() ==> is_gap(#[trigger] b@[i]),
        r matches Some((s, e)) ==> is_argument(b@, prefix as int, s as int, e as int),
{
    let len = b.len();
    let mut start: usize = prefix;
    while start < len && (b[start] as u32 == 0x20 || b[start] as u32 == 0)
        invariant
            len == b@.len(),
            prefix <= start,
            forall|i: int| prefix <= i < start ==> is_gap(#[trigger] b@[i]),
        decreases len - start,
    {
        start = start + 1;
    }
    if start >= len {
        return None;
    }
    let mut end: usize = start + 1;
    while end < len && !(b[end] as u32 == 0x20 || b[end] as u32 == 0)
        invariant
            len == b@.len(),
            start < end <= len,
            forall|i: int| start <= i < end ==> !is_gap(#[trigger] b@[i]),
        decreases len - end,
    {
        end = end + 1;
    }
    Some((start, end))
}

/// Value of a string of decimal digits.
pub open spec fn decimal(s: Seq<char>) -> int
    decreases s.len(),
{
    if s.len() == 0 {
        0
    } else {
        decimal(s.drop_last()) * 10 + (s.last() as u32 - 48)
    }
}

/// Every character is a decimal digit.
pub open spec fn all_digits(s: Seq<char>) -> bool {
    forall|i: int| 0 <= i < s.len() ==> 48 <= #[trigger] s[i] as u32 <= 57
}

/// What a `kill` command did.
#[derive(Clone, Copy, PartialEq, Eq, Structural, Debug)]
pub enum KillOutcome {
    /// No argument was given.
    Usage,
    /// The argument is not a number from 1 to 31.
    InvalidPid,
    /// The slot holds no task; nothing changed.
    NotFound(usize),
    /// The task in the slot was removed.
    Removed(usize),
}

impl KillOutcome {
    /// The fixed part of the message shown for the outcome.
    pub fn message(&self) -> (r: &'static str)
        ensures
            (*self matches KillOutcome::NotFound(_)) ==> r == "not found",
            (*self == KillOutcome::InvalidPid) ==> r == "Please enter a valid PID (1-31).",
            (*self == KillOutcome::Usage) ==> r == "Usage: kill <pid>",
            (*self matches KillOutcome::Removed(_)) ==> r == "has been removed",
    {
        match self {
            KillOutcome::Usage => "Usage: kill <pid>",
            KillOutcome::InvalidPid => "Please enter a valid PID (1-31).",
            KillOutcome::NotFound(_) => "not found",
            KillOutcome::Removed(_) => "has been removed",
        }
    }
}

proof fn lemma_decimal_step(s: Seq<char>, c: char)
    ensures
        decimal(s.push(c)) == decimal(s) * 10 + (c as u32 - 48),
{
    assert(s.push(c).drop_last() =~= s);
}

/// Runs `kill` on the line `b` ("kill <pid>"): the argument after the
/// five-character prefix must be all digits naming slot 1 to 31; a free slot
/// is reported and left alone, a running one is removed.
pub fn kill(tasks: &mut TaskManager, b: &[char]) -> (r: KillOutcome)
    requires
        old(tasks)@.wf(),
        old(tasks)@.count > i8::MIN,
    ensures
        final(tasks)@.wf(),
        parse_argument_spec(b@, 5) is None ==> r == KillOutcome::Usage && final(tasks)@ == old(tasks)@,
        forall|s: int, e: int|
            is_argument(b@, 5, s, e) ==> {
                let arg = b@.subrange(s, e);
                let id = decimal(arg);
                &&& !(all_digits(arg) && 0 < id < MAX_TASKS) ==> r == KillOutcome::InvalidPid && final(tasks)@
                    == old(tasks)@
                &&& all_digits(arg) && 0 < id < MAX_TASKS && !old(tasks)@.running(id) ==> r
                    == KillOutcome::NotFound(id as usize) && final(tasks)@ == old(tasks)@
                &&& all_digits(arg) && 0 < id < MAX_TASKS && old(tasks)@.running(id) ==> r
                    == KillOutcome::Removed(id as usize) && old(tasks)@.removed(final(tasks)@, id)
            },
{
    let range = parse_argument(b, 5);
    match range {
        None => KillOutcome::Usage,
        Some((start, end)) => {
            let ghost arg = b@.subrange(start as int, end as int);
            proof {
                lemma_argument_unique(b@, 5, start as int, end as int);
            }
            let mut id: usize = 0;
            let mut valid = true;
            let mut i: usize = start;
            while i < end
                invariant
                    start <= i <= end <= b@.len(),
                    arg == b@.subrange(start as int, end as int),
                    valid == all_digits(b@.subrange(start as int, i as int)),
                    valid ==> id as int == if decimal(b@.subrange(start as int, i as int)) < 32 {
                        decimal(b@.subrange(start as int, i as int))
                    } else {
                        32
                    },
                    valid ==> decimal(b@.subrange(start as int, i as int)) >= 0,
                decreases end - i,
            {
                let ghost prev = b@.subrange(start as int, i as int);
                assert(b@.subrange(start as int, i + 1) =~= prev.push(b@[i as int]));
                let code = b[i] as u32;
                proof {
                    let next_s = prev.push(b@[i as int]);
                    if all_digits(next_s) {
                        assert forall|j: int| 0 <= j < prev.len() implies 48 <= #[trigger] prev[j] as u32 <= 57 by {
                            assert(next_s[j] == prev[j]);
                        }
                        assert(next_s[prev.len() as int] == b@[i as int]);
                    }
                    if all_digits(prev) && 48 <= code <= 57 {
                        assert forall|j: int| 0 <= j < next_s.len() implies 48 <= #[trigger] next_s[j] as u32 <= 57 by {
                            if j < prev.len() {
                                assert(next_s[j] == prev[j]);
                            }
                        }
                    }
                }
                if valid && 48 <= code && code <= 57 {
                    proof {
                        lemma_decimal_step(prev, b@[i as int]);
                    }
                    let next = id * 10 + (code - 48) as usize;
                    id = if next < 32 {
                        next
                    } else {
                        32
                    };
                } else {
                    valid = false;
                }
                i = i + 1;
            }
            assert(b@.subrange(start as int, end as int) =~= arg);
            if !valid || id == 0 || id >= 32 {
                return KillOutcome::InvalidPid;
            }
            if !tasks.is_running(id) {
                return KillOutcome::NotFound(id);
            }
            tasks.remove_task(id);
            KillOutcome::Removed(id)
        },
    }
}

/// The argument range after `prefix`, as `parse_argument` finds it.
pub open spec fn parse_argument_spec(b: Seq<char>, prefix: int) -> Option<(int, int)> {
    if exists|s: int, e: int| is_argument(b, prefix, s, e) {
        Some(choose|s: int, e: int| is_argument(b, prefix, s, e))
    } else {
        None
    }
}

proof fn lemma_argument_unique(b: Seq<char>, prefix: int, s: int, e: int)
    requires
        is_argument(b, prefix, s, e),
    ensures
        forall|s2: int, e2: int| is_argument(b, prefix, s2, e2) ==> s2 == s && e2 == e,
        parse_argument_spec(b, prefix) == Some((s, e)),
{
    assert forall|s2: int, e2: int| is_argument(b, prefix, s2, e2) implies s2 == s && e2 == e by {
        if s2 < s {
            assert(is_gap(b[s2]));
        } else if s < s2 {
            assert(is_gap(b[s]));
        }
        if e2 < e {
            assert(!is_gap(b[e2]));
        } else if e < e2 {
            assert(!is_gap(b[e]));
        }
    }
    let (s2, e2) = choose|s2: int, e2: int| is_argument(b, prefix, s2, e2);
    assert(is_argument(b, prefix, s2, e2));
}

/// The shell's input line and the argument buffer of file commands.
pub struct Shell {
    pub buffer: [char; BUFFER_LEN],
    pub arg: [char; ARG_LEN],
    pub cursor: usize,
}

impl Shell {
    pub open spec fn wf(&self) -> bool {
        self.cursor <= BUFFER_LEN
    }

    /// An empty line.
    pub fn new() -> (r: Shell)
        ensures
            r.wf(),
            r.cursor == 0,
            forall|i: int| 0 <= i < BUFFER_LEN ==> r.buffer@[i] as u32 == 0,
    {
        Shell { buffer: ['\0'; BUFFER_LEN], arg: ['\0'; ARG_LEN], cursor: 0 }
    }

    /// Clears the line for the next command.
    pub fn init(&mut self)
        ensures
            final(self).wf(),
            final(self).cursor == 0,
            forall|i: int| 0 <= i < BUFFER_LEN ==> final(self).buffer@[i] as u32 == 0,
            final(self).arg == old(self).arg,
    {
        self.buffer = ['\0'; BUFFER_LEN];
        self.cursor = 0;
    }

    /// Appends a typed character to the line.
    pub fn add(&mut self, c: char)
        requires
            old(self).cursor < BUFFER_LEN,
        ensures
            final(self).wf(),
            final(self).cursor == old(self).cursor + 1,
            final(self).buffer@ == old(self).buffer@.update(old(self).cursor as int, c),
            final(self).arg == old(self).arg,
    {
        self.buffer[self.cursor] = c;
        self.cursor = self.cursor + 1;
    }

    /// Erases the last typed character, if any; says whether one was erased.
    pub fn backspace(&mut self) -> (r: bool)
        requires
            old(self).wf(),
        ensures
            final(self).wf(),
            r == (old(self).cursor > 0),
            r ==> final(self).cursor == old(self).cursor - 1 && final(self).buffer@ == old(self).buffer@.update(
                final(self).cursor as int,
                '\0',
            ),
            !r ==> *final(self) == *old(self),
            final(self).arg == old(self).arg,
    {
        if self.cursor > 0 {
            self.cursor = self.cursor - 1;
            self.buffer[self.cursor] = '\0';
            true
        } else {
            false
        }
    }

    /// Whether the line holds `command` (ignoring ASCII case) followed by a
    /// space or the end of the line.
    pub fn is_command(&self, command: &str) -> (r: bool)
        requires
            command@.len() < BUFFER_LEN,
        ensures
            r == ((forall|i: int|
                0 <= i < command@.len() ==> #[trigger] self.buffer@[i] as u32 != 0 && lower(self.buffer@[i]) == lower(
                    command@[i],
                )) && is_gap(self.buffer@[command@.len() as int])),
    {
        let n = command.unicode_len();
        let mut i: usize = 0;
        while i < n
            invariant
                n == command@.len(),
                n < BUFFER_LEN,
                0 <= i <= n,
                forall|j: int|
                    0 <= j < i ==> #[trigger] self.buffer@[j] as u32 != 0 && lower(self.buffer@[j]) == lower(command@[j]),
            decreases n - i,
        {
            let b = lower_code(self.buffer[i]);
            if b == 0 || b != lower_code(command.get_char(i)) {
                return false;
            }
            i = i + 1;
        }
        let last = lower_code(self.buffer[n]);
        last == 0x20 || self.buffer[n] as u32 == 0
    }

    /// Copies the argument `b[start..end]` into the argument buffer, padded
    /// with NULs; false, with the buffer kept, when it is too long for it.
    pub fn set_arg(&mut self, b: &[char], start: usize, end: usize) -> (r: bool)
        requires
            start <= end <= b@.len(),
        ensures
            r == (end - start <= ARG_LEN),
            r ==> final(self).arg@ == b@.subrange(start as int, end as int) + Seq::new(
                (ARG_LEN - (end - start)) as nat,
                |i: int| '\0',
            ),
            !r ==> final(self).arg == old(self).arg,
            final(self).buffer == old(self).buffer,
            final(self).cursor == old(self).cursor,
    {
        if end - start > ARG_LEN {
            return false;
        }
        let mut j: usize = 0;
        while j < ARG_LEN
            invariant
                start <= end <= b@.len(),
                end - start <= ARG_LEN,
                0 <= j <= ARG_LEN,
                forall|l: int| 0 <= l < j && l < end - start ==> self.arg@[l] == b@[start + l],
                forall|l: int| 0 <= l < j && l >= end - start ==> self.arg@[l] == '\0',
                self.buffer == old(self).buffer,
                self.cursor == old(self).cursor,
            decreases ARG_LEN - j,
        {
            if j < end - start {
                self.arg[j] = b[start + j];
            } else {
                self.arg[j] = '\0';
            }
            j = j + 1;
        }
        assert(self.arg@ =~= b@.subrange(start as int, end as int) + Seq::new(
            (ARG_LEN - (end - start)) as nat,
            |i: int| '\0',
        ));
        true
    }
}

/// Start of the execution window of slot `slot`.
pub fn app_target(slot: u8) -> (r: u32)
    requires
        slot < MAX_TASKS,
    ensures
        r == APP_TARGET + slot * APP_SIZE,
{
    APP_TARGET + slot as u32 * APP_SIZE
}

/// The first little-endian word of an image.
pub fn signature_of(image: &[u8]) -> (r: u32)
    requires
        image@.len() >= 4,
    ensures
        r == image@[0] + image@[1] * 0x100 + image@[2] * 0x10000 + image@[3] * 0x1000000,
{
    image[0] as u32 + image[1] as u32 * 0x100 + image[2] as u32 * 0x10000 + image[3] as u32 * 0x1000000
}

/// What a `run` command did with a loaded image.
#[derive(Clone, Copy, PartialEq, Eq, Structural, Debug)]
pub enum RunOutcome {
    /// The image was scheduled.
    Started,
    /// The image lacks the signature; nothing was scheduled.
    NotExecutable,
}

impl RunOutcome {
    /// The message shown for a rejected image, or an empty one.
    pub fn message(&self) -> (r: &'static str)
        ensures
            *self == RunOutcome::NotExecutable ==> r == "This file is not a valid executable!",
            *self == RunOutcome::Started ==> r == "",
    {
        match self {
            RunOutcome::Started => "",
            RunOutcome::NotExecutable => "This file is not a valid executable!",
        }
    }
}

/// Schedules the image loaded at `target` whose first word is `signature`:
/// with the application signature it becomes a task entered just after that
/// word; otherwise the table is left alone.
pub fn start_app(tasks: &mut TaskManager, target: u32, signature: u32) -> (r: RunOutcome)
    requires
        old(tasks)@.wf(),
        target <= u32::MAX - 4,
    ensures
        final(tasks)@.wf(),
        signature == APP_SIGNATURE ==> r == RunOutcome::Started && old(tasks)@.added(final(tasks)@, (target + 4) as u32),
        signature != APP_SIGNATURE ==> r == RunOutcome::NotExecutable && final(tasks)@ == old(tasks)@,
{
    if signature == APP_SIGNATURE {
        tasks.add_task(target + 4);
        RunOutcome::Started
    } else {
        RunOutcome::NotExecutable
    }
}

/// A shell command, as the first word of the line names it.
#[derive(Clone, Copy, PartialEq, Eq, Structural, Debug)]
pub enum Command {
    Cal,
    Cat,
    Clear,
    Color,
    Date,
    Echo,
    Exit,
    Help,
    Hostname,
    Kill,
    Ls,
    Ps,
    Pwd,
    Reboot,
    Run,
    Shutdown,
    Ticks,
    Timestamp,
    Uname,
    Whoami,
    /// A blank line.
    Empty,
    /// Anything else.
    Unknown,
}

impl Command {
    /// The word that names the command; none for `Empty` and `Unknown`.
    pub open spec fn word(self) -> &'static str {
        match self {
        Command::Cal => "cal",
        Command::Cat => "cat",
        Command::Clear => "clear",
        Command::Color => "color",
        Command::Date => "date",
        Command::Echo => "echo",
        Command::Exit => "exit",
        Command::Help => "help",
        Command::Hostname => "hostname",
        Command::Kill => "kill",
        Command::Ls => "ls",
        Command::Ps => "ps",
        Command::Pwd => "pwd",
        Command::Reboot => "reboot",
        Command::Run => "run",
        Command::Shutdown => "shutdown",
        Command::Ticks => "ticks",
        Command::Timestamp => "timestamp",
        Command::Uname => "uname",
        Command::Whoami => "whoami",
            _ => "",
        }
    }

    /// One of the named commands.
    pub open spec fn is_named(self) -> bool {
        self != Command::Empty && self != Command::Unknown
    }
}

/// The line starts with the word `w`, in any ASCII case, followed by a space
/// or a NUL.
pub open spec fn line_is(b: Seq<char>, w: Seq<char>) -> bool {
    (forall|i: int| 0 <= i < w.len() ==> #[trigger] b[i] as u32 != 0 && lower(b[i]) == lower(w[i])) && is_gap(
        b[w.len() as int],
    )
}

impl Shell {
    /// Which command the line holds: the named command whose word starts
    /// the line, else `Empty` for a line that starts with NUL or a newline,
    /// else `Unknown`.
    pub fn interpret(&self) -> (r: Command)
        ensures
            r.is_named() ==> line_is(self.buffer@, r.word()@),
            !r.is_named() ==> forall|c: Command| c.is_named() ==> !line_is(self.buffer@, #[trigger] c.word()@),
            r == Command::Empty <==> !r.is_named() && (self.buffer@[0] as u32 == 0 || self.buffer@[0] as u32 == 10),
    {
        proof {
            reveal_strlit("cal");
            reveal_strlit("cat");
            reveal_strlit("clear");
            reveal_strlit("color");
            reveal_strlit("date");
            reveal_strlit("echo");
            reveal_strlit("exit");
            reveal_strlit("help");
            reveal_strlit("hostname");
            reveal_strlit("kill");
            reveal_strlit("ls");
            reveal_strlit("ps");
            reveal_strlit("pwd");
            reveal_strlit("reboot");
            reveal_strlit("run");
            reveal_strlit("shutdown");
            reveal_strlit("ticks");
            reveal_strlit("timestamp");
            reveal_strlit("uname");
            reveal_strlit("whoami");
        }
        if self.is_command("cal") {
            return Command::Cal;
        }
        if self.is_command("cat") {
            return Command::Cat;
        }
        if self.is_command("clear") {
            return Command::Clear;
        }
        if self.is_command("color") {
            return Command::Color;
        }
        if self.is_command("date") {
            return Command::Date;
        }
        if self.is_command("echo") {
            return Command::Echo;
        }
        if self.is_command("exit") {
            return Command::Exit;
        }
        if self.is_command("help") {
            return Command::Help;
        }
        if self.is_command("hostname") {
            return Command::Hostname;
        }
        if self.is_command("kill") {
            return Command::Kill;
        }
        if self.is_command("ls") {
            return Command::Ls;
        }
        if self.is_command("ps") {
            return Command::Ps;
        }
        if self.is_command("pwd") {
            return Command::Pwd;
        }
        if self.is_command("reboot") {
            return Command::Reboot;
        }
        if self.is_command("run") {
            return Command::Run;
        }
        if self.is_command("shutdown") {
            return Command::Shutdown;
        }
        if self.is_command("ticks") {
            return Command::Ticks;
        }
        if self.is_command("timestamp") {
            return Command::Timestamp;
        }
        if self.is_command("uname") {
            return Command::Uname;
        }
        if self.is_command("whoami") {
            return Command::Whoami;
        }
        proof {
            assert forall|c: Command| c.is_named() implies !line_is(self.buffer@, #[trigger] c.word()@) by {
                match c {
                    _ => {},
                }
            }
        }
        if self.buffer[0] as u32 == 0 || self.buffer[0] as u32 == 10 {
            Command::Empty
        } else {
            Command::Unknown
        }
    }
}

/// What `echo` prints of `s`: up to the first NUL, runs of spaces shrunk to
/// one and leading spaces dropped (`last_space`: a space came just before).
pub open spec fn squeeze(s: Seq<char>, last_space: bool) -> Seq<char>
    decreases s.len(),
{
    if s.len() == 0 || s[0] as u32 == 0 {
        Seq::empty()
    } else if s[0] as u32 == 0x20 {
        if last_space {
            squeeze(s.skip(1), true)
        } else {
            seq![s[0]] + squeeze(s.skip(1), true)
        }
    } else {
        seq![s[0]] + squeeze(s.skip(1), false)
    }
}

/// The text that `echo` prints for the line `b` ("echo <text>"): what
/// follows the five-character prefix, up to the first NUL, with runs of
/// spaces shrunk to one and leading spaces dropped.
pub fn echo(b: &[char]) -> (r: Vec<char>)
    ensures
        r@ == squeeze(if b@.len() > 5 { b@.skip(5) } else { Seq::empty() }, true),
{
    let ghost s = if b@.len() > 5 { b@.skip(5) } else { Seq::<char>::empty() };
    let mut out: Vec<char> = Vec::new();
    let mut last_space = true;
    let mut i: usize = 5;
    let n = b.len();
    if n <= 5 {
        return out;
    }
    while i < n
        invariant
            5 <= i <= n,
            n == b@.len(),
            s == b@.skip(5),
            out@ + squeeze(b@.skip(i as int), last_space) == squeeze(s, true),
        decreases n - i,
    {
        let ghost rest = b@.skip(i as int);
        let ghost old_out = out@;
        let ghost old_last = last_space;
        assert(rest.skip(1) =~= b@.skip(i + 1));
        assert(rest[0] == b@[i as int]);
        let c = b[i];
        if c as u32 == 0 {
            assert(out@ + Seq::<char>::empty() =~= out@);
            return out;
        }
        if c as u32 == 0x20 {
            if !last_space {
                out.push(c);
            }
            last_space = true;
        } else {
            out.push(c);
            last_space = false;
        }
        proof {
            let tail = squeeze(b@.skip(i + 1), last_space);
            if c as u32 == 0x20 && old_last {
                assert(out@ == old_out);
            } else {
                assert(squeeze(rest, old_last) == seq![c] + tail);
                assert(out@ + tail =~= old_out + (seq![c] + tail));
            }
        }
        i = i + 1;
    }
    proof {
        assert(b@.skip(n as int) =~= Seq::<char>::empty());
        assert(out@ + Seq::<char>::empty() =~= out@);
    }
    out
}

/// Name of month `m`.
pub open spec fn month_name(m: u8) -> &'static str {
    if m == 1 { "January" }
    else if m == 2 { "February" }
    else if m == 3 { "March" }
    else if m == 4 { "April" }
    else if m == 5 { "May" }
    else if m == 6 { "June" }
    else if m == 7 { "July" }
    else if m == 8 { "August" }
    else if m == 9 { "September" }
    else if m == 10 { "October" }
    else if m == 11 { "November" }
    else if m == 12 { "December" }
    else { "Invalid Month" }
}

/// Weekday of the first of the month by Zeller's congruence, counted from
/// Monday as 0 (January and February count as months 13 and 14 of the
/// year before).
pub open spec fn first_weekday(year: int, month: int) -> int {
    let y = if month < 3 { year - 1 } else { year };
    let m = if month < 3 { month + 12 } else { month };
    let k = y % 100;
    let j = y / 100;
    let h = (1 + (13 * (m + 1)) / 5 + k + k / 4 + j / 4 + 5 * j) % 7;
    (h + 5) % 7
}

/// Days in month `month` of `year` (30 for a month out of range).
pub open spec fn month_length(year: int, month: int) -> int {
    if month == 1 || month == 3 || month == 5 || month == 7 || month == 8 || month == 10 || month == 12 {
        31
    } else if month == 4 || month == 6 || month == 9 || month == 11 {
        30
    } else if month == 2 {
        if (year % 4 == 0 && year % 100 != 0) || year % 400 == 0 { 29 } else { 28 }
    } else {
        30
    }
}

/// The sheet that `cal` prints: the title, the column (Monday first) of the
/// first day, and the number of days.
#[derive(Clone, Copy, Debug)]
pub struct Calendar {
    pub title: &'static str,
    pub first_weekday: u8,
    pub days: u8,
}

/// The month sheet for `month` of `year`.
pub fn cal(year: u16, month: u8) -> (r: Calendar)
    requires
        year >= 1,
    ensures
        r.title == month_name(month),
        r.first_weekday == first_weekday(year as int, month as int),
        r.days == month_length(year as int, month as int),
{
    let title = if month == 1 { "January" }
        else if month == 2 { "February" }
        else if month == 3 { "March" }
        else if month == 4 { "April" }
        else if month == 5 { "May" }
        else if month == 6 { "June" }
        else if month == 7 { "July" }
        else if month == 8 { "August" }
        else if month == 9 { "September" }
        else if month == 10 { "October" }
        else if month == 11 { "November" }
        else if month == 12 { "December" }
        else { "Invalid Month" };
    let y: u32 = if month < 3 {
        year as u32 - 1
    } else {
        year as u32
    };
    let m: u32 = if month < 3 {
        month as u32 + 12
    } else {
        month as u32
    };
    let k = y % 100;
    let j = y / 100;
    let h = (1 + (13 * (m + 1)) / 5 + k + k / 4 + j / 4 + 5 * j) % 7;
    let first = ((h + 5) % 7) as u8;
    let leap = (year % 4 == 0 && year % 100 != 0) || (year % 400 == 0);
    let days: u8 = if month == 1 || month == 3 || month == 5 || month == 7 || month == 8 || month == 10
        || month == 12 {
        31
    } else if month == 4 || month == 6 || month == 9 || month == 11 {
        30
    } else if month == 2 {
        if leap {
            29
        } else {
            28
        }
    } else {
        30
    };
    Calendar { title, first_weekday: first, days }
}

} // verus!
