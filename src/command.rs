use crate::error::{ErrorModel, ShellError};
use crate::parser::{commands_view, words_view, Command, CommandModel};
use vstd::prelude::*;

verus! {

/// The commands that run inside the shell's own process.
#[derive(Debug, Clone, Copy, PartialEq, Eq, Structural)]
pub enum Builtin {
    Cd,
    Pwd,
    Echo,
}

/// The built-in that a program name denotes, if any.
pub open spec fn builtin_model(program: Seq<char>) -> Option<Builtin> {
    if program == "cd"@ {
        Some(Builtin::Cd)
    } else if program == "pwd"@ {
        Some(Builtin::Pwd)
    } else if program == "echo"@ {
        Some(Builtin::Echo)
    } else {
        None
    }
}

/// Which built-in, if any, `program` names.
pub fn builtin_of(program: &String) -> (r: Option<Builtin>)
    ensures
        r == builtin_model(program@),
{
    if program.eq(&String::from_str("cd")) {
        Some(Builtin::Cd)
    } else if program.eq(&String::from_str("pwd")) {
        Some(Builtin::Pwd)
    } else if program.eq(&String::from_str("echo")) {
        Some(Builtin::Echo)
    } else {
        None
    }
}

/// The words joined by single spaces.
pub open spec fn join_words(ws: Seq<Seq<char>>) -> Seq<char>
    decreases ws.len(),
{
    if ws.len() == 0 {
        Seq::empty()
    } else if ws.len() == 1 {
        ws[0]
    } else {
        join_words(ws.drop_last()) + " "@ + ws.last()
    }
}

/// What `echo` prints: its arguments joined by single spaces, then a newline.
pub fn echo_text(args: &Vec<String>) -> (r: String)
    ensures
        r@ == join_words(words_view(args@)) + "\n"@,
{
    let mut out = String::new();
    let mut i: usize = 0;
    while i < args.len()
        invariant
            i <= args.len(),
            out@ == join_words(words_view(args@).subrange(0, i as int)),
        decreases args.len() - i,
    {
        if i > 0 {
            out.append(" ");
        }
        out.append(args[i].as_str());
        proof {
            let ws = words_view(args@).subrange(0, i + 1);
            assert(ws.drop_last() =~= words_view(args@).subrange(0, i as int));
            if i == 0 {
                assert(words_view(args@).subrange(0, 0) =~= Seq::<Seq<char>>::empty());
            }
        }
        i = i + 1;
    }
    proof {
        assert(words_view(args@).subrange(0, args.len() as int) =~= words_view(args@));
    }
    out.append("\n");
    out
}

/// What `pwd` prints: the working directory, then a newline.
pub fn pwd_text(dir: &str) -> (r: String)
    ensures
        r@ == dir@ + "\n"@,
{
    let mut out = String::from_str(dir);
    out.append("\n");
    out
}


/// The character of a decimal digit.
pub open spec fn digit_model(d: nat) -> char {
    if d == 0 {
        '0'
    } else if d == 1 {
        '1'
    } else if d == 2 {
        '2'
    } else if d == 3 {
        '3'
    } else if d == 4 {
        '4'
    } else if d == 5 {
        '5'
    } else if d == 6 {
        '6'
    } else if d == 7 {
        '7'
    } else if d == 8 {
        '8'
    } else {
        '9'
    }
}

/// The decimal digits of `n`, most significant first.
pub open spec fn digits_model(n: nat) -> Seq<char>
    decreases n,
{
    if n < 10 {
        seq![digit_model(n)]
    } else {
        digits_model(n / 10).push(digit_model(n % 10))
    }
}

/// `n` written in decimal, with a leading `-` when negative.
pub open spec fn decimal_model(n: int) -> Seq<char> {
    if n < 0 {
        seq!['-'] + digits_model((-n) as nat)
    } else {
        digits_model(n as nat)
    }
}

/// Relies on String::push: appends one character.
#[verifier::external_body]
pub(crate) fn push_char(s: &mut String, c: char)
    ensures
        final(s)@ == old(s)@.push(c),
{
    s.push(c)
}

fn digit_char(d: u32) -> (c: char)
    requires
        d < 10,
    ensures
        c == digit_model(d as nat),
{
    if d == 0 {
        '0'
    } else if d == 1 {
        '1'
    } else if d == 2 {
        '2'
    } else if d == 3 {
        '3'
    } else if d == 4 {
        '4'
    } else if d == 5 {
        '5'
    } else if d == 6 {
        '6'
    } else if d == 7 {
        '7'
    } else if d == 8 {
        '8'
    } else {
        '9'
    }
}

fn push_digits(s: &mut String, n: u32)
    ensures
        final(s)@ == old(s)@ + digits_model(n as nat),
    decreases n,
{
    if n >= 10 {
        push_digits(s, n / 10);
    }
    push_char(s, digit_char(n % 10));
    proof {
        if n < 10 {
            assert(old(s)@.push(digit_model(n as nat)) =~= old(s)@ + seq![digit_model(n as nat)]);
        } else {
            assert(old(s)@ + digits_model(n as nat) =~= (old(s)@ + digits_model(
                (n / 10) as nat,
            )).push(digit_model((n % 10) as nat)));
        }
    }
}

/// `n` written in decimal.
pub fn decimal_text(n: i32) -> (r: String)
    ensures
        r@ == decimal_model(n as int),
{
    let mut out = String::new();
    if n < 0 {
        push_char(&mut out, '-');
        let m: u32 = if n == i32::MIN {
            2147483648u32
        } else {
            (-n) as u32
        };
        push_digits(&mut out, m);
    } else {
        push_digits(&mut out, n as u32);
    }
    proof {
        assert(out@ =~= decimal_model(n as int));
    }
    out
}


/// What the shell must do next to carry a pipeline on.
pub enum Action {
    /// Write this text to standard output.
    Print(String),
    /// Change the process's working directory to this path.
    ChangeDir(String),
    /// Read the process's working directory and report it.
    QueryDir,
    /// Start the given stage's program with its arguments. Its standard
    /// input is the previous stage's captured output when
    /// `stdin_from_previous` holds, else the shell's own; its standard output
    /// is captured for the next stage when `stdout_piped` holds, else the
    /// shell's own.
    Spawn { stage: usize, stdin_from_previous: bool, stdout_piped: bool },
    /// Wait for the given stage's process to exit.
    Wait { stage: usize },
    /// The pipeline is over, with this outcome.
    Finish(Result<(), ShellError>),
}

/// What became of the last action.
pub enum Event {
    /// It was done (text printed, directory changed, process started).
    Done,
    /// The working directory, as asked for.
    Dir(String),
    /// The process could not be started; the operating system's message.
    SpawnFailed(String),
    /// The process exited; its exit code, absent when a signal ended it.
    Exited { success: bool, code: Option<i32> },
    /// The operating-system call failed.
    Failed(std::io::Error),
}

pub enum ActionModel {
    Print(Seq<char>),
    ChangeDir(Seq<char>),
    QueryDir,
    Spawn { stage: int, stdin_from_previous: bool, stdout_piped: bool },
    Wait { stage: int },
    Succeed,
    Fail(ErrorModel),
}

impl View for Action {
    type V = ActionModel;

    open spec fn view(&self) -> ActionModel {
        match self {
            Action::Print(s) => ActionModel::Print(s@),
            Action::ChangeDir(s) => ActionModel::ChangeDir(s@),
            Action::QueryDir => ActionModel::QueryDir,
            Action::Spawn { stage, stdin_from_previous, stdout_piped } => ActionModel::Spawn {
                stage: *stage as int,
                stdin_from_previous: *stdin_from_previous,
                stdout_piped: *stdout_piped,
            },
            Action::Wait { stage } => ActionModel::Wait { stage: *stage as int },
            Action::Finish(Ok(())) => ActionModel::Succeed,
            Action::Finish(Err(e)) => ActionModel::Fail(e@),
        }
    }
}

pub enum EventModel {
    Done,
    Dir(Seq<char>),
    SpawnFailed(Seq<char>),
    Exited { success: bool, code: Option<i32> },
    Failed(std::io::Error),
}

impl View for Event {
    type V = EventModel;

    open spec fn view(&self) -> EventModel {
        match self {
            Event::Done => EventModel::Done,
            Event::Dir(d) => EventModel::Dir(d@),
            Event::SpawnFailed(m) => EventModel::SpawnFailed(m@),
            Event::Exited { success, code } => EventModel::Exited {
                success: *success,
                code: *code,
            },
            Event::Failed(e) => EventModel::Failed(*e),
        }
    }
}

/// Where a pipeline stands.
#[derive(Debug, Clone, Copy, PartialEq, Eq, Structural)]
pub enum Phase {
    /// Nothing has been done yet.
    Ready,
    /// `cd` asked for a directory change.
    ChangingDir,
    /// `pwd` asked for the working directory.
    QueryingDir,
    /// A built-in asked for its text to be printed.
    Printing,
    /// The given stage was asked to start.
    Spawning(usize),
    /// The last stage was asked to be waited for.
    WaitingLast,
    /// The given earlier stage was asked to be waited for.
    Reaping(usize),
    /// The outcome has been given.
    Finished,
}

pub open spec fn no_home_text() -> Seq<char> {
    "cannot determine the HOME directory"@
}

pub open spec fn piped_builtin_text() -> Seq<char> {
    "built-in commands do not support piping"@
}

pub open spec fn stage_failed_text() -> Seq<char> {
    "a command in the pipeline failed"@
}

pub open spec fn unexpected_text() -> Seq<char> {
    "unexpected event for this step"@
}

pub open spec fn spawn_failed_text(program: Seq<char>, message: Seq<char>) -> Seq<char> {
    "cannot run '"@ + program + "': "@ + message
}

/// The exit code that a report names: -1 where there is none.
pub open spec fn reported_code(code: Option<i32>) -> int {
    match code {
        Some(c) => c as int,
        None => -1,
    }
}

pub open spec fn exit_text(program: Seq<char>, code: Option<i32>) -> Seq<char> {
    "command '"@ + program + "' exited with status "@ + decimal_model(reported_code(code))
}

/// Whether any stage names a built-in.
pub open spec fn has_builtin(cmds: Seq<CommandModel>) -> bool {
    exists|i: int| 0 <= i < cmds.len() && (#[trigger] builtin_model(cmds[i].program)) is Some
}

/// The first step of a pipeline.
///
/// A lone built-in runs in the shell's process; `cd` with no argument goes to
/// `home`. A lone external program starts with the shell's own streams. In a
/// pipeline of two stages or more no stage may be a built-in, which is checked
/// for every stage before any process starts; the first stage then starts
/// with its output captured.
pub open spec fn start_model(cmds: Seq<CommandModel>, home: Option<Seq<char>>) -> (
    Phase,
    ActionModel,
) {
    if cmds.len() == 0 {
        (Phase::Finished, ActionModel::Succeed)
    } else if cmds.len() == 1 {
        let c = cmds[0];
        match builtin_model(c.program) {
            Some(Builtin::Cd) => {
                if c.args.len() > 0 {
                    (Phase::ChangingDir, ActionModel::ChangeDir(c.args[0]))
                } else {
                    match home {
                        Some(h) => (Phase::ChangingDir, ActionModel::ChangeDir(h)),
                        None => (
                            Phase::Finished,
                            ActionModel::Fail(ErrorModel::Command(no_home_text())),
                        ),
                    }
                }
            },
            Some(Builtin::Pwd) => (Phase::QueryingDir, ActionModel::QueryDir),
            Some(Builtin::Echo) => (
                Phase::Printing,
                ActionModel::Print(join_words(c.args) + "\n"@),
            ),
            None => (
                Phase::Spawning(0),
                ActionModel::Spawn { stage: 0, stdin_from_previous: false, stdout_piped: false },
            ),
        }
    } else if has_builtin(cmds) {
        (Phase::Finished, ActionModel::Fail(ErrorModel::Command(piped_builtin_text())))
    } else {
        (
            Phase::Spawning(0),
            ActionModel::Spawn { stage: 0, stdin_from_previous: false, stdout_piped: true },
        )
    }
}

/// The step that follows `event` in `phase`.
///
/// Stages start left to right, each after the previous one started, reading
/// the previous stage's output; all but the last have their output captured.
/// The last stage is waited for as soon as it started, then the earlier ones
/// in order. The first failure ends the pipeline.
pub open spec fn advance_model(cmds: Seq<CommandModel>, phase: Phase, event: EventModel) -> (
    Phase,
    ActionModel,
) {
    let n = cmds.len();
    let unexpected = (
        Phase::Finished,
        ActionModel::Fail(ErrorModel::Command(unexpected_text())),
    );
    match event {
        EventModel::Done => match phase {
            Phase::ChangingDir => (Phase::Finished, ActionModel::Succeed),
            Phase::Printing => (Phase::Finished, ActionModel::Succeed),
            Phase::Spawning(i) => {
                if i + 1 >= n {
                    (Phase::WaitingLast, ActionModel::Wait { stage: i as int })
                } else {
                    (
                        Phase::Spawning((i + 1) as usize),
                        ActionModel::Spawn {
                            stage: i + 1,
                            stdin_from_previous: true,
                            stdout_piped: i + 2 < n,
                        },
                    )
                }
            },
            _ => unexpected,
        },
        EventModel::Dir(d) => match phase {
            Phase::QueryingDir => (Phase::Printing, ActionModel::Print(d + "\n"@)),
            _ => unexpected,
        },
        EventModel::SpawnFailed(m) => match phase {
            Phase::Spawning(i) => (
                Phase::Finished,
                ActionModel::Fail(ErrorModel::Command(spawn_failed_text(cmds[i as int].program, m))),
            ),
            _ => unexpected,
        },
        EventModel::Exited { success, code } => match phase {
            Phase::WaitingLast => {
                if !success {
                    (
                        Phase::Finished,
                        ActionModel::Fail(ErrorModel::Command(exit_text(cmds[n - 1].program, code))),
                    )
                } else if n >= 2 {
                    (Phase::Reaping(0), ActionModel::Wait { stage: 0 })
                } else {
                    (Phase::Finished, ActionModel::Succeed)
                }
            },
            Phase::Reaping(j) => {
                if !success {
                    (Phase::Finished, ActionModel::Fail(ErrorModel::Command(stage_failed_text())))
                } else if j + 2 < n {
                    (Phase::Reaping((j + 1) as usize), ActionModel::Wait { stage: j + 1 })
                } else {
                    (Phase::Finished, ActionModel::Succeed)
                }
            },
            _ => unexpected,
        },
        EventModel::Failed(e) => match phase {
            Phase::Ready => unexpected,
            Phase::Spawning(_) => unexpected,
            Phase::Finished => unexpected,
            _ => (Phase::Finished, ActionModel::Fail(ErrorModel::Io(e))),
        },
    }
}


fn command_error(text: &str) -> (r: ShellError)
    ensures
        r@ == ErrorModel::Command(text@),
{
    ShellError::CommandError(String::from_str(text))
}

fn spawn_failed_error(program: &String, message: &String) -> (r: ShellError)
    ensures
        r@ == ErrorModel::Command(spawn_failed_text(program@, message@)),
{
    let mut m = String::from_str("cannot run '");
    m.append(program.as_str());
    m.append("': ");
    m.append(message.as_str());
    ShellError::CommandError(m)
}

fn exit_error(program: &String, code: Option<i32>) -> (r: ShellError)
    ensures
        r@ == ErrorModel::Command(exit_text(program@, code)),
{
    let mut m = String::from_str("command '");
    m.append(program.as_str());
    m.append("' exited with status ");
    let c: i32 = match code {
        Some(c) => c,
        None => -1,
    };
    let digits = decimal_text(c);
    m.append(digits.as_str());
    ShellError::CommandError(m)
}

/// Whether any of `cmds` names a built-in.
fn any_builtin(cmds: &Vec<Command>) -> (r: bool)
    ensures
        r == has_builtin(commands_view(cmds@)),
{
    let mut i: usize = 0;
    while i < cmds.len()
        invariant
            i <= cmds.len(),
            forall|k: int|
                0 <= k < i ==> builtin_model((#[trigger] commands_view(cmds@)[k]).program) is None,
        decreases cmds.len() - i,
    {
        if builtin_of(&cmds[i].program).is_some() {
            proof {
                assert(commands_view(cmds@)[i as int] == cmds@[i as int]@);
            }
            return true;
        }
        proof {
            assert(commands_view(cmds@)[i as int] == cmds@[i as int]@);
        }
        i = i + 1;
    }
    false
}

/// One run of a pipeline, from its first step to its outcome.
pub struct Pipeline {
    commands: Vec<Command>,
    home: Option<String>,
    phase: Phase,
}

impl Pipeline {
    pub closed spec fn commands_model(&self) -> Seq<CommandModel> {
        commands_view(self.commands@)
    }

    pub closed spec fn home_model(&self) -> Option<Seq<char>> {
        match self.home {
            Some(h) => Some(h@),
            None => None,
        }
    }

    pub closed spec fn phase_model(&self) -> Phase {
        self.phase
    }

    /// The stage numbers that the phase names lie within the pipeline.
    #[verifier::type_invariant]
    closed spec fn well_formed(&self) -> bool {
        match self.phase {
            Phase::Spawning(i) => i < self.commands.len(),
            Phase::WaitingLast => self.commands.len() >= 1,
            Phase::Reaping(j) => j + 1 < self.commands.len(),
            _ => true,
        }
    }

    /// A pipeline of `commands`, not yet started; `home` is where a bare `cd`
    /// goes.
    pub fn new(commands: Vec<Command>, home: Option<String>) -> (r: Pipeline)
        ensures
            r.commands_model() == commands_view(commands@),
            r.home_model() == (match home {
                Some(h) => Some(h@),
                None => None::<Seq<char>>,
            }),
            r.phase_model() == Phase::Ready,
    {
        Pipeline { commands, home, phase: Phase::Ready }
    }

    /// Where the pipeline stands.
    pub fn phase(&self) -> (r: Phase)
        ensures
            r == self.phase_model(),
    {
        self.phase
    }

    /// The first step: what to do first, or the outcome at once.
    pub fn start(&mut self) -> (r: Action)
        requires
            old(self).phase_model() == Phase::Ready,
        ensures
            (final(self).phase_model(), r@) == start_model(
                old(self).commands_model(),
                old(self).home_model(),
            ),
            final(self).commands_model() == old(self).commands_model(),
    {
        let n = self.commands.len();
        if n == 0 {
            self.phase = Phase::Finished;
            return Action::Finish(Ok(()));
        }
        proof {
            assert(commands_view(self.commands@)[0] == self.commands@[0]@);
        }
        if n == 1 {
            let c = &self.commands[0];
            match builtin_of(&c.program) {
                Some(Builtin::Cd) => {
                    if c.args.len() > 0 {
                        let dir = c.args[0].clone();
                        proof {
                            assert(words_view(c.args@)[0] == c.args@[0]@);
                        }
                        self.phase = Phase::ChangingDir;
                        Action::ChangeDir(dir)
                    } else {
                        match &self.home {
                            Some(h) => {
                                let dir = h.clone();
                                self.phase = Phase::ChangingDir;
                                Action::ChangeDir(dir)
                            },
                            None => {
                                self.phase = Phase::Finished;
                                Action::Finish(
                                    Err(command_error("cannot determine the HOME directory")),
                                )
                            },
                        }
                    }
                },
                Some(Builtin::Pwd) => {
                    self.phase = Phase::QueryingDir;
                    Action::QueryDir
                },
                Some(Builtin::Echo) => {
                    let text = echo_text(&c.args);
                    self.phase = Phase::Printing;
                    Action::Print(text)
                },
                None => {
                    self.phase = Phase::Spawning(0);
                    Action::Spawn { stage: 0, stdin_from_previous: false, stdout_piped: false }
                },
            }
        } else {
            if any_builtin(&self.commands) {
                self.phase = Phase::Finished;
                return Action::Finish(Err(command_error("built-in commands do not support piping")));
            }
            self.phase = Phase::Spawning(0);
            Action::Spawn { stage: 0, stdin_from_previous: false, stdout_piped: true }
        }
    }

    /// The step that follows `event`, the outcome of the last action.
    pub fn advance(&mut self, event: Event) -> (r: Action)
        ensures
            (final(self).phase_model(), r@) == advance_model(
                old(self).commands_model(),
                old(self).phase_model(),
                event@,
            ),
            final(self).commands_model() == old(self).commands_model(),
    {
        proof {
            use_type_invariant(&*self);
        }
        let n = self.commands.len();
        match event {
            Event::Done => match self.phase {
                Phase::ChangingDir | Phase::Printing => {
                    self.phase = Phase::Finished;
                    Action::Finish(Ok(()))
                },
                Phase::Spawning(i) => {
                    if i + 1 >= n {
                        self.phase = Phase::WaitingLast;
                        Action::Wait { stage: i }
                    } else {
                        self.phase = Phase::Spawning(i + 1);
                        Action::Spawn {
                            stage: i + 1,
                            stdin_from_previous: true,
                            stdout_piped: i + 2 < n,
                        }
                    }
                },
                _ => {
                    self.phase = Phase::Finished;
                    Action::Finish(Err(command_error("unexpected event for this step")))
                },
            },
            Event::Dir(d) => match self.phase {
                Phase::QueryingDir => {
                    let text = pwd_text(d.as_str());
                    self.phase = Phase::Printing;
                    Action::Print(text)
                },
                _ => {
                    self.phase = Phase::Finished;
                    Action::Finish(Err(command_error("unexpected event for this step")))
                },
            },
            Event::SpawnFailed(m) => match self.phase {
                Phase::Spawning(i) => {
                    let e = spawn_failed_error(&self.commands[i].program, &m);
                    self.phase = Phase::Finished;
                    Action::Finish(Err(e))
                },
                _ => {
                    self.phase = Phase::Finished;
                    Action::Finish(Err(command_error("unexpected event for this step")))
                },
            },
            Event::Exited { success, code } => match self.phase {
                Phase::WaitingLast => {
                    if !success {
                        let e = exit_error(&self.commands[n - 1].program, code);
                        self.phase = Phase::Finished;
                        Action::Finish(Err(e))
                    } else if n >= 2 {
                        self.phase = Phase::Reaping(0);
                        Action::Wait { stage: 0 }
                    } else {
                        self.phase = Phase::Finished;
                        Action::Finish(Ok(()))
                    }
                },
                Phase::Reaping(j) => {
                    if !success {
                        self.phase = Phase::Finished;
                        Action::Finish(Err(command_error("a command in the pipeline failed")))
                    } else if j + 2 < n {
                        self.phase = Phase::Reaping(j + 1);
                        Action::Wait { stage: j + 1 }
                    } else {
                        self.phase = Phase::Finished;
                        Action::Finish(Ok(()))
                    }
                },
                _ => {
                    self.phase = Phase::Finished;
                    Action::Finish(Err(command_error("unexpected event for this step")))
                },
            },
            Event::Failed(e) => match self.phase {
                Phase::Ready | Phase::Spawning(_) | Phase::Finished => {
                    self.phase = Phase::Finished;
                    Action::Finish(Err(command_error("unexpected event for this step")))
                },
                _ => {
                    self.phase = Phase::Finished;
                    Action::Finish(Err(ShellError::Io(e)))
                },
            },
        }
    }
}


/// A pipeline of two stages or more in which some stage is a built-in fails
/// at its first step with the piping error, before any process starts or
/// any built-in runs.
pub proof fn lemma_piped_builtin_fails(
    cmds: Seq<CommandModel>,
    home: Option<Seq<char>>,
    i: int,
)
    requires
        cmds.len() >= 2,
        0 <= i < cmds.len(),
        builtin_model(cmds[i].program) is Some,
    ensures
        start_model(cmds, home) == (
            Phase::Finished,
            ActionModel::Fail(ErrorModel::Command(piped_builtin_text())),
        ),
{
    assert(has_builtin(cmds));
}


/// The event that reports success of the step asked for in `phase`.
pub open spec fn success_event(phase: Phase) -> EventModel {
    match phase {
        Phase::Spawning(_) => EventModel::Done,
        _ => EventModel::Exited { success: true, code: Some(0) },
    }
}

/// The next `steps` actions from `phase` when every step succeeds.
pub open spec fn run_succeeding(cmds: Seq<CommandModel>, phase: Phase, steps: nat) -> Seq<
    ActionModel,
>
    decreases steps,
{
    if steps == 0 {
        Seq::empty()
    } else {
        let (next, a) = advance_model(cmds, phase, success_event(phase));
        seq![a] + run_succeeding(cmds, next, (steps - 1) as nat)
    }
}

/// Waits for stages `from`, `from + 1`, ... up to but not including `to`.
pub open spec fn waits(from: int, to: int) -> Seq<ActionModel> {
    Seq::new((to - from) as nat, |k: int| ActionModel::Wait { stage: from + k })
}

/// Starts stages `from` .. `n - 1`, each reading the previous stage's output
/// and with its output captured unless it is the last.
pub open spec fn spawns(from: int, n: int) -> Seq<ActionModel> {
    Seq::new(
        (n - from) as nat,
        |k: int|
            ActionModel::Spawn {
                stage: from + k,
                stdin_from_previous: true,
                stdout_piped: from + k + 1 < n,
            },
    )
}

#[verifier::spinoff_prover]
proof fn lemma_reaping(cmds: Seq<CommandModel>, j: int)
    requires
        0 <= j,
        j + 1 < cmds.len(),
        cmds.len() <= usize::MAX,
    ensures
        run_succeeding(cmds, Phase::Reaping(j as usize), (cmds.len() - 1 - j) as nat) == waits(
            j + 1,
            cmds.len() - 1,
        ) + seq![ActionModel::Succeed],
    decreases cmds.len() - j,
{
    let n = cmds.len() as int;
    let steps = (n - 1 - j) as nat;
    if j + 2 < n {
        lemma_reaping(cmds, j + 1);
        assert(run_succeeding(cmds, Phase::Reaping(j as usize), steps) == seq![
            ActionModel::Wait { stage: j + 1 },
        ] + run_succeeding(cmds, Phase::Reaping((j + 1) as usize), (steps - 1) as nat));
        assert(seq![ActionModel::Wait { stage: j + 1 }] + (waits(j + 2, n - 1) + seq![
            ActionModel::Succeed,
        ]) =~= waits(j + 1, n - 1) + seq![ActionModel::Succeed]);
    } else {
        assert(run_succeeding(cmds, Phase::Finished, 0) == Seq::<ActionModel>::empty());
        assert(seq![ActionModel::Succeed] + Seq::<ActionModel>::empty() =~= waits(j + 1, n - 1)
            + seq![ActionModel::Succeed]);
    }
}

#[verifier::spinoff_prover]
proof fn lemma_spawning(cmds: Seq<CommandModel>, i: int)
    requires
        0 <= i < cmds.len(),
        cmds.len() >= 2,
        cmds.len() <= usize::MAX,
    ensures
        run_succeeding(cmds, Phase::Spawning(i as usize), (2 * cmds.len() - i) as nat) == spawns(
            i + 1,
            cmds.len() as int,
        ) + seq![ActionModel::Wait { stage: cmds.len() - 1 }] + waits(0, cmds.len() - 1) + seq![
            ActionModel::Succeed,
        ],
    decreases cmds.len() - i,
{
    let n = cmds.len() as int;
    let steps = (2 * n - i) as nat;
    let tail = waits(0, n - 1) + seq![ActionModel::Succeed];
    if i + 1 < n {
        lemma_spawning(cmds, i + 1);
        let a = ActionModel::Spawn { stage: i + 1, stdin_from_previous: true, stdout_piped: i + 2 < n };
        assert(run_succeeding(cmds, Phase::Spawning(i as usize), steps) == seq![a]
            + run_succeeding(cmds, Phase::Spawning((i + 1) as usize), (steps - 1) as nat));
        assert(seq![a] + (spawns(i + 2, n) + seq![ActionModel::Wait { stage: n - 1 }] + waits(
            0,
            n - 1,
        ) + seq![ActionModel::Succeed]) =~= spawns(i + 1, n) + seq![
            ActionModel::Wait { stage: n - 1 },
        ] + waits(0, n - 1) + seq![ActionModel::Succeed]);
    } else {
        lemma_reaping(cmds, 0);
        let w = ActionModel::Wait { stage: n - 1 };
        let w0 = ActionModel::Wait { stage: 0 };
        let rest = waits(1, n - 1) + seq![ActionModel::Succeed];
        assert(run_succeeding(cmds, Phase::WaitingLast, n as nat) == seq![w0] + run_succeeding(
            cmds,
            Phase::Reaping(0),
            (n - 1) as nat,
        ));
        assert(run_succeeding(cmds, Phase::Spawning(i as usize), steps) == seq![w]
            + run_succeeding(cmds, Phase::WaitingLast, n as nat));
        assert(seq![w0] + rest =~= tail);
        assert(seq![w] + (seq![w0] + rest) =~= spawns(i + 1, n) + seq![w] + waits(0, n - 1)
            + seq![ActionModel::Succeed]);
    }
}

/// When every step succeeds, a pipeline of two stages or more with no
/// built-in first starts stage 0 with the shell's input and its output
/// captured; then starts the other stages left to right, each reading the
/// previous stage's output and with its output captured unless it is the
/// last; then waits for the last stage, then for the others from left to
/// right, and succeeds.
pub proof fn lemma_successful_run_order(cmds: Seq<CommandModel>, home: Option<Seq<char>>)
    requires
        cmds.len() >= 2,
        cmds.len() <= usize::MAX,
        !has_builtin(cmds),
    ensures
        start_model(cmds, home) == (
            Phase::Spawning(0),
            ActionModel::Spawn { stage: 0, stdin_from_previous: false, stdout_piped: true },
        ),
        run_succeeding(cmds, Phase::Spawning(0), (2 * cmds.len()) as nat) == spawns(
            1,
            cmds.len() as int,
        ) + seq![ActionModel::Wait { stage: cmds.len() - 1 }] + waits(0, cmds.len() - 1) + seq![
            ActionModel::Succeed,
        ],
{
    lemma_spawning(cmds, 0);
}


/// The actions that follow `phase` as `events` come in, one per action.
pub open spec fn run_events(cmds: Seq<CommandModel>, phase: Phase, events: Seq<EventModel>) -> Seq<
    ActionModel,
>
    decreases events.len(),
{
    if events.len() == 0 {
        Seq::empty()
    } else {
        let (next, a) = advance_model(cmds, phase, events[0]);
        seq![a] + run_events(cmds, next, events.drop_first())
    }
}

/// `count` reports that a step was done, then a report that the next
/// process could not start, with the operating system's `message`.
pub open spec fn started_then_spawn_failure(count: int, message: Seq<char>) -> Seq<EventModel> {
    Seq::new(count as nat, |k: int| EventModel::Done).push(EventModel::SpawnFailed(message))
}

#[verifier::spinoff_prover]
proof fn lemma_spawn_failure_from(cmds: Seq<CommandModel>, i: int, message: Seq<char>)
    requires
        0 <= i < cmds.len(),
        cmds.len() <= usize::MAX,
    ensures
        run_events(
            cmds,
            Phase::Spawning(i as usize),
            started_then_spawn_failure(cmds.len() - 1 - i, message),
        ) == spawns(i + 1, cmds.len() as int).push(
            ActionModel::Fail(
                ErrorModel::Command(spawn_failed_text(cmds[cmds.len() - 1].program, message)),
            ),
        ),
    decreases cmds.len() - i,
{
    let n = cmds.len() as int;
    let evs = started_then_spawn_failure(n - 1 - i, message);
    let fail = ActionModel::Fail(
        ErrorModel::Command(spawn_failed_text(cmds[n - 1].program, message)),
    );
    if i + 1 < n {
        lemma_spawn_failure_from(cmds, i + 1, message);
        assert(evs[0] == EventModel::Done);
        assert(evs.drop_first() =~= started_then_spawn_failure(n - 2 - i, message));
        let a = ActionModel::Spawn { stage: i + 1, stdin_from_previous: true, stdout_piped: i + 2 < n };
        assert(run_events(cmds, Phase::Spawning(i as usize), evs) == seq![a] + run_events(
            cmds,
            Phase::Spawning((i + 1) as usize),
            evs.drop_first(),
        ));
        assert(seq![a] + spawns(i + 2, n).push(fail) =~= spawns(i + 1, n).push(fail));
    } else {
        assert(evs =~= seq![EventModel::SpawnFailed(message)]);
        assert(evs.drop_first() =~= Seq::<EventModel>::empty());
        assert(run_events(cmds, Phase::Spawning(i as usize), evs) == seq![fail] + run_events(
            cmds,
            Phase::Finished,
            evs.drop_first(),
        ));
        assert(seq![fail] + Seq::<ActionModel>::empty() =~= spawns(i + 1, n).push(fail));
    }
}

/// When the last program of a pipeline of two stages or more with no
/// built-in cannot start: every earlier stage is started, left to right and
/// wired as in a successful run, then the pipeline ends with a command error
/// that names the last program and the operating system's message. No
/// process is waited for.
pub proof fn lemma_last_spawn_failure(
    cmds: Seq<CommandModel>,
    home: Option<Seq<char>>,
    message: Seq<char>,
)
    requires
        cmds.len() >= 2,
        cmds.len() <= usize::MAX,
        !has_builtin(cmds),
    ensures
        start_model(cmds, home) == (
            Phase::Spawning(0),
            ActionModel::Spawn { stage: 0, stdin_from_previous: false, stdout_piped: true },
        ),
        run_events(
            cmds,
            Phase::Spawning(0),
            started_then_spawn_failure(cmds.len() - 1, message),
        ) == spawns(1, cmds.len() as int).push(
            ActionModel::Fail(
                ErrorModel::Command(spawn_failed_text(cmds[cmds.len() - 1].program, message)),
            ),
        ),
{
    lemma_spawn_failure_from(cmds, 0, message);
}

} // verus!
