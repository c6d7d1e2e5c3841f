//! The command line: which command is meant, and the options of each command.

use crate::crontab;
use crate::crontab::Duration;
use crate::daemon::DaemonConfig;
use crate::history;
use crate::text;
use crate::time;
use crate::time::DateTime;
use vstd::prelude::*;
use vstd::string::*;

verus! {

/// The version of the program.
pub const VERSION: &'static str = "0.1.0";

/// The help text of the program.
pub const HELP: &'static str = "\
chrond — memory-safe cron with catch-up, run history, log rotation and alerting

USAGE:
    chrond <COMMAND> [OPTIONS]

COMMANDS:
    run       Run the scheduler daemon in the foreground
    check     Validate a crontab file and preview upcoming runs
    runs      Query the structured run history
    status    Show the latest outcome and next run per job

OPTIONS:
    -h, --help       Print this help
    -V, --version    Print version

Run 'chrond <COMMAND> --help' for command-specific options.";

/// The help text of `chrond run`.
pub const RUN_HELP: &'static str = "\
chrond run — run the scheduler daemon in the foreground

USAGE:
    chrond run --file <CRONTAB> [OPTIONS]

OPTIONS:
    -f, --file <PATH>       Crontab file to load (required)
    -s, --state <DIR>       State directory for history/state/logs
                            [default: $XDG_STATE_HOME/chrond or ~/.local/state/chrond]
        --system            Parse system crontab format (sixth user column)
        --metrics <ADDR>    Serve Prometheus /metrics and /health on ADDR
                            (bind 127.0.0.1:PORT unless you know better)
        --ntfy <URL>        Send ntfy notifications to this topic URL
        --exit-after <DUR>  Stop after DUR (e.g. 30s, 5m); for CI and smoke tests
    -h, --help              Print this help";

/// The help text of `chrond check`.
pub const CHECK_HELP: &'static str = "\
chrond check — validate a crontab file and preview upcoming runs

USAGE:
    chrond check <CRONTAB> [OPTIONS]

OPTIONS:
    -f, --file <PATH>    Crontab file (alternative to the positional argument)
        --system         Parse system crontab format (sixth user column)
    -n, --next <N>       Show the next N occurrences per job [default: 3]
    -h, --help           Print this help";

/// The help text of `chrond runs`.
pub const RUNS_HELP: &'static str = "\
chrond runs — query the structured run history

USAGE:
    chrond runs [OPTIONS]

OPTIONS:
    -s, --state <DIR>    State directory [default: $XDG_STATE_HOME/chrond or ~/.local/state/chrond]
        --job <NAME>     Only records for this job
        --since <DUR>    Only records scheduled within the last DUR (e.g. 24h, 7d)
        --failed         Only failures (failed, timeout, spawn_error)
        --json           Output JSON lines instead of a table
        --limit <N>      Show at most the newest N records [default: 20]
    -h, --help           Print this help";

/// The help text of `chrond status`.
pub const STATUS_HELP: &'static str = "\
chrond status — show the latest outcome and next run per job

USAGE:
    chrond status [OPTIONS]

OPTIONS:
    -s, --state <DIR>    State directory [default: $XDG_STATE_HOME/chrond or ~/.local/state/chrond]
    -f, --file <PATH>    Crontab file (enables the NEXT RUN column)
        --system         Parse system crontab format (sixth user column)
    -h, --help           Print this help";

/// Errors carrying the intended process exit code.
#[derive(Debug, Clone)]
pub struct CliError {
    pub message: String,
    pub code: i32,
}

/// An error in the use of the command line.
pub fn usage_err(message: String) -> (r: CliError)
    ensures
        r.message@ == message@,
        r.code == 2,
{
    CliError { message, code: 2 }
}

/// An error in carrying out a command.
pub fn run_err(message: String) -> (r: CliError)
    ensures
        r.message@ == message@,
        r.code == 1,
{
    CliError { message, code: 1 }
}

// ---------------------------------------------------------------------------
// Commands
// ---------------------------------------------------------------------------

/// What the program is asked to do.
#[derive(Debug, Clone, Copy, PartialEq, Eq, Structural)]
pub enum Command {
    Help,
    Version,
    Run,
    Check,
    Runs,
    Status,
}

/// The command that the first argument names.
pub open spec fn command_of(argv: Seq<Seq<char>>) -> Result<Command, Seq<char>> {
    if argv.len() == 0 {
        Err("missing command"@)
    } else {
        let c = argv[0];
        if c == "-h"@ || c == "--help"@ || c == "help"@ {
            Ok(Command::Help)
        } else if c == "-V"@ || c == "--version"@ || c == "version"@ {
            Ok(Command::Version)
        } else if c == "run"@ {
            Ok(Command::Run)
        } else if c == "check"@ {
            Ok(Command::Check)
        } else if c == "runs"@ {
            Ok(Command::Runs)
        } else if c == "status"@ {
            Ok(Command::Status)
        } else {
            Err("unknown command '"@ + c + "' (try 'chrond --help')"@)
        }
    }
}

/// Whether `tok` is one of two spellings of an option.
fn is_option(tok: &String, short: &str, long: &str) -> (r: bool)
    ensures
        r == (tok@ == short@ || tok@ == long@),
{
    text::str_eq(tok.as_str(), short) || text::str_eq(tok.as_str(), long)
}

/// The command that the first argument names.
pub fn command(argv: &Vec<String>) -> (r: Result<Command, CliError>)
    ensures
        match r {
            Ok(c) => command_of(text::strings(argv@)) == Ok::<Command, Seq<char>>(c),
            Err(e) => e.code == 2 && command_of(text::strings(argv@)) == Err::<Command, Seq<char>>(
                e.message@,
            ),
        },
{
    if argv.len() == 0 {
        return Err(usage_err("missing command".to_owned()));
    }
    let c = &argv[0];
    assert(text::strings(argv@)[0] == c@);
    if is_option(c, "-h", "--help") || text::str_eq(c.as_str(), "help") {
        Ok(Command::Help)
    } else if is_option(c, "-V", "--version") || text::str_eq(c.as_str(), "version") {
        Ok(Command::Version)
    } else if text::str_eq(c.as_str(), "run") {
        Ok(Command::Run)
    } else if text::str_eq(c.as_str(), "check") {
        Ok(Command::Check)
    } else if text::str_eq(c.as_str(), "runs") {
        Ok(Command::Runs)
    } else if text::str_eq(c.as_str(), "status") {
        Ok(Command::Status)
    } else {
        Err(usage_err(text::surround("unknown command '", c.as_str(), "' (try 'chrond --help')")))
    }
}

/// The state directory where none is given: `$CHROND_STATE`, or a directory
/// below `$XDG_STATE_HOME` or `$HOME`, or one in the current directory.
pub open spec fn state_dir_of(
    chrond_state: Option<Seq<char>>,
    xdg_state_home: Option<Seq<char>>,
    home: Option<Seq<char>>,
) -> Seq<char> {
    match (chrond_state, xdg_state_home, home) {
        (Some(dir), _, _) => dir,
        (None, Some(dir), _) => text::joined(dir, "chrond"@),
        (None, None, Some(dir)) => text::joined(dir, ".local/state/chrond"@),
        (None, None, None) => ".chrond-state"@,
    }
}

/// The state directory where none is given, from the values of `CHROND_STATE`,
/// `XDG_STATE_HOME` and `HOME`.
pub fn default_state_dir(
    chrond_state: Option<&str>,
    xdg_state_home: Option<&str>,
    home: Option<&str>,
) -> (r: String)
    ensures
        r@ == state_dir_of(
            history::opt_str(chrond_state),
            history::opt_str(xdg_state_home),
            history::opt_str(home),
        ),
{
    if let Some(dir) = chrond_state {
        return dir.to_owned();
    }
    if let Some(dir) = xdg_state_home {
        return text::join_path(dir, "chrond");
    }
    if let Some(dir) = home {
        return text::join_path(dir, ".local/state/chrond");
    }
    ".chrond-state".to_owned()
}

/// The arguments of a command, and how many of them have been read.
pub struct Args {
    tokens: Vec<String>,
    pos: usize,
}

impl View for Args {
    type V = Seq<Seq<char>>;

    /// The arguments that have not been read.
    closed spec fn view(&self) -> Seq<Seq<char>> {
        text::strings(self.tokens@).skip(self.pos as int)
    }
}

/// The message about an option without its value.
pub open spec fn needs_value(flag: Seq<char>) -> Seq<char> {
    flag + " requires a value"@
}

impl Args {
    /// Whether no more has been read than there is.
    pub closed spec fn wf(self) -> bool {
        self.pos <= self.tokens@.len()
    }

    /// The arguments after the command itself.
    pub fn new(argv: Vec<String>) -> (r: Args)
        ensures
            r.wf(),
            r@ == (if argv@.len() > 0 {
                text::strings(argv@).skip(1)
            } else {
                seq![]
            }),
    {
        let pos: usize = if argv.len() > 0 {
            1
        } else {
            0
        };
        let r = Args { tokens: argv, pos };
        assert(argv@.len() == 0 ==> r@ =~= seq![]);
        r
    }

    /// The next argument.
    fn next(&mut self) -> (r: Option<String>)
        requires
            old(self).wf(),
        ensures
            final(self).wf(),
            match r {
                Some(t) => old(self)@.len() > 0 && t@ == old(self)@[0] && final(self)@ == old(
                    self,
                )@.skip(1),
                None => old(self)@.len() == 0 && final(self)@ == old(self)@,
            },
    {
        if self.pos < self.tokens.len() {
            let t = self.tokens[self.pos].clone();
            let ghost before = self@;
            assert(before[0] == t@);
            self.pos = self.pos + 1;
            assert(self@ =~= before.skip(1));
            Some(t)
        } else {
            None
        }
    }

    /// The value of the option `flag`: the next argument.
    fn next_value(&mut self, flag: &str) -> (r: Result<String, CliError>)
        requires
            old(self).wf(),
        ensures
            final(self).wf(),
            match r {
                Ok(t) => old(self)@.len() > 0 && t@ == old(self)@[0] && final(self)@ == old(
                    self,
                )@.skip(1),
                Err(e) => old(self)@.len() == 0 && e.code == 2 && e.message@ == needs_value(flag@),
            },
    {
        match self.next() {
            Some(t) => Ok(t),
            None => {
                let mut message = flag.to_owned();
                message.append(" requires a value");
                Err(usage_err(message))
            },
        }
    }
}


// ---------------------------------------------------------------------------
// Options
// ---------------------------------------------------------------------------

/// Whether a text is one of two spellings of an option.
pub open spec fn spells(tok: Seq<char>, short: Seq<char>, long: Seq<char>) -> bool {
    tok == short || tok == long
}

/// The message about an option that a command does not have.
pub open spec fn unknown_option(tok: Seq<char>, command: Seq<char>) -> Seq<char> {
    "unknown option '"@ + tok + "' for "@ + command
}

fn unknown(tok: &String, command: &str) -> (r: CliError)
    ensures
        r.code == 2,
        r.message@ == unknown_option(tok@, command@),
{
    let mut message = "unknown option '".to_owned();
    message.append(tok.as_str());
    message.append("' for ");
    message.append(command);
    usage_err(message)
}

/// The options of `chrond run`.
#[derive(Debug, Clone)]
pub struct RunOptions {
    pub file: Option<String>,
    pub state: String,
    pub system_mode: bool,
    pub metrics_addr: Option<String>,
    pub ntfy_url: Option<String>,
    pub exit_after: Option<Duration>,
}

/// What the options of `chrond run` say.
pub struct RunView {
    pub file: Option<Seq<char>>,
    pub state: Seq<char>,
    pub system_mode: bool,
    pub metrics_addr: Option<Seq<char>>,
    pub ntfy_url: Option<Seq<char>>,
    pub exit_after: Option<int>,
}

/// The seconds of an optional span.
pub open spec fn opt_secs(d: Option<Duration>) -> Option<int> {
    match d {
        Some(x) => Some(x.secs as int),
        None => None,
    }
}

impl View for RunOptions {
    type V = RunView;

    open spec fn view(&self) -> RunView {
        RunView {
            file: crontab::opt_text(self.file),
            state: self.state@,
            system_mode: self.system_mode,
            metrics_addr: crontab::opt_text(self.metrics_addr),
            ntfy_url: crontab::opt_text(self.ntfy_url),
            exit_after: opt_secs(self.exit_after),
        }
    }
}

/// The options of `chrond run` after reading the arguments `rest`, or none
/// where help is asked for.
pub open spec fn run_options_of(rest: Seq<Seq<char>>, o: RunView) -> Result<
    Option<RunView>,
    Seq<char>,
>
    decreases rest.len(),
{
    if rest.len() == 0 {
        Ok(Some(o))
    } else {
        let tok = rest[0];
        let value = rest[1];
        if spells(tok, "-f"@, "--file"@) {
            if rest.len() < 2 {
                Err(needs_value(tok))
            } else {
                run_options_of(rest.skip(1).skip(1), RunView { file: Some(value), ..o })
            }
        } else if spells(tok, "-s"@, "--state"@) {
            if rest.len() < 2 {
                Err(needs_value(tok))
            } else {
                run_options_of(rest.skip(1).skip(1), RunView { state: value, ..o })
            }
        } else if tok == "--system"@ {
            run_options_of(rest.skip(1), RunView { system_mode: true, ..o })
        } else if tok == "--metrics"@ {
            if rest.len() < 2 {
                Err(needs_value(tok))
            } else {
                run_options_of(rest.skip(1).skip(1), RunView { metrics_addr: Some(value), ..o })
            }
        } else if tok == "--ntfy"@ {
            if rest.len() < 2 {
                Err(needs_value(tok))
            } else {
                run_options_of(rest.skip(1).skip(1), RunView { ntfy_url: Some(value), ..o })
            }
        } else if tok == "--exit-after"@ {
            if rest.len() < 2 {
                Err(needs_value(tok))
            } else {
                match crontab::duration_of(value) {
                    Ok(d) => run_options_of(
                        rest.skip(1).skip(1),
                        RunView { exit_after: Some(d), ..o },
                    ),
                    Err(e) => Err(e),
                }
            }
        } else if spells(tok, "-h"@, "--help"@) {
            Ok(None)
        } else {
            Err(unknown_option(tok, "run"@))
        }
    }
}

/// What `chrond run` is asked to do, or none where help is asked for.
pub open spec fn run_config_of(rest: Seq<Seq<char>>, default_state: Seq<char>) -> Result<
    Option<RunView>,
    Seq<char>,
> {
    let o = RunView {
        file: None,
        state: default_state,
        system_mode: false,
        metrics_addr: None,
        ntfy_url: None,
        exit_after: None,
    };
    match run_options_of(rest, o) {
        Ok(Some(o)) => if o.file is None {
            Err("run requires --file <CRONTAB>"@)
        } else {
            Ok(Some(o))
        },
        other => other,
    }
}

/// What a daemon configuration says.
pub open spec fn config_view(c: DaemonConfig) -> RunView {
    RunView {
        file: Some(c.crontab_path@),
        state: c.state_dir@,
        system_mode: c.system_mode,
        metrics_addr: crontab::opt_text(c.metrics_addr),
        ntfy_url: crontab::opt_text(c.ntfy_url),
        exit_after: opt_secs(c.exit_after),
    }
}

/// The options of `chrond run`, or none where help is asked for.
fn run_options(args: Args, default_state: String) -> (r: Result<Option<RunOptions>, CliError>)
    requires
        args.wf(),
    ensures
        ({
            let o = RunView {
                file: None,
                state: default_state@,
                system_mode: false,
                metrics_addr: None,
                ntfy_url: None,
                exit_after: None,
            };
            match r {
                Ok(Some(x)) => run_options_of(args@, o) == Ok::<Option<RunView>, Seq<char>>(
                    Some(x@),
                ),
                Ok(None) => run_options_of(args@, o) == Ok::<Option<RunView>, Seq<char>>(None),
                Err(e) => e.code == 2 && run_options_of(args@, o) == Err::<
                    Option<RunView>,
                    Seq<char>,
                >(e.message@),
            }
        }),
{
    let mut rest = args;
    let mut o = RunOptions {
        file: None,
        state: default_state,
        system_mode: false,
        metrics_addr: None,
        ntfy_url: None,
        exit_after: None,
    };
    let ghost first = o@;
    loop
        invariant
            rest.wf(),
            run_options_of(rest@, o@) == run_options_of(args@, first),
            first == (RunView {
                file: None,
                state: default_state@,
                system_mode: false,
                metrics_addr: None,
                ntfy_url: None,
                exit_after: None,
            }),
        decreases rest@.len(),
    {
        let tok = match rest.next() {
            Some(t) => t,
            None => {
                return Ok(Some(o));
            },
        };
        if is_option(&tok, "-f", "--file") {
            match rest.next_value(tok.as_str()) {
                Ok(v) => {
                    o.file = Some(v);
                },
                Err(e) => {
                    return Err(e);
                },
            }
        } else if is_option(&tok, "-s", "--state") {
            match rest.next_value(tok.as_str()) {
                Ok(v) => {
                    o.state = v;
                },
                Err(e) => {
                    return Err(e);
                },
            }
        } else if text::str_eq(tok.as_str(), "--system") {
            o.system_mode = true;
        } else if text::str_eq(tok.as_str(), "--metrics") {
            match rest.next_value(tok.as_str()) {
                Ok(v) => {
                    o.metrics_addr = Some(v);
                },
                Err(e) => {
                    return Err(e);
                },
            }
        } else if text::str_eq(tok.as_str(), "--ntfy") {
            match rest.next_value(tok.as_str()) {
                Ok(v) => {
                    o.ntfy_url = Some(v);
                },
                Err(e) => {
                    return Err(e);
                },
            }
        } else if text::str_eq(tok.as_str(), "--exit-after") {
            match rest.next_value(tok.as_str()) {
                Ok(v) => match crontab::parse_duration(v.as_str()) {
                    Ok(d) => {
                        o.exit_after = Some(d);
                    },
                    Err(e) => {
                        return Err(usage_err(e));
                    },
                },
                Err(e) => {
                    return Err(e);
                },
            }
        } else if is_option(&tok, "-h", "--help") {
            return Ok(None);
        } else {
            return Err(unknown(&tok, "run"));
        }
    }
}

/// What `chrond run` is asked to do, or none where help is asked for.
pub fn run_config(args: Args, default_state: String) -> (r: Result<Option<DaemonConfig>, CliError>)
    requires
        args.wf(),
    ensures
        match r {
            Ok(Some(c)) => run_config_of(args@, default_state@) == Ok::<
                Option<RunView>,
                Seq<char>,
            >(Some(config_view(c))),
            Ok(None) => run_config_of(args@, default_state@) == Ok::<Option<RunView>, Seq<char>>(
                None,
            ),
            Err(e) => e.code == 2 && run_config_of(args@, default_state@) == Err::<
                Option<RunView>,
                Seq<char>,
            >(e.message@),
        },
{
    match run_options(args, default_state) {
        Ok(Some(o)) => match o.file {
            Some(file) => Ok(
                Some(
                    DaemonConfig {
                        crontab_path: file,
                        state_dir: o.state,
                        system_mode: o.system_mode,
                        metrics_addr: o.metrics_addr,
                        ntfy_url: o.ntfy_url,
                        exit_after: o.exit_after,
                    },
                ),
            ),
            None => Err(usage_err("run requires --file <CRONTAB>".to_owned())),
        },
        Ok(None) => Ok(None),
        Err(e) => Err(e),
    }
}


/// The options of `chrond check`.
#[derive(Debug, Clone)]
pub struct CheckOptions {
    pub file: Option<String>,
    pub system_mode: bool,
    /// How many occurrences to show for each job.
    pub next_n: usize,
}

/// What the options of `chrond check` say.
pub struct CheckView {
    pub file: Option<Seq<char>>,
    pub system_mode: bool,
    pub next_n: nat,
}

impl View for CheckOptions {
    type V = CheckView;

    open spec fn view(&self) -> CheckView {
        CheckView {
            file: crontab::opt_text(self.file),
            system_mode: self.system_mode,
            next_n: self.next_n as nat,
        }
    }
}

/// The message about a value that is not a number.
pub open spec fn not_a_number(flag: Seq<char>, value: Seq<char>) -> Seq<char> {
    flag + " expects a number, got '"@ + value + "'"@
}

/// The number that is the value of the option `flag`.
fn parse_number(flag: &str, value: &String) -> (r: Result<usize, CliError>)
    ensures
        match r {
            Ok(n) => text::unsigned_of(value@, usize::MAX as nat) == Some(n as nat),
            Err(e) => e.code == 2 && e.message@ == not_a_number(flag@, value@)
                && text::unsigned_of(value@, usize::MAX as nat) is None,
        },
{
    let chars = text::chars_of(value.as_str());
    match text::parse_unsigned(chars.as_slice(), usize::MAX as u64) {
        Some(n) => Ok(n as usize),
        None => {
            let mut message = flag.to_owned();
            message.append(" expects a number, got '");
            message.append(value.as_str());
            message.append("'");
            Err(usage_err(message))
        },
    }
}

/// The options of `chrond check` after reading the arguments `rest`, or none
/// where help is asked for.
pub open spec fn check_options_of(rest: Seq<Seq<char>>, o: CheckView) -> Result<
    Option<CheckView>,
    Seq<char>,
>
    decreases rest.len(),
{
    if rest.len() == 0 {
        Ok(Some(o))
    } else {
        let tok = rest[0];
        let value = rest[1];
        if spells(tok, "-f"@, "--file"@) {
            if rest.len() < 2 {
                Err(needs_value(tok))
            } else {
                check_options_of(rest.skip(1).skip(1), CheckView { file: Some(value), ..o })
            }
        } else if tok == "--system"@ {
            check_options_of(rest.skip(1), CheckView { system_mode: true, ..o })
        } else if spells(tok, "-n"@, "--next"@) {
            if rest.len() < 2 {
                Err(needs_value(tok))
            } else {
                match text::unsigned_of(value, usize::MAX as nat) {
                    Some(n) => check_options_of(
                        rest.skip(1).skip(1),
                        CheckView { next_n: n, ..o },
                    ),
                    None => Err(not_a_number("--next"@, value)),
                }
            }
        } else if spells(tok, "-h"@, "--help"@) {
            Ok(None)
        } else if (tok.len() == 0 || tok[0] != '-') && o.file is None {
            check_options_of(rest.skip(1), CheckView { file: Some(tok), ..o })
        } else {
            Err(unknown_option(tok, "check"@))
        }
    }
}

/// What `chrond check` is asked to do, or none where help is asked for.
pub open spec fn check_config_of(rest: Seq<Seq<char>>) -> Result<Option<CheckView>, Seq<char>> {
    match check_options_of(rest, CheckView { file: None, system_mode: false, next_n: 3 }) {
        Ok(Some(o)) => if o.file is None {
            Err("check requires a crontab file"@)
        } else {
            Ok(Some(o))
        },
        other => other,
    }
}

/// What `chrond check` is asked to do, or none where help is asked for.
pub fn check_config(args: Args) -> (r: Result<Option<CheckOptions>, CliError>)
    requires
        args.wf(),
    ensures
        match r {
            Ok(Some(o)) => check_config_of(args@) == Ok::<Option<CheckView>, Seq<char>>(Some(o@))
                && o.file is Some,
            Ok(None) => check_config_of(args@) == Ok::<Option<CheckView>, Seq<char>>(None),
            Err(e) => e.code == 2 && check_config_of(args@) == Err::<Option<CheckView>, Seq<char>>(
                e.message@,
            ),
        },
{
    let mut rest = args;
    let mut o = CheckOptions { file: None, system_mode: false, next_n: 3 };
    let ghost first = o@;
    loop
        invariant
            rest.wf(),
            check_options_of(rest@, o@) == check_options_of(args@, first),
            first == (CheckView { file: None, system_mode: false, next_n: 3 }),
        decreases rest@.len(),
    {
        let tok = match rest.next() {
            Some(t) => t,
            None => {
                if o.file.is_none() {
                    return Err(usage_err("check requires a crontab file".to_owned()));
                }
                return Ok(Some(o));
            },
        };
        if is_option(&tok, "-f", "--file") {
            match rest.next_value(tok.as_str()) {
                Ok(v) => {
                    o.file = Some(v);
                },
                Err(e) => {
                    return Err(e);
                },
            }
        } else if text::str_eq(tok.as_str(), "--system") {
            o.system_mode = true;
        } else if is_option(&tok, "-n", "--next") {
            match rest.next_value(tok.as_str()) {
                Ok(v) => match parse_number("--next", &v) {
                    Ok(n) => {
                        o.next_n = n;
                    },
                    Err(e) => {
                        return Err(e);
                    },
                },
                Err(e) => {
                    return Err(e);
                },
            }
        } else if is_option(&tok, "-h", "--help") {
            return Ok(None);
        } else {
            let chars = text::chars_of(tok.as_str());
            if (chars.len() == 0 || chars[0] != '-') && o.file.is_none() {
                o.file = Some(tok);
            } else {
                return Err(unknown(&tok, "check"));
            }
        }
    }
}

/// The options of `chrond runs`.
#[derive(Debug, Clone)]
pub struct RunsOptions {
    pub state: String,
    pub job: Option<String>,
    pub since: Option<DateTime>,
    pub failed: bool,
    pub json: bool,
    pub limit: usize,
}

/// What the options of `chrond runs` say.
pub struct RunsView {
    pub state: Seq<char>,
    pub job: Option<Seq<char>>,
    pub since: Option<DateTime>,
    pub failed: bool,
    pub json: bool,
    pub limit: nat,
}

impl View for RunsOptions {
    type V = RunsView;

    open spec fn view(&self) -> RunsView {
        RunsView {
            state: self.state@,
            job: crontab::opt_text(self.job),
            since: self.since,
            failed: self.failed,
            json: self.json,
            limit: self.limit as nat,
        }
    }
}

/// The time that lies the duration `v` before `now`, or what is wrong with it.
pub open spec fn since_of(v: Seq<char>, now: DateTime) -> Result<DateTime, Seq<char>> {
    match crontab::duration_of(v) {
        Ok(secs) => if secs <= time::MAX_SECONDS && time::moved(now, -secs) is Some {
            Ok(time::moved(now, -secs)->0)
        } else {
            Err("invalid duration '"@ + v + "'"@)
        },
        Err(e) => Err(e),
    }
}

/// The time that lies the duration `v` before `now`. A duration that goes back
/// before the first year that a date can have is an error.
pub fn parse_since(v: &str, now: DateTime) -> (r: Result<DateTime, CliError>)
    requires
        now.valid(),
    ensures
        match r {
            Ok(t) => t.valid() && since_of(v@, now) == Ok::<DateTime, Seq<char>>(t),
            Err(e) => e.code == 2 && since_of(v@, now) == Err::<DateTime, Seq<char>>(e.message@),
        },
{
    match crontab::parse_duration(v) {
        Ok(d) => match time::seconds_before(now, d.as_secs()) {
            Some(t) => Ok(t),
            None => Err(usage_err(text::surround("invalid duration '", v, "'"))),
        },
        Err(e) => Err(usage_err(e)),
    }
}

/// The options of `chrond runs` after reading the arguments `rest`, or none
/// where help is asked for.
pub open spec fn runs_options_of(rest: Seq<Seq<char>>, o: RunsView, now: DateTime) -> Result<
    Option<RunsView>,
    Seq<char>,
>
    decreases rest.len(),
{
    if rest.len() == 0 {
        Ok(Some(o))
    } else {
        let tok = rest[0];
        let value = rest[1];
        if spells(tok, "-s"@, "--state"@) {
            if rest.len() < 2 {
                Err(needs_value(tok))
            } else {
                runs_options_of(rest.skip(1).skip(1), RunsView { state: value, ..o }, now)
            }
        } else if tok == "--job"@ {
            if rest.len() < 2 {
                Err(needs_value(tok))
            } else {
                runs_options_of(rest.skip(1).skip(1), RunsView { job: Some(value), ..o }, now)
            }
        } else if tok == "--since"@ {
            if rest.len() < 2 {
                Err(needs_value(tok))
            } else {
                match since_of(value, now) {
                    Ok(t) => runs_options_of(
                        rest.skip(1).skip(1),
                        RunsView { since: Some(t), ..o },
                        now,
                    ),
                    Err(e) => Err(e),
                }
            }
        } else if tok == "--failed"@ {
            runs_options_of(rest.skip(1), RunsView { failed: true, ..o }, now)
        } else if tok == "--json"@ {
            runs_options_of(rest.skip(1), RunsView { json: true, ..o }, now)
        } else if tok == "--limit"@ {
            if rest.len() < 2 {
                Err(needs_value(tok))
            } else {
                match text::unsigned_of(value, usize::MAX as nat) {
                    Some(n) => runs_options_of(
                        rest.skip(1).skip(1),
                        RunsView { limit: n, ..o },
                        now,
                    ),
                    None => Err(not_a_number("--limit"@, value)),
                }
            }
        } else if spells(tok, "-h"@, "--help"@) {
            Ok(None)
        } else {
            Err(unknown_option(tok, "runs"@))
        }
    }
}

/// The options of `chrond runs` before any argument is read.
pub open spec fn runs_defaults(default_state: Seq<char>) -> RunsView {
    RunsView {
        state: default_state,
        job: None,
        since: None,
        failed: false,
        json: false,
        limit: 20,
    }
}

/// What `chrond runs` is asked to do, or none where help is asked for.
pub fn runs_config(args: Args, default_state: String, now: DateTime) -> (r: Result<
    Option<RunsOptions>,
    CliError,
>)
    requires
        args.wf(),
        now.valid(),
    ensures
        ({
            let asked = runs_options_of(args@, runs_defaults(default_state@), now);
            match r {
                Ok(Some(o)) => asked == Ok::<Option<RunsView>, Seq<char>>(Some(o@)),
                Ok(None) => asked == Ok::<Option<RunsView>, Seq<char>>(None),
                Err(e) => e.code == 2 && asked == Err::<Option<RunsView>, Seq<char>>(e.message@),
            }
        }),
{
    let mut rest = args;
    let mut o = RunsOptions {
        state: default_state,
        job: None,
        since: None,
        failed: false,
        json: false,
        limit: 20,
    };
    let ghost first = o@;
    loop
        invariant
            rest.wf(),
            now.valid(),
            runs_options_of(rest@, o@, now) == runs_options_of(args@, first, now),
            first == runs_defaults(default_state@),
        decreases rest@.len(),
    {
        let tok = match rest.next() {
            Some(t) => t,
            None => {
                return Ok(Some(o));
            },
        };
        if is_option(&tok, "-s", "--state") {
            match rest.next_value(tok.as_str()) {
                Ok(v) => {
                    o.state = v;
                },
                Err(e) => {
                    return Err(e);
                },
            }
        } else if text::str_eq(tok.as_str(), "--job") {
            match rest.next_value(tok.as_str()) {
                Ok(v) => {
                    o.job = Some(v);
                },
                Err(e) => {
                    return Err(e);
                },
            }
        } else if text::str_eq(tok.as_str(), "--since") {
            match rest.next_value(tok.as_str()) {
                Ok(v) => match parse_since(v.as_str(), now) {
                    Ok(t) => {
                        o.since = Some(t);
                    },
                    Err(e) => {
                        return Err(e);
                    },
                },
                Err(e) => {
                    return Err(e);
                },
            }
        } else if text::str_eq(tok.as_str(), "--failed") {
            o.failed = true;
        } else if text::str_eq(tok.as_str(), "--json") {
            o.json = true;
        } else if text::str_eq(tok.as_str(), "--limit") {
            match rest.next_value(tok.as_str()) {
                Ok(v) => match parse_number("--limit", &v) {
                    Ok(n) => {
                        o.limit = n;
                    },
                    Err(e) => {
                        return Err(e);
                    },
                },
                Err(e) => {
                    return Err(e);
                },
            }
        } else if is_option(&tok, "-h", "--help") {
            return Ok(None);
        } else {
            return Err(unknown(&tok, "runs"));
        }
    }
}

/// The options of `chrond status`.
#[derive(Debug, Clone)]
pub struct StatusOptions {
    pub state: String,
    pub file: Option<String>,
    pub system_mode: bool,
}

/// What the options of `chrond status` say.
pub struct StatusView {
    pub state: Seq<char>,
    pub file: Option<Seq<char>>,
    pub system_mode: bool,
}

impl View for StatusOptions {
    type V = StatusView;

    open spec fn view(&self) -> StatusView {
        StatusView {
            state: self.state@,
            file: crontab::opt_text(self.file),
            system_mode: self.system_mode,
        }
    }
}

/// The options of `chrond status` after reading the arguments `rest`, or none
/// where help is asked for.
pub open spec fn status_options_of(rest: Seq<Seq<char>>, o: StatusView) -> Result<
    Option<StatusView>,
    Seq<char>,
>
    decreases rest.len(),
{
    if rest.len() == 0 {
        Ok(Some(o))
    } else {
        let tok = rest[0];
        let value = rest[1];
        if spells(tok, "-s"@, "--state"@) {
            if rest.len() < 2 {
                Err(needs_value(tok))
            } else {
                status_options_of(rest.skip(1).skip(1), StatusView { state: value, ..o })
            }
        } else if spells(tok, "-f"@, "--file"@) {
            if rest.len() < 2 {
                Err(needs_value(tok))
            } else {
                status_options_of(rest.skip(1).skip(1), StatusView { file: Some(value), ..o })
            }
        } else if tok == "--system"@ {
            status_options_of(rest.skip(1), StatusView { system_mode: true, ..o })
        } else if spells(tok, "-h"@, "--help"@) {
            Ok(None)
        } else {
            Err(unknown_option(tok, "status"@))
        }
    }
}

/// What `chrond status` is asked to do, or none where help is asked for.
pub fn status_config(args: Args, default_state: String) -> (r: Result<
    Option<StatusOptions>,
    CliError,
>)
    requires
        args.wf(),
    ensures
        ({
            let asked = status_options_of(
                args@,
                StatusView { state: default_state@, file: None, system_mode: false },
            );
            match r {
                Ok(Some(o)) => asked == Ok::<Option<StatusView>, Seq<char>>(Some(o@)),
                Ok(None) => asked == Ok::<Option<StatusView>, Seq<char>>(None),
                Err(e) => e.code == 2 && asked == Err::<Option<StatusView>, Seq<char>>(e.message@),
            }
        }),
{
    let mut rest = args;
    let mut o = StatusOptions { state: default_state, file: None, system_mode: false };
    let ghost first = o@;
    loop
        invariant
            rest.wf(),
            status_options_of(rest@, o@) == status_options_of(args@, first),
            first == (StatusView { state: default_state@, file: None, system_mode: false }),
        decreases rest@.len(),
    {
        let tok = match rest.next() {
            Some(t) => t,
            None => {
                return Ok(Some(o));
            },
        };
        if is_option(&tok, "-s", "--state") {
            match rest.next_value(tok.as_str()) {
                Ok(v) => {
                    o.state = v;
                },
                Err(e) => {
                    return Err(e);
                },
            }
        } else if is_option(&tok, "-f", "--file") {
            match rest.next_value(tok.as_str()) {
                Ok(v) => {
                    o.file = Some(v);
                },
                Err(e) => {
                    return Err(e);
                },
            }
        } else if text::str_eq(tok.as_str(), "--system") {
            o.system_mode = true;
        } else if is_option(&tok, "-h", "--help") {
            return Ok(None);
        } else {
            return Err(unknown(&tok, "status"));
        }
    }
}

proof fn lemma_options_differ()
    ensures
        "-f"@.len() == 2 && "-f"@[0] == '-' && "-f"@[1] == 'f',
        "--file"@.len() == 6 && "--file"@[0] == '-' && "--file"@[1] == '-'
            && "--file"@[2] == 'f' && "--file"@[3] == 'i',
        "-s"@.len() == 2 && "-s"@[0] == '-' && "-s"@[1] == 's',
        "--state"@.len() == 7 && "--state"@[0] == '-' && "--state"@[1] == '-'
            && "--state"@[2] == 's' && "--state"@[3] == 't',
        "--system"@.len() == 8 && "--system"@[0] == '-' && "--system"@[1] == '-'
            && "--system"@[2] == 's' && "--system"@[3] == 'y',
        "--metrics"@.len() == 9 && "--metrics"@[0] == '-' && "--metrics"@[1] == '-'
            && "--metrics"@[2] == 'm' && "--metrics"@[3] == 'e',
        "--ntfy"@.len() == 6 && "--ntfy"@[0] == '-' && "--ntfy"@[1] == '-'
            && "--ntfy"@[2] == 'n' && "--ntfy"@[3] == 't',
        "--exit-after"@.len() == 12 && "--exit-after"@[0] == '-' && "--exit-after"@[1] == '-'
            && "--exit-after"@[2] == 'e' && "--exit-after"@[3] == 'x',
        "-h"@.len() == 2 && "-h"@[0] == '-' && "-h"@[1] == 'h',
        "--help"@.len() == 6 && "--help"@[0] == '-' && "--help"@[1] == '-'
            && "--help"@[2] == 'h' && "--help"@[3] == 'e',
        "-n"@.len() == 2 && "-n"@[0] == '-' && "-n"@[1] == 'n',
        "--next"@.len() == 6 && "--next"@[0] == '-' && "--next"@[1] == '-'
            && "--next"@[2] == 'n' && "--next"@[3] == 'e',
        "--job"@.len() == 5 && "--job"@[0] == '-' && "--job"@[1] == '-' && "--job"@[2] == 'j'
            && "--job"@[3] == 'o',
        "--since"@.len() == 7 && "--since"@[0] == '-' && "--since"@[1] == '-'
            && "--since"@[2] == 's' && "--since"@[3] == 'i',
        "--failed"@.len() == 8 && "--failed"@[0] == '-' && "--failed"@[1] == '-'
            && "--failed"@[2] == 'f' && "--failed"@[3] == 'a',
        "--json"@.len() == 6 && "--json"@[0] == '-' && "--json"@[1] == '-'
            && "--json"@[2] == 'j' && "--json"@[3] == 's',
        "--limit"@.len() == 7 && "--limit"@[0] == '-' && "--limit"@[1] == '-'
            && "--limit"@[2] == 'l' && "--limit"@[3] == 'i',
{
    reveal_strlit("-f");
    reveal_strlit("--file");
    reveal_strlit("-s");
    reveal_strlit("--state");
    reveal_strlit("--system");
    reveal_strlit("--metrics");
    reveal_strlit("--ntfy");
    reveal_strlit("--exit-after");
    reveal_strlit("-h");
    reveal_strlit("--help");
    reveal_strlit("-n");
    reveal_strlit("--next");
    reveal_strlit("--job");
    reveal_strlit("--since");
    reveal_strlit("--failed");
    reveal_strlit("--json");
    reveal_strlit("--limit");
}

proof fn lemma_taken(tok: Seq<char>, v: Seq<char>, rest: Seq<Seq<char>>)
    ensures
        (seq![tok] + rest).len() >= 1,
        (seq![tok] + rest)[0] == tok,
        (seq![tok] + rest).skip(1) == rest,
        (seq![tok, v] + rest).len() >= 2,
        (seq![tok, v] + rest)[0] == tok,
        (seq![tok, v] + rest)[1] == v,
        (seq![tok, v] + rest).skip(1).skip(1) == rest,
{
    assert((seq![tok] + rest).skip(1) =~= rest);
    assert((seq![tok, v] + rest).skip(1).skip(1) =~= rest);
}

/// Each option of `run` sets what it names to its value and nothing else, so that
/// of two the later one counts. An option without its value, a duration that is
/// none and any other argument are errors.
pub proof fn run_options_set_what_they_name(
    tok: Seq<char>,
    v: Seq<char>,
    rest: Seq<Seq<char>>,
    o: RunView,
)
    ensures
        run_options_of(seq![], o) == Ok::<Option<RunView>, Seq<char>>(Some(o)),
        tok == "-f"@ || tok == "--file"@
            ==> run_options_of(seq![tok, v] + rest, o) == run_options_of(
            rest,
            RunView { file: Some(v), ..o },
        ),
        tok == "-s"@ || tok == "--state"@
            ==> run_options_of(seq![tok, v] + rest, o) == run_options_of(
            rest,
            RunView { state: v, ..o },
        ),
        tok == "--metrics"@ ==> run_options_of(seq![tok, v] + rest, o) == run_options_of(
            rest,
            RunView { metrics_addr: Some(v), ..o },
        ),
        tok == "--ntfy"@ ==> run_options_of(seq![tok, v] + rest, o) == run_options_of(
            rest,
            RunView { ntfy_url: Some(v), ..o },
        ),
        tok == "--exit-after"@ ==> match crontab::duration_of(v) {
            Ok(d) => run_options_of(seq![tok, v] + rest, o) == run_options_of(
                rest,
                RunView { exit_after: Some(d), ..o },
            ),
            Err(e) => run_options_of(seq![tok, v] + rest, o)
                == Err::<Option<RunView>, Seq<char>>(e),
        },
        tok == "--system"@ ==> run_options_of(seq![tok] + rest, o) == run_options_of(
            rest,
            RunView { system_mode: true, ..o },
        ),
        tok == "-h"@ || tok == "--help"@ ==> run_options_of(seq![tok] + rest, o) == Ok::<
            Option<RunView>,
            Seq<char>,
        >(None),
        tok == "-f"@ || tok == "--file"@ || tok == "-s"@ || tok == "--state"@
            || tok == "--metrics"@ || tok == "--ntfy"@ || tok == "--exit-after"@
            ==> run_options_of(seq![tok], o)
            == Err::<Option<RunView>, Seq<char>>(tok + " requires a value"@),
        tok != "-f"@ && tok != "--file"@ && tok != "-s"@ && tok != "--state"@
            && tok != "--metrics"@ && tok != "--ntfy"@ && tok != "--exit-after"@
            && tok != "--system"@ && tok != "-h"@ && tok != "--help"@
            ==> run_options_of(seq![tok] + rest, o)
            == Err::<Option<RunView>, Seq<char>>(
            "unknown option '"@ + tok + "' for "@ + "run"@,
        ),
{
    lemma_options_differ();
    lemma_taken(tok, v, rest);
    assert(seq![tok].len() == 1 && seq![tok][0] == tok);
}

/// Each option of `check` sets what it names to its value and nothing else, so that
/// of two the later one counts; the first argument that is no option is the file.
/// An option without its value, a number that is none and any other argument are
/// errors.
pub proof fn check_options_set_what_they_name(
    tok: Seq<char>,
    v: Seq<char>,
    rest: Seq<Seq<char>>,
    o: CheckView,
)
    ensures
        check_options_of(seq![], o) == Ok::<Option<CheckView>, Seq<char>>(Some(o)),
        tok == "-f"@ || tok == "--file"@
            ==> check_options_of(seq![tok, v] + rest, o) == check_options_of(
            rest,
            CheckView { file: Some(v), ..o },
        ),
        tok == "-n"@ || tok == "--next"@ ==> match text::unsigned_of(v, usize::MAX as nat) {
            Some(n) => check_options_of(seq![tok, v] + rest, o) == check_options_of(
                rest,
                CheckView { next_n: n, ..o },
            ),
            None => check_options_of(seq![tok, v] + rest, o)
                == Err::<Option<CheckView>, Seq<char>>(
                "--next"@ + " expects a number, got '"@ + v + "'"@,
            ),
        },
        tok == "--system"@ ==> check_options_of(seq![tok] + rest, o) == check_options_of(
            rest,
            CheckView { system_mode: true, ..o },
        ),
        tok == "-h"@ || tok == "--help"@ ==> check_options_of(seq![tok] + rest, o) == Ok::<
            Option<CheckView>,
            Seq<char>,
        >(None),
        tok == "-f"@ || tok == "--file"@ || tok == "-n"@ || tok == "--next"@
            ==> check_options_of(seq![tok], o)
            == Err::<Option<CheckView>, Seq<char>>(tok + " requires a value"@),
        tok != "-f"@ && tok != "--file"@ && tok != "-n"@ && tok != "--next"@
            && tok != "--system"@ && tok != "-h"@ && tok != "--help"@ ==> if tok.len() > 0
            && tok[0] == '-' || o.file is Some {
            check_options_of(seq![tok] + rest, o) == Err::<Option<CheckView>, Seq<char>>(
                "unknown option '"@ + tok + "' for "@ + "check"@,
            )
        } else {
            check_options_of(seq![tok] + rest, o) == check_options_of(
                rest,
                CheckView { file: Some(tok), ..o },
            )
        },
{
    lemma_options_differ();
    lemma_taken(tok, v, rest);
    assert(seq![tok].len() == 1 && seq![tok][0] == tok);
}

/// Each option of `runs` sets what it names to its value and nothing else, so that
/// of two the later one counts. An option without its value, a number or a time
/// that is none and any other argument are errors.
pub proof fn runs_options_set_what_they_name(
    tok: Seq<char>,
    v: Seq<char>,
    rest: Seq<Seq<char>>,
    o: RunsView,
    now: DateTime,
)
    ensures
        runs_options_of(seq![], o, now) == Ok::<Option<RunsView>, Seq<char>>(Some(o)),
        tok == "-s"@ || tok == "--state"@
            ==> runs_options_of(seq![tok, v] + rest, o, now) == runs_options_of(
            rest,
            RunsView { state: v, ..o },
            now,
        ),
        tok == "--job"@ ==> runs_options_of(seq![tok, v] + rest, o, now) == runs_options_of(
            rest,
            RunsView { job: Some(v), ..o },
            now,
        ),
        tok == "--since"@ ==> match since_of(v, now) {
            Ok(t) => runs_options_of(seq![tok, v] + rest, o, now) == runs_options_of(
                rest,
                RunsView { since: Some(t), ..o },
                now,
            ),
            Err(e) => runs_options_of(seq![tok, v] + rest, o, now)
                == Err::<Option<RunsView>, Seq<char>>(e),
        },
        tok == "--limit"@ ==> match text::unsigned_of(v, usize::MAX as nat) {
            Some(n) => runs_options_of(seq![tok, v] + rest, o, now) == runs_options_of(
                rest,
                RunsView { limit: n, ..o },
                now,
            ),
            None => runs_options_of(seq![tok, v] + rest, o, now)
                == Err::<Option<RunsView>, Seq<char>>(
                "--limit"@ + " expects a number, got '"@ + v + "'"@,
            ),
        },
        tok == "--failed"@ ==> runs_options_of(seq![tok] + rest, o, now) == runs_options_of(
            rest,
            RunsView { failed: true, ..o },
            now,
        ),
        tok == "--json"@ ==> runs_options_of(seq![tok] + rest, o, now) == runs_options_of(
            rest,
            RunsView { json: true, ..o },
            now,
        ),
        tok == "-h"@ || tok == "--help"@ ==> runs_options_of(seq![tok] + rest, o, now) == Ok::<
            Option<RunsView>,
            Seq<char>,
        >(None),
        tok == "-s"@ || tok == "--state"@ || tok == "--job"@ || tok == "--since"@
            || tok == "--limit"@ ==> runs_options_of(seq![tok], o, now)
            == Err::<Option<RunsView>, Seq<char>>(tok + " requires a value"@),
        tok != "-s"@ && tok != "--state"@ && tok != "--job"@ && tok != "--since"@
            && tok != "--limit"@ && tok != "--failed"@ && tok != "--json"@ && tok != "-h"@
            && tok != "--help"@ ==> runs_options_of(seq![tok] + rest, o, now)
            == Err::<Option<RunsView>, Seq<char>>(
            "unknown option '"@ + tok + "' for "@ + "runs"@,
        ),
{
    lemma_options_differ();
    lemma_taken(tok, v, rest);
    assert(seq![tok].len() == 1 && seq![tok][0] == tok);
}

/// Each option of `status` sets what it names to its value and nothing else, so that
/// of two the later one counts. An option without its value and any other argument
/// are errors.
pub proof fn status_options_set_what_they_name(
    tok: Seq<char>,
    v: Seq<char>,
    rest: Seq<Seq<char>>,
    o: StatusView,
)
    ensures
        status_options_of(seq![], o) == Ok::<Option<StatusView>, Seq<char>>(Some(o)),
        tok == "-s"@ || tok == "--state"@
            ==> status_options_of(seq![tok, v] + rest, o) == status_options_of(
            rest,
            StatusView { state: v, ..o },
        ),
        tok == "-f"@ || tok == "--file"@
            ==> status_options_of(seq![tok, v] + rest, o) == status_options_of(
            rest,
            StatusView { file: Some(v), ..o },
        ),
        tok == "--system"@ ==> status_options_of(seq![tok] + rest, o) == status_options_of(
            rest,
            StatusView { system_mode: true, ..o },
        ),
        tok == "-h"@ || tok == "--help"@ ==> status_options_of(seq![tok] + rest, o) == Ok::<
            Option<StatusView>,
            Seq<char>,
        >(None),
        tok == "-s"@ || tok == "--state"@ || tok == "-f"@ || tok == "--file"@
            ==> status_options_of(seq![tok], o)
            == Err::<Option<StatusView>, Seq<char>>(tok + " requires a value"@),
        tok != "-s"@ && tok != "--state"@ && tok != "-f"@ && tok != "--file"@
            && tok != "--system"@ && tok != "-h"@ && tok != "--help"@
            ==> status_options_of(seq![tok] + rest, o)
            == Err::<Option<StatusView>, Seq<char>>(
            "unknown option '"@ + tok + "' for "@ + "status"@,
        ),
{
    lemma_options_differ();
    lemma_taken(tok, v, rest);
    assert(seq![tok].len() == 1 && seq![tok][0] == tok);
}

/// Without options a run has the given state directory, no system crontab, no
/// metrics, no messages and no end, a check shows three occurrences, and at most
/// 20 runs of all jobs are listed as a table. A run and a check need a file, and
/// refuse nothing else that their options accept.
pub proof fn defaults_of_the_commands(rest: Seq<Seq<char>>, state: Seq<char>)
    ensures
        ({
            let run = run_options_of(
                rest,
                RunView {
                    file: None,
                    state,
                    system_mode: false,
                    metrics_addr: None,
                    ntfy_url: None,
                    exit_after: None,
                },
            );
            let check = check_options_of(
                rest,
                CheckView { file: None, system_mode: false, next_n: 3 },
            );
            &&& match run {
                Ok(Some(o)) => if o.file is None {
                    run_config_of(rest, state) == Err::<Option<RunView>, Seq<char>>(
                        "run requires --file <CRONTAB>"@,
                    )
                } else {
                    run_config_of(rest, state) == run
                },
                _ => run_config_of(rest, state) == run,
            }
            &&& match check {
                Ok(Some(o)) => if o.file is None {
                    check_config_of(rest) == Err::<Option<CheckView>, Seq<char>>(
                        "check requires a crontab file"@,
                    )
                } else {
                    check_config_of(rest) == check
                },
                _ => check_config_of(rest) == check,
            }
        }),
        runs_defaults(state).state == state,
        runs_defaults(state).job is None && runs_defaults(state).since is None,
        !runs_defaults(state).failed && !runs_defaults(state).json,
        runs_defaults(state).limit == 20,
{
}

/// A time span before now: the time that lies as many seconds before now as the
/// duration says. It is refused only where it is no duration, is longer than can
/// be counted, or leaves the calendar.
pub proof fn since_counts_back(v: Seq<char>, now: DateTime, u: DateTime)
    requires
        now.valid(),
        now.nanosecond < 1_000_000_000,
    ensures
        match crontab::duration_of(v) {
            Ok(d) => match since_of(v, now) {
                Ok(t) => t.valid() && t.seconds() == now.seconds() - d && t.nanosecond
                    == now.nanosecond,
                Err(e) => e == "invalid duration '"@ + v + "'"@ && (d > 9_223_372_036_854_775 || !(
                u.valid() && u.seconds() == now.seconds() - d && u.nanosecond == now.nanosecond)),
            },
            Err(e) => since_of(v, now) == Err::<DateTime, Seq<char>>(e),
        },
{
    if crontab::duration_of(v) is Ok {
        let d = crontab::duration_of(v)->Ok_0;
        if time::moved(now, -d) is Some {
            assert(time::is_sum(now, -d, time::moved(now, -d)->0));
        } else {
            assert(!time::is_sum(now, -d, u));
        }
    }
}

/// The state directory is the one that the first of the three variables with a
/// value gives: itself, below the user's state directory, or below the home.
pub proof fn the_first_variable_decides(
    dir: Seq<char>,
    xdg: Option<Seq<char>>,
    home: Option<Seq<char>>,
)
    ensures
        state_dir_of(Some(dir), xdg, home) == dir,
        state_dir_of(None, Some(dir), home) == text::joined(dir, "chrond"@),
        state_dir_of(None, None, Some(dir)) == text::joined(dir, ".local/state/chrond"@),
        state_dir_of(None, None, None) == ".chrond-state"@,
{
}

/// The first argument names the command; whatever follows it does not matter. No
/// argument, and any other word, is an error.
pub proof fn the_first_argument_is_the_command(c: Seq<char>, rest: Seq<Seq<char>>)
    ensures
        ({
            let r = command_of(seq![c] + rest);
            let is = |x: Command| r == Ok::<Command, Seq<char>>(x);
            &&& c == "-h"@ || c == "--help"@ || c == "help"@ ==> is(Command::Help)
            &&& c == "-V"@ || c == "--version"@ || c == "version"@ ==> is(Command::Version)
            &&& c == "run"@ ==> is(Command::Run)
            &&& c == "check"@ ==> is(Command::Check)
            &&& c == "runs"@ ==> is(Command::Runs)
            &&& c == "status"@ ==> is(Command::Status)
            &&& r is Ok ==> c == "-h"@ || c == "--help"@ || c == "help"@ || c == "-V"@ || c
                == "--version"@ || c == "version"@ || c == "run"@ || c == "check"@ || c == "runs"@
                || c == "status"@
            &&& r is Err ==> r->Err_0 == "unknown command '"@ + c + "' (try 'chrond --help')"@
        }),
        command_of(seq![]) == Err::<Command, Seq<char>>("missing command"@),
{
    assert((seq![c] + rest)[0] == c);
    reveal_strlit("-h");
    reveal_strlit("--help");
    reveal_strlit("help");
    reveal_strlit("-V");
    reveal_strlit("--version");
    reveal_strlit("version");
    reveal_strlit("run");
    reveal_strlit("check");
    reveal_strlit("runs");
    reveal_strlit("status");
    assert("-h"@[1] == 'h' && "-V"@[1] == 'V' && "help"@[0] == 'h' && "runs"@[0] == 'r');
    assert("-h"@.len() == 2 && "--help"@.len() == 6 && "help"@.len() == 4 && "--version"@.len()
        == 9 && "version"@.len() == 7 && "run"@.len() == 3 && "check"@.len() == 5 && "runs"@.len()
        == 4 && "status"@.len() == 6 && "-V"@.len() == 2);
    assert("--help"@[0] == '-' && "status"@[0] == 's');
}

} // verus!
