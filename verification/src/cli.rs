//! Command line of the monitoring tool.
use crate::text::{decimal, lemma_decimal_reads_back, parse_number, parsed};
use vstd::prelude::*;
use vstd::string::StringExecFns;

verus! {

/// Refresh interval of `top` in milliseconds, unless another is given.
pub const DEFAULT_INTERVAL_MS: u64 = 500;

/// Slots that `dump` shows, unless another number is given.
pub const DEFAULT_TAIL: u64 = 10;

/// What the tool is asked to do.
#[derive(Debug)]
pub enum Command {
    /// Nothing: there are no arguments.
    Nothing,
    /// Show help information.
    Help,
    /// Show the version.
    Version,
    /// Show header, configuration, sequence counters, and reader status of a file.
    Stat { path: String, json: bool },
    /// Show throughput and consumer lag until interrupted.
    Top { path: String, interval_ms: u64 },
    /// Show recent slots and payloads.
    Dump { path: String, tail: u64, hex: bool },
    /// Clean up reader slots of dead processes.
    Prune { path: String },
    /// Serve a ring to mirrors at an address.
    Serve { path: String, bind: String },
    /// Mirror the ring that is served at an address.
    Mirror { source: String, path: String },
    /// The address to serve at is missing.
    BindMissing,
    /// The path is missing.
    PathMissing { subcommand: String },
    /// There is no such subcommand.
    Unknown { subcommand: String },
}

/// A command over text.
pub ghost enum CommandView {
    Nothing,
    Help,
    Version,
    Stat { path: Seq<char>, json: bool },
    Top { path: Seq<char>, interval_ms: u64 },
    Dump { path: Seq<char>, tail: u64, hex: bool },
    Prune { path: Seq<char> },
    Serve { path: Seq<char>, bind: Seq<char> },
    Mirror { source: Seq<char>, path: Seq<char> },
    BindMissing,
    PathMissing { subcommand: Seq<char> },
    Unknown { subcommand: Seq<char> },
}

impl View for Command {
    type V = CommandView;

    open spec fn view(&self) -> CommandView {
        match self {
            Command::Nothing => CommandView::Nothing,
            Command::Help => CommandView::Help,
            Command::Version => CommandView::Version,
            Command::Stat { path, json } => CommandView::Stat { path: path@, json: *json },
            Command::Top { path, interval_ms } => CommandView::Top {
                path: path@,
                interval_ms: *interval_ms,
            },
            Command::Dump { path, tail, hex } => CommandView::Dump {
                path: path@,
                tail: *tail,
                hex: *hex,
            },
            Command::Prune { path } => CommandView::Prune { path: path@ },
            Command::Serve { path, bind } => CommandView::Serve { path: path@, bind: bind@ },
            Command::Mirror { source, path } => CommandView::Mirror {
                source: source@,
                path: path@,
            },
            Command::BindMissing => CommandView::BindMissing,
            Command::PathMissing { subcommand } => CommandView::PathMissing {
                subcommand: subcommand@,
            },
            Command::Unknown { subcommand } => CommandView::Unknown { subcommand: subcommand@ },
        }
    }
}

/// The text of the arguments.
pub open spec fn words(args: Seq<String>) -> Seq<Seq<char>> {
    args.map_values(|a: String| a@)
}

/// The number behind an option, or `default` if it is none.
pub open spec fn number_or(s: Seq<char>, default: u64) -> u64 {
    match parsed(s, u64::MAX as nat) {
        Some(n) => n as u64,
        None => default,
    }
}

/// The interval that the arguments up to index `n` ask for: the last one counts.
pub open spec fn interval_in(args: Seq<Seq<char>>, n: int) -> u64
    decreases n,
{
    if n <= 3 {
        DEFAULT_INTERVAL_MS
    } else if args[n - 1] == "--interval-ms"@ && n < args.len() {
        number_or(args[n], DEFAULT_INTERVAL_MS)
    } else {
        interval_in(args, n - 1)
    }
}

/// The tail and the format that the arguments from index `i` on ask for.
pub open spec fn dump_options(args: Seq<Seq<char>>, i: int, tail: u64, hex: bool) -> (u64, bool)
    decreases args.len() - i,
{
    if i >= args.len() {
        (tail, hex)
    } else if args[i] == "--tail"@ && i + 1 < args.len() {
        dump_options(args, i + 2, number_or(args[i + 1], DEFAULT_TAIL), hex)
    } else if args[i] == "--hex"@ {
        dump_options(args, i + 1, tail, true)
    } else {
        dump_options(args, i + 1, tail, hex)
    }
}

/// The address behind the last `--bind` among the arguments up to index `n`.
pub open spec fn bind_in(args: Seq<Seq<char>>, n: int) -> Option<Seq<char>>
    decreases n,
{
    if n <= 3 {
        None
    } else if args[n - 1] == "--bind"@ && n < args.len() {
        Some(args[n])
    } else {
        bind_in(args, n - 1)
    }
}

/// One of the subcommands that work on a file.
pub open spec fn works_on_file(word: Seq<char>) -> bool {
    word == "stat"@ || word == "top"@ || word == "dump"@ || word == "prune"@ || word == "serve"@
        || word == "mirror"@
}

/// What the arguments ask for; the first of them is the program's name.
pub open spec fn command_in(args: Seq<Seq<char>>) -> CommandView {
    if args.len() < 2 {
        CommandView::Nothing
    } else if args[1] == "-h"@ || args[1] == "--help"@ || args[1] == "help"@ {
        CommandView::Help
    } else if args[1] == "-V"@ || args[1] == "--version"@ || args[1] == "version"@ {
        CommandView::Version
    } else if !works_on_file(args[1]) {
        CommandView::Unknown { subcommand: args[1] }
    } else if args.len() < 3 || args[1] == "mirror"@ && args.len() < 4 {
        CommandView::PathMissing { subcommand: args[1] }
    } else if args[1] == "stat"@ {
        CommandView::Stat { path: args[2], json: args.contains("--json"@) }
    } else if args[1] == "top"@ {
        CommandView::Top { path: args[2], interval_ms: interval_in(args, args.len() as int) }
    } else if args[1] == "dump"@ {
        let (tail, hex) = dump_options(args, 3, DEFAULT_TAIL, false);
        CommandView::Dump { path: args[2], tail, hex }
    } else if args[1] == "serve"@ {
        match bind_in(args, args.len() as int) {
            Some(bind) => CommandView::Serve { path: args[2], bind },
            None => CommandView::BindMissing,
        }
    } else if args[1] == "mirror"@ {
        CommandView::Mirror { source: args[2], path: args[3] }
    } else {
        CommandView::Prune { path: args[2] }
    }
}

fn is(a: &String, word: &str) -> (r: bool)
    ensures
        r == (a@ == word@),
{
    *a == String::from_str(word)
}

fn number_or_default(s: &String, default: u64) -> (n: u64)
    ensures
        n == number_or(s@, default),
{
    match parse_number(s.as_str(), u64::MAX) {
        Some(n) => n,
        None => default,
    }
}

/// Reads the arguments; the first of them is the program's name.
pub fn parse_args(args: &Vec<String>) -> (c: Command)
    ensures
        c@ == command_in(words(args@)),
{
    if args.len() < 2 {
        return Command::Nothing;
    }
    let sub = &args[1];
    if is(sub, "-h") || is(sub, "--help") || is(sub, "help") {
        return Command::Help;
    }
    if is(sub, "-V") || is(sub, "--version") || is(sub, "version") {
        return Command::Version;
    }
    let stat: bool = is(sub, "stat");
    let top: bool = is(sub, "top");
    let dump: bool = is(sub, "dump");
    let prune: bool = is(sub, "prune");
    let serve: bool = is(sub, "serve");
    let mirror: bool = is(sub, "mirror");
    if !stat && !top && !dump && !prune && !serve && !mirror {
        return Command::Unknown { subcommand: sub.clone() };
    }
    if args.len() < 3 || (mirror && args.len() < 4) {
        return Command::PathMissing { subcommand: sub.clone() };
    }
    let path = args[2].clone();
    if stat {
        return Command::Stat { path, json: has_word(args, "--json") };
    }
    if top {
        return Command::Top { path, interval_ms: parse_interval(args) };
    }
    if dump {
        let (tail, hex) = parse_dump_options(args);
        return Command::Dump { path, tail, hex };
    }
    if serve {
        return match parse_bind(args) {
            Some(bind) => Command::Serve { path, bind },
            None => Command::BindMissing,
        };
    }
    if mirror {
        return Command::Mirror { source: path, path: args[3].clone() };
    }
    Command::Prune { path }
}

fn has_word(args: &Vec<String>, word: &str) -> (r: bool)
    ensures
        r == words(args@).contains(word@),
{
    let ghost w = words(args@);
    let mut i: usize = 0;
    while i < args.len()
        invariant
            w == words(args@),
            i <= args@.len(),
            forall|j: int| 0 <= j < i ==> w[j] != word@,
        decreases args@.len() - i,
    {
        if is(&args[i], word) {
            assert(w[i as int] == word@);
            return true;
        }
        i = i + 1;
    }
    false
}

fn parse_interval(args: &Vec<String>) -> (ms: u64)
    ensures
        ms == interval_in(words(args@), args@.len() as int),
{
    let ghost w = words(args@);
    let mut ms: u64 = DEFAULT_INTERVAL_MS;
    let mut i: usize = 3;
    while i < args.len()
        invariant
            w == words(args@),
            3 <= i,
            i <= args@.len() || i == 3,
            ms == interval_in(w, i as int),
        decreases args@.len() - i,
    {
        if is(&args[i], "--interval-ms") && i + 1 < args.len() {
            ms = number_or_default(&args[i + 1], DEFAULT_INTERVAL_MS);
        }
        i = i + 1;
    }
    ms
}

fn parse_bind(args: &Vec<String>) -> (r: Option<String>)
    ensures
        match r {
            Some(bind) => bind_in(words(args@), args@.len() as int) == Some(bind@),
            None => bind_in(words(args@), args@.len() as int) is None,
        },
{
    let ghost w = words(args@);
    let mut bind: Option<String> = None;
    let mut i: usize = 3;
    while i < args.len()
        invariant
            w == words(args@),
            3 <= i,
            i <= args@.len() || i == 3,
            match bind {
                Some(b) => bind_in(w, i as int) == Some(b@),
                None => bind_in(w, i as int) is None,
            },
        decreases args@.len() - i,
    {
        if is(&args[i], "--bind") && i + 1 < args.len() {
            bind = Some(args[i + 1].clone());
        }
        i = i + 1;
    }
    bind
}

fn parse_dump_options(args: &Vec<String>) -> (r: (u64, bool))
    ensures
        r == dump_options(words(args@), 3, DEFAULT_TAIL, false),
{
    let ghost w = words(args@);
    let mut tail: u64 = DEFAULT_TAIL;
    let mut hex: bool = false;
    let mut i: usize = 3;
    while i < args.len()
        invariant
            w == words(args@),
            dump_options(w, 3, DEFAULT_TAIL, false) == dump_options(w, i as int, tail, hex),
        decreases args@.len() - i,
    {
        if is(&args[i], "--tail") && i + 1 < args.len() {
            tail = number_or_default(&args[i + 1], DEFAULT_TAIL);
            i = i + 2;
        } else if is(&args[i], "--hex") {
            hex = true;
            i = i + 1;
        } else {
            i = i + 1;
        }
    }
    (tail, hex)
}

/// Each subcommand asks for what it is named after, on the file behind it.
pub proof fn lemma_subcommands(args: Seq<Seq<char>>)
    requires
        args.len() >= 3,
    ensures
        args[1] == "stat"@ ==> command_in(args) is Stat && command_in(args)->Stat_path == args[2],
        args[1] == "top"@ ==> command_in(args) is Top && command_in(args)->Top_path == args[2],
        args[1] == "dump"@ ==> command_in(args) is Dump && command_in(args)->Dump_path == args[2],
        args[1] == "prune"@ ==> command_in(args) == (CommandView::Prune { path: args[2] }),
        args[1] == "serve"@ && bind_in(args, args.len() as int) is Some ==> command_in(args)
            is Serve && command_in(args)->Serve_path == args[2],
        args[1] == "serve"@ && bind_in(args, args.len() as int) is None ==> command_in(args)
            is BindMissing,
        args[1] == "mirror"@ && args.len() >= 4 ==> command_in(args) == (CommandView::Mirror {
            source: args[2],
            path: args[3],
        }),
        args[1] == "mirror"@ && args.len() == 3 ==> command_in(args) is PathMissing,
        args[1] == "help"@ || args[1] == "--help"@ || args[1] == "-h"@ ==> command_in(args)
            is Help,
        args[1] == "version"@ || args[1] == "--version"@ || args[1] == "-V"@ ==> command_in(args)
            is Version,
        command_in(args) is Unknown ==> command_in(args)->Unknown_subcommand == args[1],
{
    lemma_words_differ();
}

/// A subcommand that works on a file needs one, and without arguments nothing is asked for.
pub proof fn lemma_missing_arguments(args: Seq<Seq<char>>)
    requires
        args.len() <= 2,
    ensures
        args.len() < 2 ==> command_in(args) is Nothing,
        args.len() == 2 && (args[1] == "stat"@ || args[1] == "top"@ || args[1] == "dump"@ || args[1]
            == "prune"@ || args[1] == "serve"@ || args[1] == "mirror"@) ==> command_in(args)
            == (CommandView::PathMissing { subcommand: args[1] }),
{
    lemma_words_differ();
}

proof fn lemma_words_differ()
    ensures
        "stat"@[0] == 's' && "stat"@[1] == 't',
        "serve"@[0] == 's' && "serve"@[1] == 'e',
        "top"@[0] == 't',
        "dump"@[0] == 'd',
        "prune"@[0] == 'p',
        "mirror"@[0] == 'm',
        "help"@[0] == 'h',
        "version"@[0] == 'v',
        "-h"@[0] == '-' && "-h"@[1] == 'h',
        "--help"@[0] == '-' && "--help"@[1] == '-' && "--help"@[2] == 'h',
        "-V"@[0] == '-' && "-V"@[1] == 'V',
        "--version"@[0] == '-' && "--version"@[1] == '-' && "--version"@[2] == 'v',
        "--tail"@[2] == 't',
        "--hex"@[2] == 'h',
{
    reveal_strlit("stat");
    reveal_strlit("serve");
    reveal_strlit("top");
    reveal_strlit("dump");
    reveal_strlit("prune");
    reveal_strlit("mirror");
    reveal_strlit("help");
    reveal_strlit("version");
    reveal_strlit("-h");
    reveal_strlit("--help");
    reveal_strlit("-V");
    reveal_strlit("--version");
    reveal_strlit("--tail");
    reveal_strlit("--hex");
}

/// A number behind an option counts as it reads; what is no number, or too large, counts as the
/// default.
pub proof fn lemma_option_numbers(n: u64, s: Seq<char>, default: u64)
    ensures
        number_or(decimal(n as nat), default) == n,
        parsed(s, u64::MAX as nat) is None ==> number_or(s, default) == default,
        number_or(Seq::<char>::empty(), default) == default,
{
    lemma_decimal_reads_back(n as nat, u64::MAX as nat);
}

/// The last option counts: where `--interval-ms`, or `--bind`, stands at `k` behind the path with
/// a value behind it, and not again later, that value is taken. Without the option the interval
/// is half a second and there is no address.
pub proof fn lemma_last_option_counts(args: Seq<Seq<char>>, n: int, k: int)
    requires
        n == args.len(),
        n >= 3,
    ensures
        3 <= k < n - 1 && args[k] == "--interval-ms"@ && (forall|j: int|
            k < j < n - 1 ==> #[trigger] args[j] != "--interval-ms"@) ==> interval_in(args, n)
            == number_or(args[k + 1], 500),
        (forall|j: int| 3 <= j < n - 1 ==> #[trigger] args[j] != "--interval-ms"@) ==> interval_in(
            args,
            n,
        ) == 500,
        3 <= k < n - 1 && args[k] == "--bind"@ && (forall|j: int|
            k < j < n - 1 ==> #[trigger] args[j] != "--bind"@) ==> bind_in(args, n) == Some(
            args[k + 1],
        ),
        (forall|j: int| 3 <= j < n - 1 ==> #[trigger] args[j] != "--bind"@) ==> bind_in(args, n)
            is None,
{
    lemma_interval_from(args, n, k);
    lemma_bind_from(args, n, k);
}

proof fn lemma_interval_from(args: Seq<Seq<char>>, m: int, k: int)
    requires
        3 <= m <= args.len(),
    ensures
        3 <= k < m && k + 1 < args.len() && args[k] == "--interval-ms"@ && (forall|j: int|
            k < j < m && j + 1 < args.len() ==> #[trigger] args[j] != "--interval-ms"@)
            ==> interval_in(args, m) == number_or(args[k + 1], 500),
        (forall|j: int| 3 <= j < m && j + 1 < args.len() ==> #[trigger] args[j]
            != "--interval-ms"@) ==> interval_in(args, m) == 500,
    decreases m,
{
    if m > 3 {
        lemma_interval_from(args, m - 1, k);
        let _ = args[m - 1];
    }
}

proof fn lemma_bind_from(args: Seq<Seq<char>>, m: int, k: int)
    requires
        3 <= m <= args.len(),
    ensures
        3 <= k < m && k + 1 < args.len() && args[k] == "--bind"@ && (forall|j: int|
            k < j < m && j + 1 < args.len() ==> #[trigger] args[j] != "--bind"@) ==> bind_in(
            args,
            m,
        ) == Some(args[k + 1]),
        (forall|j: int| 3 <= j < m && j + 1 < args.len() ==> #[trigger] args[j] != "--bind"@)
            ==> bind_in(args, m) is None,
    decreases m,
{
    if m > 3 {
        lemma_bind_from(args, m - 1, k);
        let _ = args[m - 1];
    }
}

/// A dump without options shows ten messages as text; `--hex`, where it is no value of another
/// option, asks for hexadecimal; a single `--tail` with a value asks for that many messages.
pub proof fn lemma_dump_options(args: Seq<Seq<char>>, k: int)
    requires
        args.len() >= 3,
    ensures
        (forall|j: int| 3 <= j < args.len() ==> #[trigger] args[j] != "--tail"@) ==> {
            let (tail, hex) = dump_options(args, 3, 10, false);
            &&& tail == 10
            &&& hex <==> exists|j: int| 3 <= j < args.len() && #[trigger] args[j] == "--hex"@
        },
        3 <= k < args.len() - 1 && args[k] == "--tail"@ && (forall|j: int|
            3 <= j < args.len() && j != k ==> #[trigger] args[j] != "--tail"@) ==> dump_options(
            args,
            3,
            10,
            false,
        ).0 == number_or(args[k + 1], 10),
{
    lemma_dump_from(args, 3, 10, false, k);
}

proof fn lemma_dump_from(args: Seq<Seq<char>>, i: int, tail: u64, hex: bool, k: int)
    requires
        3 <= i,
    ensures
        (forall|j: int| i <= j < args.len() ==> #[trigger] args[j] != "--tail"@) ==> {
            let r = dump_options(args, i, tail, hex);
            &&& r.0 == tail
            &&& r.1 <==> hex || exists|j: int|
                i <= j < args.len() && #[trigger] args[j] == "--hex"@
        },
        i <= k < args.len() - 1 && args[k] == "--tail"@ && (forall|j: int|
            i <= j < args.len() && j != k ==> #[trigger] args[j] != "--tail"@) ==> dump_options(
            args,
            i,
            tail,
            hex,
        ).0 == number_or(args[k + 1], 10),
    decreases args.len() - i,
{
    lemma_words_differ();
    if i < args.len() {
        let _ = args[i];
        if args[i] == "--tail"@ && i + 1 < args.len() {
            lemma_dump_from(args, i + 2, number_or(args[i + 1], 10), hex, k);
        } else if args[i] == "--hex"@ {
            lemma_dump_from(args, i + 1, tail, true, k);
        } else {
            lemma_dump_from(args, i + 1, tail, hex, k);
            if exists|j: int| i <= j < args.len() && #[trigger] args[j] == "--hex"@ {
                let j = choose|j: int| i <= j < args.len() && #[trigger] args[j] == "--hex"@;
                assert(i + 1 <= j);
            }
        }
    }
}

/// A status is reported in JSON exactly if `--json` is among the arguments.
pub proof fn lemma_json_asked_for(args: Seq<Seq<char>>)
    requires
        args.len() >= 3,
        args[1] == "stat"@,
    ensures
        command_in(args)->json <==> exists|j: int|
            0 <= j < args.len() && #[trigger] args[j] == "--json"@,
{
    lemma_words_differ();
}

} // verus!
