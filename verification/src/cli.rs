//! The command lines of the programs.

use vstd::prelude::*;
use vstd::string::*;

use crate::number;
use crate::text;

verus! {

/// What a command line asks for.
#[derive(Debug)]
pub enum Parsed<C> {
    /// To do the work with these settings.
    Run(C),
    /// To show how the program is used.
    Help,
    /// Nothing that can be done, and why.
    Bad(String),
}

/// What one argument, with the one behind it, asks for.
#[verifier::ext_equal]
pub enum Took<V> {
    /// These settings, reading on behind this many arguments.
    On(V, int),
    Help,
    Bad(Seq<char>),
}

/// What reading the arguments to their end asks for, wherever the reading stopped.
spec fn ending<V>(t: Took<V>) -> Took<V> {
    match t {
        Took::On(c, _) => Took::On(c, 0),
        u => u,
    }
}

/// The texts of the arguments.
pub open spec fn args_view(args: Seq<String>) -> Seq<Seq<char>> {
    Seq::new(args.len(), |i: int| args[i]@)
}

/// The argument behind argument `i`.
pub open spec fn behind(args: Seq<Seq<char>>, i: int) -> Option<Seq<char>> {
    if i + 1 < args.len() {
        Some(args[i + 1])
    } else {
        None
    }
}

pub open spec fn missing_value(flag: Seq<char>) -> Seq<char> {
    "missing value for "@ + flag
}

pub open spec fn unknown_argument(arg: Seq<char>) -> Seq<char> {
    "unknown argument: "@ + arg
}

fn make_missing(flag: &str) -> (r: String)
    ensures
        r@ == missing_value(flag@),
{
    text::concat("missing value for ", flag)
}

// ---- running a model -----------------------------------------------------------------------

/// How to run a model once. The sampling limits are singles in their bit patterns.
#[derive(Debug)]
pub struct Cli {
    pub model: String,
    pub prompt: String,
    pub system: String,
    pub n_predict: usize,
    pub temp: u32,
    pub top_k: i32,
    pub top_p: u32,
    pub min_p: u32,
    pub seed: u32,
    pub verbose: bool,
}

/// The settings of a run, as mathematics has them.
#[verifier::ext_equal]
pub struct CliV {
    pub model: Seq<char>,
    pub prompt: Seq<char>,
    pub system: Seq<char>,
    pub n_predict: nat,
    pub temp: u32,
    pub top_k: int,
    pub top_p: u32,
    pub min_p: u32,
    pub seed: nat,
    pub verbose: bool,
}

impl View for Cli {
    type V = CliV;

    open spec fn view(&self) -> CliV {
        CliV {
            model: self.model@,
            prompt: self.prompt@,
            system: self.system@,
            n_predict: self.n_predict as nat,
            temp: self.temp,
            top_k: self.top_k as int,
            top_p: self.top_p,
            min_p: self.min_p,
            seed: self.seed as nat,
            verbose: self.verbose,
        }
    }
}

/// The pattern of six tenths.
pub const DEFAULT_TEMP: u32 = 0x3F19_999A;

/// The pattern of nine tenths.
pub const DEFAULT_TOP_P: u32 = 0x3F66_6666;

/// The seed that stands for a random one.
pub const RANDOM_SEED: u32 = 0xFFFF_FFFF;

/// The settings of a run that no argument has changed.
pub open spec fn default_run() -> CliV {
    CliV {
        model: Seq::empty(),
        prompt: Seq::empty(),
        system: Seq::empty(),
        n_predict: 8,
        temp: DEFAULT_TEMP,
        top_k: 20,
        top_p: DEFAULT_TOP_P,
        min_p: 0,
        seed: RANDOM_SEED as nat,
        verbose: false,
    }
}

/// One argument of a run.
pub open spec fn run_took(c: CliV, arg: Seq<char>, value: Option<Seq<char>>) -> Took<CliV> {
    if arg == "-m"@ || arg == "--model"@ {
        match value {
            Some(x) => Took::On(CliV { model: x, ..c }, 2),
            None => Took::Bad(missing_value("--model"@)),
        }
    } else if arg == "-p"@ || arg == "--prompt"@ {
        match value {
            Some(x) => Took::On(CliV { prompt: x, ..c }, 2),
            None => Took::Bad(missing_value("--prompt"@)),
        }
    } else if arg == "-s"@ || arg == "--system"@ {
        match value {
            Some(x) => Took::On(CliV { system: x, ..c }, 2),
            None => Took::Bad(missing_value("--system"@)),
        }
    } else if arg == "-n"@ || arg == "--n-predict"@ {
        match value {
            Some(x) => match text::number_of(x, usize::MAX as nat) {
                Some(n) => Took::On(CliV { n_predict: n, ..c }, 2),
                None => Took::Bad("--n-predict must be an int"@),
            },
            None => Took::Bad(missing_value("--n-predict"@)),
        }
    } else if arg == "-c"@ || arg == "--ctx"@ || arg == "-t"@ || arg == "--threads"@ || arg
        == "--n-batch"@ {
        Took::On(c, 2)
    } else if arg == "--temp"@ {
        match value {
            Some(x) => match number::single_in(x) {
                Some(f) => Took::On(CliV { temp: f, ..c }, 2),
                None => Took::Bad("--temp must be a float"@),
            },
            None => Took::Bad(missing_value("--temp"@)),
        }
    } else if arg == "--top-k"@ {
        match value {
            Some(x) => match text::integer_of(x, i32::MIN as int, i32::MAX as nat) {
                Some(n) => Took::On(CliV { top_k: n, ..c }, 2),
                None => Took::Bad("--top-k must be an int"@),
            },
            None => Took::Bad(missing_value("--top-k"@)),
        }
    } else if arg == "--top-p"@ {
        match value {
            Some(x) => match number::single_in(x) {
                Some(f) => Took::On(CliV { top_p: f, ..c }, 2),
                None => Took::Bad("--top-p must be a float"@),
            },
            None => Took::Bad(missing_value("--top-p"@)),
        }
    } else if arg == "--min-p"@ {
        match value {
            Some(x) => match number::single_in(x) {
                Some(f) => Took::On(CliV { min_p: f, ..c }, 2),
                None => Took::Bad("--min-p must be a float"@),
            },
            None => Took::Bad(missing_value("--min-p"@)),
        }
    } else if arg == "--seed"@ {
        match value {
            Some(x) => match text::number_of(x, u32::MAX as nat) {
                Some(n) => Took::On(CliV { seed: n, ..c }, 2),
                None => Took::Bad("--seed must be a u32"@),
            },
            None => Took::Bad(missing_value("--seed"@)),
        }
    } else if arg == "-v"@ || arg == "--verbose"@ {
        Took::On(CliV { verbose: true, ..c }, 1)
    } else if arg == "-h"@ || arg == "--help"@ {
        Took::Help
    } else {
        Took::Bad(unknown_argument(arg))
    }
}

/// The arguments of a run from number `i` on.
pub open spec fn run_from(args: Seq<Seq<char>>, i: int, c: CliV) -> Took<CliV>
    decreases args.len() - i,
{
    if i >= args.len() {
        Took::On(c, i)
    } else {
        match run_took(c, args[i], behind(args, i)) {
            Took::On(d, n) => if 0 < n <= args.len() - i {
                run_from(args, i + n, d)
            } else {
                Took::On(d, i + n)
            },
            t => t,
        }
    }
}

/// `r` is what a command line of a run asks for.
pub open spec fn run_asks(args: Seq<Seq<char>>, r: Parsed<Cli>) -> bool {
    match run_from(args, 0, default_run()) {
        Took::On(c, _) => if c.model.len() == 0 {
            r matches Parsed::Bad(m) && m@ == "missing --model"@
        } else {
            r matches Parsed::Run(k) && k@ == c
        },
        Took::Help => r is Help,
        Took::Bad(t) => r matches Parsed::Bad(m) && m@ == t,
    }
}

/// A step of reading a command line.
enum Step {
    On(usize),
    Help,
    Bad(String),
}

/// `s`, with the settings `d` after it, is the step `t`.
spec fn steps_as<V>(t: Took<V>, s: Step, d: V) -> bool {
    match t {
        Took::On(e, n) => s matches Step::On(k) && k == n && d == e,
        Took::Help => s is Help,
        Took::Bad(m) => s matches Step::Bad(x) && x@ == m,
    }
}

fn bad(m: &str) -> (r: Step)
    ensures
        r matches Step::Bad(x) && x@ == m@,
{
    Step::Bad(m.to_owned())
}

fn value_or_missing(value: Option<&String>, flag: &str) -> (r: Result<String, Step>)
    ensures
        match value {
            Some(x) => r matches Ok(y) && y@ == x@,
            None => r matches Err(Step::Bad(m)) && m@ == missing_value(flag@),
        },
{
    match value {
        Some(x) => Ok(x.as_str().to_owned()),
        None => Err(Step::Bad(make_missing(flag))),
    }
}

/// The text of the argument behind.
spec fn value_view(value: Option<&String>) -> Option<Seq<char>> {
    match value {
        Some(x) => Some(x@),
        None => None,
    }
}

fn read_float(value: Option<&String>, flag: &str, wrong: &str) -> (r: Result<u32, Step>)
    ensures
        match value {
            Some(x) => match number::single_in(x@) {
                Some(f) => r matches Ok(y) && y == f,
                None => r matches Err(Step::Bad(m)) && m@ == wrong@,
            },
            None => r matches Err(Step::Bad(m)) && m@ == missing_value(flag@),
        },
{
    match value {
        Some(x) => {
            let f: Option<u32> = number::read_single(x.as_str());
            proof {
                number::law_single_unique(x@, f, f);
            }
            match f {
                Some(v) => Ok(v),
                None => Err(bad(wrong)),
            }
        },
        None => Err(Step::Bad(make_missing(flag))),
    }
}

fn read_uint(value: Option<&String>, max: u64, flag: &str, wrong: &str) -> (r: Result<u64, Step>)
    ensures
        match value {
            Some(x) => match text::number_of(x@, max as nat) {
                Some(n) => r matches Ok(y) && y == n && y <= max,
                None => r matches Err(Step::Bad(m)) && m@ == wrong@,
            },
            None => r matches Err(Step::Bad(m)) && m@ == missing_value(flag@),
        },
{
    match value {
        Some(x) => match text::parse_uint(x.as_str(), max) {
            Some(v) => Ok(v),
            None => Err(bad(wrong)),
        },
        None => Err(Step::Bad(make_missing(flag))),
    }
}

impl Cli {
    /// Takes one argument that names a text.
    fn take_text(&mut self, arg: &str, value: Option<&String>) -> (r: Option<Step>)
        ensures
            match r {
                Some(s) => steps_as(run_took(old(self)@, arg@, value_view(value)), s, final(self)@),
                None => {
                    &&& *final(self) == *old(self)
                    &&& arg@ != "-m"@ && arg@ != "--model"@
                    &&& arg@ != "-p"@ && arg@ != "--prompt"@
                    &&& arg@ != "-s"@ && arg@ != "--system"@
                },
            },
    {
        if text::same(arg, "-m") || text::same(arg, "--model") {
            return Some(
                match value_or_missing(value, "--model") {
                    Ok(x) => {
                        self.model = x;
                        Step::On(2)
                    },
                    Err(s) => s,
                },
            );
        }
        proof {
            lemma_flags_differ();
        }
        if text::same(arg, "-p") || text::same(arg, "--prompt") {
            return Some(
                match value_or_missing(value, "--prompt") {
                    Ok(x) => {
                        self.prompt = x;
                        Step::On(2)
                    },
                    Err(s) => s,
                },
            );
        }
        if text::same(arg, "-s") || text::same(arg, "--system") {
            return Some(
                match value_or_missing(value, "--system") {
                    Ok(x) => {
                        self.system = x;
                        Step::On(2)
                    },
                    Err(s) => s,
                },
            );
        }
        None
    }

    /// Takes one argument that names a sampling limit.
    fn take_limit(&mut self, arg: &str, value: Option<&String>) -> (r: Option<Step>)
        requires
            arg@ != "-m"@ && arg@ != "--model"@,
            arg@ != "-p"@ && arg@ != "--prompt"@,
            arg@ != "-s"@ && arg@ != "--system"@,
            arg@ != "-n"@ && arg@ != "--n-predict"@,
            arg@ != "-c"@ && arg@ != "--ctx"@ && arg@ != "-t"@ && arg@ != "--threads"@ && arg@
                != "--n-batch"@,
        ensures
            match r {
                Some(s) => steps_as(run_took(old(self)@, arg@, value_view(value)), s, final(self)@),
                None => {
                    &&& *final(self) == *old(self)
                    &&& arg@ != "--temp"@ && arg@ != "--top-k"@ && arg@ != "--top-p"@
                    &&& arg@ != "--min-p"@ && arg@ != "--seed"@
                },
            },
    {
        if text::same(arg, "--temp") {
            return Some(
                match read_float(value, "--temp", "--temp must be a float") {
                    Ok(x) => {
                        self.temp = x;
                        Step::On(2)
                    },
                    Err(s) => s,
                },
            );
        }
        if text::same(arg, "--top-k") {
            let v: &String = match value {
                Some(x) => x,
                None => {
                    return Some(Step::Bad(make_missing("--top-k")));
                },
            };
            return Some(
                match text::parse_i32(v.as_str()) {
                    Some(x) => {
                        self.top_k = x;
                        Step::On(2)
                    },
                    None => bad("--top-k must be an int"),
                },
            );
        }
        if text::same(arg, "--top-p") {
            return Some(
                match read_float(value, "--top-p", "--top-p must be a float") {
                    Ok(x) => {
                        self.top_p = x;
                        Step::On(2)
                    },
                    Err(s) => s,
                },
            );
        }
        if text::same(arg, "--min-p") {
            return Some(
                match read_float(value, "--min-p", "--min-p must be a float") {
                    Ok(x) => {
                        self.min_p = x;
                        Step::On(2)
                    },
                    Err(s) => s,
                },
            );
        }
        if text::same(arg, "--seed") {
            return Some(
                match read_uint(value, u32::MAX as u64, "--seed", "--seed must be a u32") {
                    Ok(x) => {
                        self.seed = x as u32;
                        Step::On(2)
                    },
                    Err(s) => s,
                },
            );
        }
        None
    }

    /// Takes one argument.
    fn take(&mut self, arg: &str, value: Option<&String>) -> (r: Step)
        ensures
            steps_as(run_took(old(self)@, arg@, value_view(value)), r, final(self)@),
    {
        match self.take_text(arg, value) {
            Some(s) => {
                return s;
            },
            None => {},
        }
        if text::same(arg, "-n") || text::same(arg, "--n-predict") {
            return match read_uint(
                value,
                usize::MAX as u64,
                "--n-predict",
                "--n-predict must be an int",
            ) {
                Ok(x) => {
                    self.n_predict = x as usize;
                    Step::On(2)
                },
                Err(s) => s,
            };
        }
        if text::same(arg, "-c") || text::same(arg, "--ctx") || text::same(arg, "-t")
            || text::same(arg, "--threads") || text::same(arg, "--n-batch") {
            return Step::On(2);
        }
        match self.take_limit(arg, value) {
            Some(s) => {
                return s;
            },
            None => {},
        }
        if text::same(arg, "-v") || text::same(arg, "--verbose") {
            self.verbose = true;
            return Step::On(1);
        }
        if text::same(arg, "-h") || text::same(arg, "--help") {
            return Step::Help;
        }
        Step::Bad(text::concat("unknown argument: ", arg))
    }

    /// Reads the command line of a run: each argument in turn, the last setting of a kind
    /// counting, until one cannot be taken or asks for help; a run needs a model.
    pub fn parse(args: &[String]) -> (r: Parsed<Cli>)
        ensures
            run_asks(args_view(args@), r),
    {
        let mut c = Cli {
            model: String::new(),
            prompt: String::new(),
            system: String::new(),
            n_predict: 8,
            temp: DEFAULT_TEMP,
            top_k: 20,
            top_p: DEFAULT_TOP_P,
            min_p: 0,
            seed: RANDOM_SEED,
            verbose: false,
        };
        let ghost texts = args_view(args@);
        let n: usize = args.len();
        let mut i: usize = 0;
        assert(c@ =~= default_run());
        while i < n
            invariant
                n == args@.len(),
                i <= n,
                texts == args_view(args@),
                ending(run_from(texts, 0, default_run())) == ending(run_from(texts, i as int, c@)),
            decreases n - i,
        {
            let value: Option<&String> = if n - i > 1 {
                Some(&args[i + 1])
            } else {
                None
            };
            let ghost c0 = c@;
            assert(value_view(value) == behind(texts, i as int));
            match c.take(args[i].as_str(), value) {
                Step::On(k) => {
                    proof {
                        lemma_run_advances(c0, texts[i as int], behind(texts, i as int));
                        if i + k >= n {
                            assert(run_from(texts, i + k, c@) == Took::On(c@, i + k));
                            assert(run_from(texts, n as int, c@) == Took::On(c@, n as int));
                        }
                    }
                    if k > n - i {
                        i = n;
                    } else {
                        i += k;
                    }
                },
                Step::Help => {
                    return Parsed::Help;
                },
                Step::Bad(m) => {
                    return Parsed::Bad(m);
                },
            }
        }
        if c.model.as_str().is_empty() {
            return Parsed::Bad("missing --model".to_owned());
        }
        Parsed::Run(c)
    }

    /// The settings once standard input has been read in place of a prompt that is missing:
    /// what was read counts without the white space around it, and a run needs a prompt.
    pub fn with_input(self, input: &str) -> (r: Result<Cli, String>)
        ensures
            self.prompt@.len() > 0 ==> (r matches Ok(c) && c@ == self@),
            self.prompt@.len() == 0 ==> match r {
                Ok(c) => {
                    &&& text::trimmed(input@).len() > 0
                    &&& c@ == (CliV { prompt: text::trimmed(input@), ..self@ })
                },
                Err(m) => text::trimmed(input@).len() == 0 && m@
                    == "missing prompt (use --prompt or pipe stdin)"@,
            },
    {
        let mut c = self;
        if c.prompt.as_str().is_empty() {
            c.prompt = text::trim(input);
        }
        if c.prompt.as_str().is_empty() {
            return Err("missing prompt (use --prompt or pipe stdin)".to_owned());
        }
        Ok(c)
    }
}

/// The flags of a run that name a text are not one another.
proof fn lemma_flags_differ()
    ensures
        "-p"@ != "-m"@ && "-p"@ != "--model"@ && "--prompt"@ != "-m"@ && "--prompt"@ != "--model"@,
{
    reveal_strlit("-p");
    reveal_strlit("-m");
    reveal_strlit("--model");
    reveal_strlit("--prompt");
    assert("-p"@[1] != "-m"@[1]);
    assert("--prompt"@.len() != "--model"@.len());
}

/// Every argument that can be taken moves on by one or two.
proof fn lemma_run_advances(c: CliV, arg: Seq<char>, value: Option<Seq<char>>)
    ensures
        run_took(c, arg, value) matches Took::On(_, n) ==> 1 <= n <= 2,
{
}

// ---- serving a model ------------------------------------------------------------------------

/// How to serve a model.
#[derive(Debug)]
pub struct ServeCli {
    pub model: String,
    pub host: String,
    pub port: u16,
    pub think: bool,
    pub strip: bool,
    pub id: Option<String>,
}

/// The settings of a server, as mathematics has them.
#[verifier::ext_equal]
pub struct ServeV {
    pub model: Seq<char>,
    pub host: Seq<char>,
    pub port: nat,
    pub think: bool,
    pub strip: bool,
    pub id: Option<Seq<char>>,
}

impl View for ServeCli {
    type V = ServeV;

    open spec fn view(&self) -> ServeV {
        ServeV {
            model: self.model@,
            host: self.host@,
            port: self.port as nat,
            think: self.think,
            strip: self.strip,
            id: match self.id {
                Some(x) => Some(x@),
                None => None,
            },
        }
    }
}

/// The settings of a server that no argument has changed.
pub open spec fn default_serve() -> ServeV {
    ServeV {
        model: Seq::empty(),
        host: "127.0.0.1"@,
        port: 8080,
        think: false,
        strip: true,
        id: None,
    }
}

/// One argument of a server.
pub open spec fn serve_took(c: ServeV, arg: Seq<char>, value: Option<Seq<char>>) -> Took<ServeV> {
    if arg == "-m"@ || arg == "--model"@ {
        match value {
            Some(x) => Took::On(ServeV { model: x, ..c }, 2),
            None => Took::Bad(missing_value("--model"@)),
        }
    } else if arg == "--host"@ {
        match value {
            Some(x) => Took::On(ServeV { host: x, ..c }, 2),
            None => Took::Bad(missing_value("--host"@)),
        }
    } else if arg == "--port"@ {
        match value {
            Some(x) => match text::number_of(x, u16::MAX as nat) {
                Some(n) => Took::On(ServeV { port: n, ..c }, 2),
                None => Took::Bad("--port must be an int"@),
            },
            None => Took::Bad(missing_value("--port"@)),
        }
    } else if arg == "--think"@ {
        Took::On(ServeV { think: true, ..c }, 1)
    } else if arg == "--no-think"@ {
        Took::On(ServeV { think: false, ..c }, 1)
    } else if arg == "--keep-think"@ {
        Took::On(ServeV { strip: false, ..c }, 1)
    } else if arg == "--id"@ {
        match value {
            Some(x) => Took::On(ServeV { id: Some(x), ..c }, 2),
            None => Took::Bad(missing_value("--id"@)),
        }
    } else if arg == "-h"@ || arg == "--help"@ {
        Took::Help
    } else {
        Took::Bad(unknown_argument(arg))
    }
}

/// The arguments of a server from number `i` on.
pub open spec fn serve_from(args: Seq<Seq<char>>, i: int, c: ServeV) -> Took<ServeV>
    decreases args.len() - i,
{
    if i >= args.len() {
        Took::On(c, i)
    } else {
        match serve_took(c, args[i], behind(args, i)) {
            Took::On(d, n) => if 0 < n <= args.len() - i {
                serve_from(args, i + n, d)
            } else {
                Took::On(d, i + n)
            },
            t => t,
        }
    }
}

/// `r` is what a command line of a server asks for.
pub open spec fn serve_asks(args: Seq<Seq<char>>, r: Parsed<ServeCli>) -> bool {
    match serve_from(args, 0, default_serve()) {
        Took::On(c, _) => if c.model.len() == 0 {
            r matches Parsed::Bad(m) && m@ == "missing --model"@
        } else {
            r matches Parsed::Run(k) && k@ == c
        },
        Took::Help => r is Help,
        Took::Bad(t) => r matches Parsed::Bad(m) && m@ == t,
    }
}

impl ServeCli {
    /// Takes one argument.
    fn take(&mut self, arg: &str, value: Option<&String>) -> (r: Step)
        ensures
            steps_as(serve_took(old(self)@, arg@, value_view(value)), r, final(self)@),
    {
        if text::same(arg, "-m") || text::same(arg, "--model") {
            return match value_or_missing(value, "--model") {
                Ok(x) => {
                    self.model = x;
                    Step::On(2)
                },
                Err(s) => s,
            };
        }
        if text::same(arg, "--host") {
            return match value_or_missing(value, "--host") {
                Ok(x) => {
                    self.host = x;
                    Step::On(2)
                },
                Err(s) => s,
            };
        }
        if text::same(arg, "--port") {
            return match read_uint(value, u16::MAX as u64, "--port", "--port must be an int") {
                Ok(x) => {
                    self.port = x as u16;
                    Step::On(2)
                },
                Err(s) => s,
            };
        }
        if text::same(arg, "--think") {
            self.think = true;
            return Step::On(1);
        }
        if text::same(arg, "--no-think") {
            self.think = false;
            return Step::On(1);
        }
        if text::same(arg, "--keep-think") {
            self.strip = false;
            return Step::On(1);
        }
        if text::same(arg, "--id") {
            return match value_or_missing(value, "--id") {
                Ok(x) => {
                    self.id = Some(x);
                    Step::On(2)
                },
                Err(s) => s,
            };
        }
        if text::same(arg, "-h") || text::same(arg, "--help") {
            return Step::Help;
        }
        Step::Bad(text::concat("unknown argument: ", arg))
    }

    /// Reads the command line of a server: each argument in turn, the last setting of a kind
    /// counting, until one cannot be taken or asks for help; a server needs a model.
    pub fn parse(args: &[String]) -> (r: Parsed<ServeCli>)
        ensures
            serve_asks(args_view(args@), r),
    {
        let mut c = ServeCli {
            model: String::new(),
            host: "127.0.0.1".to_owned(),
            port: 8080,
            think: false,
            strip: true,
            id: None,
        };
        let ghost texts = args_view(args@);
        let n: usize = args.len();
        let mut i: usize = 0;
        assert(c@ =~= default_serve());
        while i < n
            invariant
                n == args@.len(),
                i <= n,
                texts == args_view(args@),
                ending(serve_from(texts, 0, default_serve())) == ending(serve_from(texts, i as int, c@)),
            decreases n - i,
        {
            let value: Option<&String> = if n - i > 1 {
                Some(&args[i + 1])
            } else {
                None
            };
            let ghost c0 = c@;
            assert(value_view(value) == behind(texts, i as int));
            match c.take(args[i].as_str(), value) {
                Step::On(k) => {
                    proof {
                        lemma_serve_advances(c0, texts[i as int], behind(texts, i as int));
                        if i + k >= n {
                            assert(serve_from(texts, i + k, c@) == Took::On(c@, i + k));
                            assert(serve_from(texts, n as int, c@) == Took::On(c@, n as int));
                        }
                    }
                    if k > n - i {
                        i = n;
                    } else {
                        i += k;
                    }
                },
                Step::Help => {
                    return Parsed::Help;
                },
                Step::Bad(m) => {
                    return Parsed::Bad(m);
                },
            }
        }
        if c.model.as_str().is_empty() {
            return Parsed::Bad("missing --model".to_owned());
        }
        Parsed::Run(c)
    }
}

/// Every argument that can be taken moves on by one or two.
proof fn lemma_serve_advances(c: ServeV, arg: Seq<char>, value: Option<Seq<char>>)
    ensures
        serve_took(c, arg, value) matches Took::On(_, n) ==> 1 <= n <= 2,
{
}

// ---- the prompt of a run ---------------------------------------------------------------------

/// The prompt of a run with one user message, the reply starting with its thoughts.
pub open spec fn template(system: Seq<char>, user: Seq<char>) -> Seq<char> {
    let head = if system.len() > 0 {
        "<|im_start|>system\n"@ + system + "<|im_end|>\n"@
    } else {
        Seq::empty()
    };
    head + "<|im_start|>user\n"@ + user + "<|im_end|>\n"@ + "<|im_start|>assistant\n<think>\n"@
}

/// Wraps a system text, if there is one, and a user text in the markers of a chat.
pub fn apply_qwen35_template(system: &str, user: &str) -> (r: String)
    ensures
        r@ == template(system@, user@),
{
    let mut out = String::new();
    if !system.is_empty() {
        out.append("<|im_start|>system\n");
        out.append(system);
        out.append("<|im_end|>\n");
    }
    out.append("<|im_start|>user\n");
    out.append(user);
    out.append("<|im_end|>\n");
    out.append("<|im_start|>assistant\n<think>\n");
    assert(out@ =~= template(system@, user@));
    out
}

} // verus!
