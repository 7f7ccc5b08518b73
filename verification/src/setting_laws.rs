//! What settings mean: the options of a command line, the keys of a model's metadata, and where a
//! reply ends.

use vstd::prelude::*;

use crate::cli;
use crate::cli::{CliV, ServeV, Took};
use crate::config;
use crate::config::Qwen35;
use crate::draft;
use crate::draft::Weight;
use crate::dspark;
use crate::dspark::DsparkCfg;
use crate::engine;
use crate::engine::{Action, EventV, Finish, GenV};
use crate::gguf;
use crate::gguf::{Entry, ValueV};
use crate::inspect;
use crate::lookup;
use crate::lookup::Key;
use crate::manifest;
use crate::manifest::ExpectV;
use crate::number;
use crate::prefill;
use crate::reply_laws;
use crate::sampler;
use crate::speculative;
use crate::text;

verus! {

// ---- command lines ------------------------------------------------------------------------------

/// The options are told apart.
proof fn lemma_flags()
    ensures
        "-m"@.len() == 2 && "-m"@[1] == 'm',
        "--model"@.len() == 7 && "--model"@[1] == '-' && "--model"@[2] == 'm' && "--model"@[3] == 'o' && "--model"@[4] == 'd' && "--model"@[6] == 'l',
        "-p"@.len() == 2 && "-p"@[1] == 'p',
        "--prompt"@.len() == 8 && "--prompt"@[1] == '-' && "--prompt"@[2] == 'p' && "--prompt"@[3] == 'r' && "--prompt"@[4] == 'o' && "--prompt"@[7] == 't',
        "-s"@.len() == 2 && "-s"@[1] == 's',
        "--system"@.len() == 8 && "--system"@[1] == '-' && "--system"@[2] == 's' && "--system"@[3] == 'y' && "--system"@[4] == 's' && "--system"@[7] == 'm',
        "-n"@.len() == 2 && "-n"@[1] == 'n',
        "--n-predict"@.len() == 11 && "--n-predict"@[1] == '-' && "--n-predict"@[2] == 'n' && "--n-predict"@[3] == '-' && "--n-predict"@[4] == 'p' && "--n-predict"@[10] == 't',
        "-c"@.len() == 2 && "-c"@[1] == 'c',
        "--ctx"@.len() == 5 && "--ctx"@[1] == '-' && "--ctx"@[2] == 'c' && "--ctx"@[3] == 't' && "--ctx"@[4] == 'x',
        "-t"@.len() == 2 && "-t"@[1] == 't',
        "--threads"@.len() == 9 && "--threads"@[1] == '-' && "--threads"@[2] == 't' && "--threads"@[3] == 'h' && "--threads"@[4] == 'r' && "--threads"@[8] == 's',
        "--n-batch"@.len() == 9 && "--n-batch"@[1] == '-' && "--n-batch"@[2] == 'n' && "--n-batch"@[3] == '-' && "--n-batch"@[4] == 'b' && "--n-batch"@[8] == 'h',
        "--temp"@.len() == 6 && "--temp"@[1] == '-' && "--temp"@[2] == 't' && "--temp"@[3] == 'e' && "--temp"@[4] == 'm' && "--temp"@[5] == 'p',
        "--top-k"@.len() == 7 && "--top-k"@[1] == '-' && "--top-k"@[2] == 't' && "--top-k"@[3] == 'o' && "--top-k"@[4] == 'p' && "--top-k"@[6] == 'k',
        "--top-p"@.len() == 7 && "--top-p"@[1] == '-' && "--top-p"@[2] == 't' && "--top-p"@[3] == 'o' && "--top-p"@[4] == 'p' && "--top-p"@[6] == 'p',
        "--min-p"@.len() == 7 && "--min-p"@[1] == '-' && "--min-p"@[2] == 'm' && "--min-p"@[3] == 'i' && "--min-p"@[4] == 'n' && "--min-p"@[6] == 'p',
        "--seed"@.len() == 6 && "--seed"@[1] == '-' && "--seed"@[2] == 's' && "--seed"@[3] == 'e' && "--seed"@[4] == 'e' && "--seed"@[5] == 'd',
        "-v"@.len() == 2 && "-v"@[1] == 'v',
        "--verbose"@.len() == 9 && "--verbose"@[1] == '-' && "--verbose"@[2] == 'v' && "--verbose"@[3] == 'e' && "--verbose"@[4] == 'r' && "--verbose"@[8] == 'e',
        "-h"@.len() == 2 && "-h"@[1] == 'h',
        "--help"@.len() == 6 && "--help"@[1] == '-' && "--help"@[2] == 'h' && "--help"@[3] == 'e' && "--help"@[4] == 'l' && "--help"@[5] == 'p',
        "--host"@.len() == 6 && "--host"@[1] == '-' && "--host"@[2] == 'h' && "--host"@[3] == 'o' && "--host"@[4] == 's' && "--host"@[5] == 't',
        "--port"@.len() == 6 && "--port"@[1] == '-' && "--port"@[2] == 'p' && "--port"@[3] == 'o' && "--port"@[4] == 'r' && "--port"@[5] == 't',
        "--think"@.len() == 7 && "--think"@[1] == '-' && "--think"@[2] == 't' && "--think"@[3] == 'h' && "--think"@[4] == 'i' && "--think"@[6] == 'k',
        "--no-think"@.len() == 10 && "--no-think"@[1] == '-' && "--no-think"@[2] == 'n' && "--no-think"@[3] == 'o' && "--no-think"@[4] == '-' && "--no-think"@[9] == 'k',
        "--keep-think"@.len() == 12 && "--keep-think"@[1] == '-' && "--keep-think"@[2] == 'k' && "--keep-think"@[3] == 'e' && "--keep-think"@[4] == 'e' && "--keep-think"@[11] == 'k',
        "--id"@.len() == 4 && "--id"@[1] == '-' && "--id"@[2] == 'i' && "--id"@[3] == 'd',
{
    reveal_strlit("-m");
    reveal_strlit("--model");
    reveal_strlit("-p");
    reveal_strlit("--prompt");
    reveal_strlit("-s");
    reveal_strlit("--system");
    reveal_strlit("-n");
    reveal_strlit("--n-predict");
    reveal_strlit("-c");
    reveal_strlit("--ctx");
    reveal_strlit("-t");
    reveal_strlit("--threads");
    reveal_strlit("--n-batch");
    reveal_strlit("--temp");
    reveal_strlit("--top-k");
    reveal_strlit("--top-p");
    reveal_strlit("--min-p");
    reveal_strlit("--seed");
    reveal_strlit("-v");
    reveal_strlit("--verbose");
    reveal_strlit("-h");
    reveal_strlit("--help");
    reveal_strlit("--host");
    reveal_strlit("--port");
    reveal_strlit("--think");
    reveal_strlit("--no-think");
    reveal_strlit("--keep-think");
    reveal_strlit("--id");
}

proof fn lemma_run_goes_on(
    args: Seq<Seq<char>>,
    more: Seq<Seq<char>>,
    i: int,
    c: CliV,
    d: CliV,
)
    requires
        0 <= i <= args.len(),
        cli::run_from(args, i, c) == Took::On(d, args.len() as int),
    ensures
        cli::run_from(args + more, i, c) == cli::run_from(args + more, args.len() as int, d),
    decreases args.len() - i,
{
    let all = args + more;
    if i < args.len() {
        assert(all[i] == args[i]);
        let t = cli::run_took(c, args[i], cli::behind(args, i));
        let u = cli::run_took(c, args[i], cli::behind(all, i));
        if i + 1 < args.len() {
            assert(all[i + 1] == args[i + 1]);
        }
        match t {
            Took::On(e, n) => {
                if 0 < n <= args.len() - i {
                    assert(u == t);
                    lemma_run_goes_on(args, more, i + n, e, d);
                }
            },
            _ => {},
        }
    }
}

proof fn lemma_serve_goes_on(
    args: Seq<Seq<char>>,
    more: Seq<Seq<char>>,
    i: int,
    c: ServeV,
    d: ServeV,
)
    requires
        0 <= i <= args.len(),
        cli::serve_from(args, i, c) == Took::On(d, args.len() as int),
    ensures
        cli::serve_from(args + more, i, c) == cli::serve_from(args + more, args.len() as int, d),
    decreases args.len() - i,
{
    let all = args + more;
    if i < args.len() {
        assert(all[i] == args[i]);
        let t = cli::serve_took(c, args[i], cli::behind(args, i));
        let u = cli::serve_took(c, args[i], cli::behind(all, i));
        if i + 1 < args.len() {
            assert(all[i + 1] == args[i + 1]);
        }
        match t {
            Took::On(e, n) => {
                if 0 < n <= args.len() - i {
                    assert(u == t);
                    lemma_serve_goes_on(args, more, i + n, e, d);
                }
            },
            _ => {},
        }
    }
}

/// The settings that a run has behind further arguments.
pub open spec fn run_with(args: Seq<Seq<char>>, more: Seq<Seq<char>>) -> Option<CliV> {
    match cli::run_from(args + more, 0, cli::default_run()) {
        Took::On(c, _) => Some(c),
        _ => None,
    }
}

proof fn lemma_run_pair(args: Seq<Seq<char>>, d: CliV, flag: Seq<char>, x: Seq<char>)
    requires
        cli::run_from(args, 0, cli::default_run()) == Took::On(d, args.len() as int),
    ensures
        cli::run_took(d, flag, Some(x)) matches Took::On(e, n) ==> n == 2 ==> run_with(
            args,
            seq![flag, x],
        ) == Some(e),
        cli::run_took(d, flag, Some(x)) is Bad ==> run_with(args, seq![flag, x]) is None,
        cli::run_took(d, flag, None) matches Took::On(e, n) ==> n == 1 ==> run_with(args, seq![flag])
            == Some(e),
        cli::run_took(d, flag, None) is Bad ==> run_with(args, seq![flag]) is None,
{
    reveal_with_fuel(cli::run_from, 3);
    let all = args + seq![flag, x];
    lemma_run_goes_on(args, seq![flag, x], 0, cli::default_run(), d);
    let n = args.len() as int;
    assert(all[n] == flag && all[n + 1] == x);
    assert(cli::behind(all, n) == Some(x));
    let one = args + seq![flag];
    lemma_run_goes_on(args, seq![flag], 0, cli::default_run(), d);
    assert(one[n] == flag);
    assert(cli::behind(one, n) is None);
}

/// Each option of a run sets what it names and nothing else, behind any arguments that can be
/// taken, so that the last setting of a kind counts.
#[verifier::spinoff_prover]
#[verifier::rlimit(60)]
pub proof fn law_run_options_are_obeyed(args: Seq<Seq<char>>, d: CliV, x: Seq<char>)
    requires
        cli::run_from(args, 0, cli::default_run()) == Took::On(d, args.len() as int),
    ensures
        run_with(args, seq!["--model"@, x]) == Some(CliV { model: x, ..d }),
        run_with(args, seq!["-m"@, x]) == Some(CliV { model: x, ..d }),
        run_with(args, seq!["--prompt"@, x]) == Some(CliV { prompt: x, ..d }),
        run_with(args, seq!["-p"@, x]) == Some(CliV { prompt: x, ..d }),
        run_with(args, seq!["--system"@, x]) == Some(CliV { system: x, ..d }),
        run_with(args, seq!["-s"@, x]) == Some(CliV { system: x, ..d }),
        run_with(args, seq!["--verbose"@]) == Some(CliV { verbose: true, ..d }),
        run_with(args, seq!["-v"@]) == Some(CliV { verbose: true, ..d }),
        run_with(args, seq!["--ctx"@, x]) == Some(d),
{
    lemma_flags();
    lemma_run_pair(args, d, "--model"@, x);
    lemma_run_pair(args, d, "-m"@, x);
    lemma_run_pair(args, d, "--prompt"@, x);
    lemma_run_pair(args, d, "-p"@, x);
    lemma_run_pair(args, d, "--system"@, x);
    lemma_run_pair(args, d, "-s"@, x);
    lemma_run_pair(args, d, "--verbose"@, x);
    lemma_run_pair(args, d, "-v"@, x);
    lemma_run_pair(args, d, "--ctx"@, x);
}

/// Each option of a run that takes a number sets what it names to that number; what is no such
/// number is refused.
#[verifier::spinoff_prover]
#[verifier::rlimit(60)]
pub proof fn law_run_numbers_are_obeyed(args: Seq<Seq<char>>, d: CliV, x: Seq<char>)
    requires
        cli::run_from(args, 0, cli::default_run()) == Took::On(d, args.len() as int),
    ensures
        run_with(args, seq!["--temp"@, x]) == match number::single_in(x) {
            Some(f) => Some(CliV { temp: f, ..d }),
            None => None,
        },
        run_with(args, seq!["--top-p"@, x]) == match number::single_in(x) {
            Some(f) => Some(CliV { top_p: f, ..d }),
            None => None,
        },
        run_with(args, seq!["--min-p"@, x]) == match number::single_in(x) {
            Some(f) => Some(CliV { min_p: f, ..d }),
            None => None,
        },
        run_with(args, seq!["--top-k"@, x]) == match text::integer_of(
            x,
            -0x8000_0000,
            0x7FFF_FFFF,
        ) {
            Some(k) => Some(CliV { top_k: k, ..d }),
            None => None,
        },
        run_with(args, seq!["--seed"@, x]) == match text::number_of(x, 0xFFFF_FFFF) {
            Some(s) => Some(CliV { seed: s, ..d }),
            None => None,
        },
        run_with(args, seq!["--n-predict"@, x]) == match text::number_of(x, usize::MAX as nat) {
            Some(k) => Some(CliV { n_predict: k, ..d }),
            None => None,
        },
        run_with(args, seq!["-n"@, x]) == run_with(args, seq!["--n-predict"@, x]),
{
    lemma_flags();
    lemma_run_pair(args, d, "--temp"@, x);
    lemma_run_pair(args, d, "--top-p"@, x);
    lemma_run_pair(args, d, "--min-p"@, x);
    lemma_run_pair(args, d, "--top-k"@, x);
    lemma_run_pair(args, d, "--seed"@, x);
    lemma_run_pair(args, d, "--n-predict"@, x);
    lemma_run_pair(args, d, "-n"@, x);
}

/// The settings that a server has behind further arguments.
pub open spec fn serve_with(args: Seq<Seq<char>>, more: Seq<Seq<char>>) -> Option<ServeV> {
    match cli::serve_from(args + more, 0, cli::default_serve()) {
        Took::On(c, _) => Some(c),
        _ => None,
    }
}

proof fn lemma_serve_pair(args: Seq<Seq<char>>, d: ServeV, flag: Seq<char>, x: Seq<char>)
    requires
        cli::serve_from(args, 0, cli::default_serve()) == Took::On(d, args.len() as int),
    ensures
        cli::serve_took(d, flag, Some(x)) matches Took::On(e, n) ==> n == 2 ==> serve_with(
            args,
            seq![flag, x],
        ) == Some(e),
        cli::serve_took(d, flag, Some(x)) is Bad ==> serve_with(args, seq![flag, x]) is None,
        cli::serve_took(d, flag, None) matches Took::On(e, n) ==> n == 1 ==> serve_with(
            args,
            seq![flag],
        ) == Some(e),
{
    reveal_with_fuel(cli::serve_from, 3);
    let all = args + seq![flag, x];
    lemma_serve_goes_on(args, seq![flag, x], 0, cli::default_serve(), d);
    let n = args.len() as int;
    assert(all[n] == flag && all[n + 1] == x);
    assert(cli::behind(all, n) == Some(x));
    let one = args + seq![flag];
    lemma_serve_goes_on(args, seq![flag], 0, cli::default_serve(), d);
    assert(one[n] == flag);
    assert(cli::behind(one, n) is None);
}

/// Each option of a server sets what it names and nothing else, behind any arguments that can be
/// taken.
#[verifier::spinoff_prover]
#[verifier::rlimit(60)]
pub proof fn law_serve_options_are_obeyed(args: Seq<Seq<char>>, d: ServeV, x: Seq<char>)
    requires
        cli::serve_from(args, 0, cli::default_serve()) == Took::On(d, args.len() as int),
    ensures
        serve_with(args, seq!["--model"@, x]) == Some(ServeV { model: x, ..d }),
        serve_with(args, seq!["--host"@, x]) == Some(ServeV { host: x, ..d }),
        serve_with(args, seq!["--id"@, x]) == Some(ServeV { id: Some(x), ..d }),
        serve_with(args, seq!["--think"@]) == Some(ServeV { think: true, ..d }),
        serve_with(args, seq!["--no-think"@]) == Some(ServeV { think: false, ..d }),
        serve_with(args, seq!["--keep-think"@]) == Some(ServeV { strip: false, ..d }),
        serve_with(args, seq!["--port"@, x]) == match text::number_of(x, 0xFFFF) {
            Some(n) => Some(ServeV { port: n, ..d }),
            None => None,
        },
{
    lemma_flags();
    lemma_serve_pair(args, d, "--model"@, x);
    lemma_serve_pair(args, d, "--host"@, x);
    lemma_serve_pair(args, d, "--id"@, x);
    lemma_serve_pair(args, d, "--think"@, x);
    lemma_serve_pair(args, d, "--no-think"@, x);
    lemma_serve_pair(args, d, "--keep-think"@, x);
    lemma_serve_pair(args, d, "--port"@, x);
}

/// The prompt of a run carries its user text behind its system text: other texts make another
/// prompt.
pub proof fn law_template_carries_texts(s: Seq<char>, u: Seq<char>, w: Seq<char>)
    ensures
        cli::template(s, u) == cli::template(s, w) ==> u == w,
        u.len() > 0 && s.len() > 0 && cli::template(s, w) == cli::template(u, w) ==> s == u,
{
    let tail = "<|im_end|>\n"@ + "<|im_start|>assistant\n<think>\n"@;
    let open = if s.len() > 0 {
        "<|im_start|>system\n"@ + s + "<|im_end|>\n"@
    } else {
        Seq::empty()
    };
    let h = open + "<|im_start|>user\n"@;
    assert(cli::template(s, u) =~= h + u + tail);
    assert(cli::template(s, w) =~= h + w + tail);
    if cli::template(s, u) == cli::template(s, w) {
        lemma_middle(h, u, w, tail);
    }
    if u.len() > 0 && s.len() > 0 {
        let rest = "<|im_end|>\n"@ + "<|im_start|>user\n"@ + w + tail;
        let first = "<|im_start|>system\n"@;
        assert(cli::template(s, w) =~= first + s + rest);
        assert(cli::template(u, w) =~= first + u + rest);
        if cli::template(s, w) == cli::template(u, w) {
            lemma_middle(first, s, u, rest);
        }
    }
}

proof fn lemma_middle(h: Seq<char>, x: Seq<char>, y: Seq<char>, t: Seq<char>)
    requires
        h + x + t == h + y + t,
    ensures
        x == y,
{
    let (p, q) = (h + x + t, h + y + t);
    assert(p.len() == q.len());
    let n = h.len() as int;
    assert(p.subrange(n, n + x.len()) =~= x);
    assert(q.subrange(n, n + y.len()) =~= y);
}

// ---- metadata -----------------------------------------------------------------------------------

/// Metadata that describes a configuration.
pub open spec fn meta_of(c: Qwen35) -> Seq<Entry> {
    seq![
        (
            "qwen35.block_count"@,
            ValueV::U64(c.n_layer as u64),
        ),
        (
            "qwen35.embedding_length"@,
            ValueV::U64(c.n_embd as u64),
        ),
        (
            "qwen35.feed_forward_length"@,
            ValueV::U64(c.n_ff as u64),
        ),
        (
            "qwen35.attention.head_count"@,
            ValueV::U64(c.n_head as u64),
        ),
        (
            "qwen35.attention.head_count_kv"@,
            ValueV::U64(c.n_head_kv as u64),
        ),
        (
            "qwen35.attention.key_length"@,
            ValueV::U64(c.n_embd_head as u64),
        ),
        (
            "qwen35.context_length"@,
            ValueV::U64(c.n_ctx_train as u64),
        ),
        (
            "qwen35.full_attention_interval"@,
            ValueV::U64(c.interval as u64),
        ),
        (
            "qwen35.rope.dimension_count"@,
            ValueV::U64(c.n_rot as u64),
        ),
        (
            "qwen35.ssm.conv_kernel"@,
            ValueV::U64(c.ssm_conv_kernel as u64),
        ),
        (
            "qwen35.ssm.state_size"@,
            ValueV::U64(c.ssm_state as u64),
        ),
        (
            "qwen35.ssm.group_count"@,
            ValueV::U64(c.ssm_group_count as u64),
        ),
        (
            "qwen35.ssm.time_step_rank"@,
            ValueV::U64(c.ssm_dt_rank as u64),
        ),
        (
            "qwen35.ssm.inner_size"@,
            ValueV::U64(c.ssm_inner as u64),
        ),
        (
            "qwen35.attention.layer_norm_rms_epsilon"@,
            ValueV::F32(c.eps),
        ),
        (
            "qwen35.rope.freq_base"@,
            ValueV::F32(c.freq_base),
        ),
        (
            "qwen35.rope.dimension_sections"@,
            ValueV::Array {
                elem_type: 5,
                items: seq![
                    ValueV::I32(c.sections@[0]),
                    ValueV::I32(c.sections@[1]),
                    ValueV::I32(c.sections@[2]),
                    ValueV::I32(c.sections@[3]),
                ],
            },
        ),
    ]
}

/// The keys are told apart.
proof fn lemma_keys()
    ensures
        "qwen35.block_count"@.len() == 18 && "qwen35.block_count"@[7] == 'b' && "qwen35.block_count"@[11] == 'k',
        "qwen35.embedding_length"@.len() == 23 && "qwen35.embedding_length"@[7] == 'e' && "qwen35.embedding_length"@[11] == 'd',
        "qwen35.feed_forward_length"@.len() == 26 && "qwen35.feed_forward_length"@[7] == 'f' && "qwen35.feed_forward_length"@[11] == '_',
        "qwen35.attention.head_count"@.len() == 27 && "qwen35.attention.head_count"@[7] == 'a' && "qwen35.attention.head_count"@[11] == 'n' && "qwen35.attention.head_count"@[17] == 'h',
        "qwen35.attention.head_count_kv"@.len() == 30 && "qwen35.attention.head_count_kv"@[7] == 'a' && "qwen35.attention.head_count_kv"@[11] == 'n',
        "qwen35.attention.key_length"@.len() == 27 && "qwen35.attention.key_length"@[7] == 'a' && "qwen35.attention.key_length"@[11] == 'n' && "qwen35.attention.key_length"@[17] == 'k',
        "qwen35.context_length"@.len() == 21 && "qwen35.context_length"@[7] == 'c' && "qwen35.context_length"@[11] == 'e',
        "qwen35.full_attention_interval"@.len() == 30 && "qwen35.full_attention_interval"@[7] == 'f' && "qwen35.full_attention_interval"@[11] == '_',
        "qwen35.rope.dimension_count"@.len() == 27 && "qwen35.rope.dimension_count"@[7] == 'r' && "qwen35.rope.dimension_count"@[11] == '.' && "qwen35.rope.dimension_count"@[17] == 's',
        "qwen35.ssm.conv_kernel"@.len() == 22 && "qwen35.ssm.conv_kernel"@[7] == 's' && "qwen35.ssm.conv_kernel"@[11] == 'c',
        "qwen35.ssm.state_size"@.len() == 21 && "qwen35.ssm.state_size"@[7] == 's' && "qwen35.ssm.state_size"@[11] == 's',
        "qwen35.ssm.group_count"@.len() == 22 && "qwen35.ssm.group_count"@[7] == 's' && "qwen35.ssm.group_count"@[11] == 'g',
        "qwen35.ssm.time_step_rank"@.len() == 25 && "qwen35.ssm.time_step_rank"@[7] == 's' && "qwen35.ssm.time_step_rank"@[11] == 't',
        "qwen35.ssm.inner_size"@.len() == 21 && "qwen35.ssm.inner_size"@[7] == 's' && "qwen35.ssm.inner_size"@[11] == 'i',
        "qwen35.attention.layer_norm_rms_epsilon"@.len() == 39 && "qwen35.attention.layer_norm_rms_epsilon"@[7] == 'a' && "qwen35.attention.layer_norm_rms_epsilon"@[11] == 'n',
        "qwen35.rope.freq_base"@.len() == 21 && "qwen35.rope.freq_base"@[7] == 'r' && "qwen35.rope.freq_base"@[11] == '.',
        "qwen35.rope.dimension_sections"@.len() == 30 && "qwen35.rope.dimension_sections"@[7] == 'r' && "qwen35.rope.dimension_sections"@[11] == '.',
{
    reveal_strlit("qwen35.block_count");
    reveal_strlit("qwen35.embedding_length");
    reveal_strlit("qwen35.feed_forward_length");
    reveal_strlit("qwen35.attention.head_count");
    reveal_strlit("qwen35.attention.head_count_kv");
    reveal_strlit("qwen35.attention.key_length");
    reveal_strlit("qwen35.context_length");
    reveal_strlit("qwen35.full_attention_interval");
    reveal_strlit("qwen35.rope.dimension_count");
    reveal_strlit("qwen35.ssm.conv_kernel");
    reveal_strlit("qwen35.ssm.state_size");
    reveal_strlit("qwen35.ssm.group_count");
    reveal_strlit("qwen35.ssm.time_step_rank");
    reveal_strlit("qwen35.ssm.inner_size");
    reveal_strlit("qwen35.attention.layer_norm_rms_epsilon");
    reveal_strlit("qwen35.rope.freq_base");
    reveal_strlit("qwen35.rope.dimension_sections");
}

proof fn lemma_entry(m: Seq<Entry>, i: int)
    requires
        0 <= i < m.len(),
        forall|j: int| i < j < m.len() ==> (#[trigger] m[j]).0 != m[i].0,
    ensures
        gguf::lookup(m, m[i].0) == Some(m[i].1),
    decreases m.len(),
{
    if i < m.len() - 1 {
        let d = m.drop_last();
        assert(d[i] == m[i]);
        assert(m[m.len() - 1].0 != m[i].0);
        assert forall|j: int| i < j < d.len() implies (#[trigger] d[j]).0 != d[i].0 by {
            assert(d[j] == m[j]);
        }
        lemma_entry(d, i);
    }
}

/// A configuration reads back from metadata that describes it.
#[verifier::spinoff_prover]
#[verifier::rlimit(60)]
pub proof fn law_configuration_reads_back(c: Qwen35, d: Qwen35)
    requires
        config::cfg_reads(meta_of(c), d),
    ensures
        d.n_layer == c.n_layer,
        d.n_embd == c.n_embd,
        d.n_ff == c.n_ff,
        d.n_head == c.n_head,
        d.n_head_kv == c.n_head_kv,
        d.n_embd_head == c.n_embd_head,
        d.n_ctx_train == c.n_ctx_train,
        d.interval == c.interval,
        d.n_rot == c.n_rot,
        d.ssm_conv_kernel == c.ssm_conv_kernel,
        d.ssm_state == c.ssm_state,
        d.ssm_group_count == c.ssm_group_count,
        d.ssm_dt_rank == c.ssm_dt_rank,
        d.ssm_inner == c.ssm_inner,
        d.eps == c.eps,
        d.freq_base == c.freq_base,
        forall|i: int| 0 <= i < 4 ==> #[trigger] d.sections@[i] == c.sections@[i],
{
    lemma_keys();
    let m = meta_of(c);
    lemma_entry(m, 0);
    lemma_entry(m, 1);
    lemma_entry(m, 2);
    lemma_entry(m, 3);
    lemma_entry(m, 4);
    lemma_entry(m, 5);
    lemma_entry(m, 6);
    lemma_entry(m, 7);
    lemma_entry(m, 8);
    lemma_entry(m, 9);
    lemma_entry(m, 10);
    lemma_entry(m, 11);
    lemma_entry(m, 12);
    lemma_entry(m, 13);
    lemma_entry(m, 14);
    lemma_entry(m, 15);
    lemma_entry(m, 16);
    let s = config::sections_at(m, "qwen35.rope.dimension_sections"@);
    assert(s is Some);
    assert(d.sections == s->0);
}

/// Nothing is missing from metadata that describes a configuration.
#[verifier::spinoff_prover]
#[verifier::rlimit(60)]
pub proof fn law_described_configuration_is_found(c: Qwen35)
    ensures
        !config::lacks(meta_of(c)),
{
    lemma_keys();
    let m = meta_of(c);
    lemma_entry(m, 0);
    lemma_entry(m, 1);
    lemma_entry(m, 2);
    lemma_entry(m, 3);
    lemma_entry(m, 4);
    lemma_entry(m, 5);
    lemma_entry(m, 6);
    lemma_entry(m, 7);
    lemma_entry(m, 8);
    lemma_entry(m, 9);
    lemma_entry(m, 10);
    lemma_entry(m, 11);
    lemma_entry(m, 12);
    lemma_entry(m, 13);
    lemma_entry(m, 14);
    lemma_entry(m, 15);
    lemma_entry(m, 16);
}

// ---- places of keys -----------------------------------------------------------------------------

/// The place of a key holds it, and none behind does; a key without a place is nowhere.
pub proof fn law_last_place(keys: Seq<Key>, k: Key)
    ensures
        match lookup::last_place(keys, k) {
            Some(i) => 0 <= i < keys.len() && keys[i] == k && (forall|j: int|
                i < j < keys.len() ==> #[trigger] keys[j] != k),
            None => !keys.contains(k),
        },
    decreases keys.len(),
{
    if keys.len() > 0 {
        let d = keys.drop_last();
        law_last_place(d, k);
        if keys.last() != k {
            match lookup::last_place(d, k) {
                Some(i) => {
                    assert(d[i] == keys[i]);
                    assert forall|j: int| i < j < keys.len() implies #[trigger] keys[j] != k by {
                        if j < d.len() {
                            assert(d[j] == keys[j]);
                        }
                    }
                },
                None => {
                    if keys.contains(k) {
                        let j = choose|j: int| 0 <= j < keys.len() && keys[j] == k;
                        assert(d[j] == k);
                    }
                },
            }
        }
    }
}

// ---- where replies end --------------------------------------------------------------------------

/// A greedy reply is made of the target's own tokens, one behind the other. It holds no stop token
/// and keeps to the limit; it is shorter only where a stop token follows.
pub proof fn law_greedy_reply(
    g: spec_fn(Seq<u32>) -> u32,
    h: Seq<u32>,
    stop: Seq<u32>,
    max: int,
    n: int,
)
    requires
        n < max,
    ensures
        ({
            let r = engine::greedy_reply(g, h, stop, max, n);
            &&& forall|i: int|
                0 <= i < r.len() ==> #[trigger] r[i] == g(h + r.take(i)) && !stop.contains(r[i])
            &&& r.len() <= max - n
            &&& r.len() < max - n ==> stop.contains(g(h + r))
        }),
    decreases max - n,
{
    let r = engine::greedy_reply(g, h, stop, max, n);
    let t = g(h);
    let none = Seq::<u32>::empty();
    assert(h + none =~= h);
    if stop.contains(t) {
        assert(r == none);
    } else if n + 1 >= max {
        assert(r == seq![t]);
        assert(r.take(0) =~= none);
    } else {
        law_greedy_reply(g, h.push(t), stop, max, n + 1);
        let q = engine::greedy_reply(g, h.push(t), stop, max, n + 1);
        assert(r == seq![t] + q);
        assert forall|i: int| 0 <= i < r.len() implies #[trigger] r[i] == g(h + r.take(i))
            && !stop.contains(r[i]) by {
            if i == 0 {
                assert(r.take(0) =~= none);
            } else {
                assert(r[i] == q[i - 1]);
                assert(h + r.take(i) =~= h.push(t) + q.take(i - 1));
            }
        }
        assert(h + r =~= h.push(t) + q);
    }
}

/// Without speculation a token is sent, counted, and then forwarded at the position behind what
/// the decoder holds. A stop token is not sent; the limit, or a client that is gone, ends the
/// reply.
pub proof fn law_token_by_token(st: GenV, id: u32)
    requires
        !st.speculate,
        0 <= st.n_past < usize::MAX,
    ensures
        ({
            let (a, first) = engine::gen_step(st, EventV::Token(id));
            let (b, next) = engine::gen_step(a, EventV::Sent(true));
            let (_, gone) = engine::gen_step(a, EventV::Sent(false));
            if st.stop.contains(id) {
                first == Action::Finish(Finish::Stop)
            } else {
                &&& first == Action::Send(id)
                &&& gone == Action::Finish(Finish::Stop)
                &&& b.n_out == st.n_out + 1
                &&& if st.n_out + 1 >= st.max_tokens {
                    next == Action::Finish(Finish::Length)
                } else {
                    &&& next matches Action::Forward { token, pos } && token == id && pos == st.n_past
                    &&& b.n_past == st.n_past + 1
                }
            }
        }),
{
}

/// With speculation a round follows each pending token; what it emits is offered in order, and the
/// decoder then holds that many more.
pub proof fn law_round_by_round(st: GenV, id: u32, emitted: Seq<u32>)
    requires
        st.speculate,
        0 <= st.n_past < usize::MAX,
        !st.stop.contains(id),
        st.n_out + 1 < st.max_tokens,
        emitted.len() > 0,
        !st.stop.contains(emitted[0]),
    ensures
        ({
            let (a, _) = engine::gen_step(st, EventV::Token(id));
            let (b, next) = engine::gen_step(a, EventV::Sent(true));
            let (c, sent) = engine::gen_step(b, EventV::Round(emitted));
            &&& next matches Action::Draft { pending, pos } && pending == id && pos == st.n_past
            &&& sent == Action::Send(emitted[0])
            &&& c.queue == emitted.skip(1)
            &&& c.n_past == st.n_past + emitted.len()
        }),
{
}

/// The drafts are the best tokens of their positions, each with a confidence that is not below the
/// bound; drafting ends early only at one that is.
pub proof fn law_drafts_are_confident(
    conf: Seq<u32>,
    logits: Seq<u32>,
    n_vocab: int,
    first: int,
    n_draft: int,
    p_min: u32,
    t: int,
)
    requires
        0 <= t <= n_draft,
        0 <= first,
    ensures
        ({
            let r = speculative::drafts_from(conf, logits, n_vocab, first, n_draft, p_min, t);
            &&& t + r.len() <= n_draft
            &&& forall|i: int|
                0 <= i < r.len() ==> #[trigger] r[i] == speculative::best_token(
                    logits,
                    n_vocab,
                    first + t + i,
                ) && first + t + i < conf.len() && !sampler::less(conf[first + t + i], p_min)
            &&& t + r.len() < n_draft && first + t + r.len() < conf.len() ==> sampler::less(
                conf[(first + t + r.len()) as int],
                p_min,
            )
        }),
    decreases n_draft - t,
{
    let r = speculative::drafts_from(conf, logits, n_vocab, first, n_draft, p_min, t);
    if t < n_draft && first + t < conf.len() && !sampler::less(conf[first + t], p_min) {
        law_drafts_are_confident(conf, logits, n_vocab, first, n_draft, p_min, t + 1);
        let q = speculative::drafts_from(conf, logits, n_vocab, first, n_draft, p_min, t + 1);
        assert forall|i: int| 0 <= i < r.len() implies #[trigger] r[i] == speculative::best_token(
            logits,
            n_vocab,
            first + t + i,
        ) && first + t + i < conf.len() && !sampler::less(conf[first + t + i], p_min) by {
            if i > 0 {
                assert(r[i] == q[i - 1]);
                assert(first + (t + 1) + (i - 1) == first + t + i);
            }
        }
    }
}

// ---- the drafter --------------------------------------------------------------------------------

/// Metadata that describes a drafter.
pub open spec fn drafter_meta(c: DsparkCfg) -> Seq<Entry> {
    let bounds = match c.log_snr {
        Some(b) => b,
        None => (0, 0),
    };
    seq![
        (
            "general.architecture"@,
            ValueV::Str("dspark"@),
        ),
        (
            "dspark.block_count"@,
            ValueV::U64(c.n_layer as u64),
        ),
        (
            "dspark.embedding_length"@,
            ValueV::U64(c.n_embd as u64),
        ),
        (
            "dspark.feed_forward_length"@,
            ValueV::U64(c.n_ff as u64),
        ),
        (
            "dspark.attention.head_count"@,
            ValueV::U64(c.n_head as u64),
        ),
        (
            "dspark.attention.head_count_kv"@,
            ValueV::U64(c.n_head_kv as u64),
        ),
        (
            "dspark.attention.key_length"@,
            ValueV::U64(c.head_dim as u64),
        ),
        (
            "dspark.vocab_size"@,
            ValueV::U64(c.n_vocab as u64),
        ),
        (
            "dspark.attention.layer_norm_rms_epsilon"@,
            ValueV::F32(c.eps),
        ),
        (
            "dspark.rope.freq_base"@,
            ValueV::F32(c.rope_freq_base),
        ),
        (
            "dspark.dspark.block_size"@,
            ValueV::U64(c.block_size as u64),
        ),
        (
            "dspark.context_length"@,
            ValueV::U64(c.context_length as u64),
        ),
        (
            "dspark.dspark.mask_token_id"@,
            ValueV::U64(c.mask_token_id as u64),
        ),
        (
            "dspark.dspark.target_layers"@,
            ValueV::Array { elem_type: 4, items: c.target_layers@.map_values(|x: u32| ValueV::U32(x)) },
        ),
        (
            "dspark.dspark.markov_rank"@,
            ValueV::U64(c.markov_rank as u64),
        ),
        (
            "dspark.dspark.confidence_head"@,
            ValueV::Bool(c.confidence_head),
        ),
        (
            "dspark.dspark.log_snr_conditioning"@,
            ValueV::Bool(c.log_snr is Some),
        ),
        (
            "dspark.dspark.min_log_snr"@,
            ValueV::F32(bounds.0),
        ),
        (
            "dspark.dspark.max_log_snr"@,
            ValueV::F32(bounds.1),
        ),
    ]
}

proof fn lemma_drafter_keys()
    ensures
        "general.architecture"@.len() == 20 && "general.architecture"@[7] == '.' && "general.architecture"@[14] == 'e' && "general.architecture"@[15] == 'c' && "general.architecture"@[17] == 'u',
        "dspark.block_count"@.len() == 18 && "dspark.block_count"@[7] == 'b' && "dspark.block_count"@[14] == 'o' && "dspark.block_count"@[15] == 'u' && "dspark.block_count"@[17] == 't',
        "dspark.embedding_length"@.len() == 23 && "dspark.embedding_length"@[7] == 'e' && "dspark.embedding_length"@[14] == 'n' && "dspark.embedding_length"@[15] == 'g' && "dspark.embedding_length"@[17] == 'l',
        "dspark.feed_forward_length"@.len() == 26 && "dspark.feed_forward_length"@[7] == 'f' && "dspark.feed_forward_length"@[14] == 'r' && "dspark.feed_forward_length"@[15] == 'w' && "dspark.feed_forward_length"@[17] == 'r',
        "dspark.attention.head_count"@.len() == 27 && "dspark.attention.head_count"@[7] == 'a' && "dspark.attention.head_count"@[14] == 'o' && "dspark.attention.head_count"@[15] == 'n' && "dspark.attention.head_count"@[17] == 'h',
        "dspark.attention.head_count_kv"@.len() == 30 && "dspark.attention.head_count_kv"@[7] == 'a' && "dspark.attention.head_count_kv"@[14] == 'o' && "dspark.attention.head_count_kv"@[15] == 'n' && "dspark.attention.head_count_kv"@[17] == 'h',
        "dspark.attention.key_length"@.len() == 27 && "dspark.attention.key_length"@[7] == 'a' && "dspark.attention.key_length"@[14] == 'o' && "dspark.attention.key_length"@[15] == 'n' && "dspark.attention.key_length"@[17] == 'k',
        "dspark.vocab_size"@.len() == 17 && "dspark.vocab_size"@[7] == 'v' && "dspark.vocab_size"@[14] == 'i' && "dspark.vocab_size"@[15] == 'z',
        "dspark.attention.layer_norm_rms_epsilon"@.len() == 39 && "dspark.attention.layer_norm_rms_epsilon"@[7] == 'a' && "dspark.attention.layer_norm_rms_epsilon"@[14] == 'o' && "dspark.attention.layer_norm_rms_epsilon"@[15] == 'n' && "dspark.attention.layer_norm_rms_epsilon"@[17] == 'l',
        "dspark.rope.freq_base"@.len() == 21 && "dspark.rope.freq_base"@[7] == 'r' && "dspark.rope.freq_base"@[14] == 'e' && "dspark.rope.freq_base"@[15] == 'q' && "dspark.rope.freq_base"@[17] == 'b',
        "dspark.dspark.block_size"@.len() == 24 && "dspark.dspark.block_size"@[7] == 'd' && "dspark.dspark.block_size"@[14] == 'b' && "dspark.dspark.block_size"@[15] == 'l' && "dspark.dspark.block_size"@[17] == 'c',
        "dspark.context_length"@.len() == 21 && "dspark.context_length"@[7] == 'c' && "dspark.context_length"@[14] == '_' && "dspark.context_length"@[15] == 'l' && "dspark.context_length"@[17] == 'n',
        "dspark.dspark.mask_token_id"@.len() == 27 && "dspark.dspark.mask_token_id"@[7] == 'd' && "dspark.dspark.mask_token_id"@[14] == 'm' && "dspark.dspark.mask_token_id"@[15] == 'a' && "dspark.dspark.mask_token_id"@[17] == 'k',
        "dspark.dspark.target_layers"@.len() == 27 && "dspark.dspark.target_layers"@[7] == 'd' && "dspark.dspark.target_layers"@[14] == 't' && "dspark.dspark.target_layers"@[15] == 'a' && "dspark.dspark.target_layers"@[17] == 'g',
        "dspark.dspark.markov_rank"@.len() == 25 && "dspark.dspark.markov_rank"@[7] == 'd' && "dspark.dspark.markov_rank"@[14] == 'm' && "dspark.dspark.markov_rank"@[15] == 'a' && "dspark.dspark.markov_rank"@[17] == 'k',
        "dspark.dspark.confidence_head"@.len() == 29 && "dspark.dspark.confidence_head"@[7] == 'd' && "dspark.dspark.confidence_head"@[14] == 'c' && "dspark.dspark.confidence_head"@[15] == 'o' && "dspark.dspark.confidence_head"@[17] == 'f',
        "dspark.dspark.log_snr_conditioning"@.len() == 34 && "dspark.dspark.log_snr_conditioning"@[7] == 'd' && "dspark.dspark.log_snr_conditioning"@[14] == 'l' && "dspark.dspark.log_snr_conditioning"@[15] == 'o' && "dspark.dspark.log_snr_conditioning"@[17] == '_',
        "dspark.dspark.min_log_snr"@.len() == 25 && "dspark.dspark.min_log_snr"@[7] == 'd' && "dspark.dspark.min_log_snr"@[14] == 'm' && "dspark.dspark.min_log_snr"@[15] == 'i' && "dspark.dspark.min_log_snr"@[17] == '_',
        "dspark.dspark.max_log_snr"@.len() == 25 && "dspark.dspark.max_log_snr"@[7] == 'd' && "dspark.dspark.max_log_snr"@[14] == 'm' && "dspark.dspark.max_log_snr"@[15] == 'a' && "dspark.dspark.max_log_snr"@[17] == '_',
{
    reveal_strlit("general.architecture");
    reveal_strlit("dspark.block_count");
    reveal_strlit("dspark.embedding_length");
    reveal_strlit("dspark.feed_forward_length");
    reveal_strlit("dspark.attention.head_count");
    reveal_strlit("dspark.attention.head_count_kv");
    reveal_strlit("dspark.attention.key_length");
    reveal_strlit("dspark.vocab_size");
    reveal_strlit("dspark.attention.layer_norm_rms_epsilon");
    reveal_strlit("dspark.rope.freq_base");
    reveal_strlit("dspark.dspark.block_size");
    reveal_strlit("dspark.context_length");
    reveal_strlit("dspark.dspark.mask_token_id");
    reveal_strlit("dspark.dspark.target_layers");
    reveal_strlit("dspark.dspark.markov_rank");
    reveal_strlit("dspark.dspark.confidence_head");
    reveal_strlit("dspark.dspark.log_snr_conditioning");
    reveal_strlit("dspark.dspark.min_log_snr");
    reveal_strlit("dspark.dspark.max_log_snr");
}

proof fn lemma_layers(s: Seq<u32>, items: Seq<ValueV>, k: int)
    requires
        0 <= k <= s.len(),
        items == s.map_values(|x: u32| ValueV::U32(x)),
    ensures
        dspark::layers_of(items, k) == Some(s.take(k)),
    decreases k,
{
    if k > 0 {
        lemma_layers(s, items, k - 1);
        assert(items[k - 1] == ValueV::U32(s[k - 1]));
        let x = s[k - 1];
        assert(items[k - 1].as_u64() == Some(x as u64));
        assert((x as u64) as u32 == x);
        assert(s.take(k - 1).push(x) =~= s.take(k));
    } else {
        assert(s.take(0) =~= Seq::<u32>::empty());
    }
}

/// A drafter's configuration reads back from metadata that describes it.
#[verifier::spinoff_prover]
#[verifier::rlimit(60)]
pub proof fn law_drafter_reads_back(c: DsparkCfg, d: DsparkCfg)
    requires
        c.n_layer <= 0xFFFF_FFFF,
        c.n_embd <= 0xFFFF_FFFF,
        c.n_ff <= 0xFFFF_FFFF,
        c.n_head <= 0xFFFF_FFFF,
        c.n_head_kv <= 0xFFFF_FFFF,
        c.head_dim <= 0xFFFF_FFFF,
        c.n_vocab <= 0xFFFF_FFFF,
        c.block_size <= 0xFFFF_FFFF,
        c.context_length <= 0xFFFF_FFFF,
        c.markov_rank <= 0xFFFF_FFFF,
        dspark::cfg_reads(drafter_meta(c), d),
    ensures
        d.n_layer == c.n_layer,
        d.n_embd == c.n_embd,
        d.n_ff == c.n_ff,
        d.n_head == c.n_head,
        d.n_head_kv == c.n_head_kv,
        d.head_dim == c.head_dim,
        d.n_vocab == c.n_vocab,
        d.block_size == c.block_size,
        d.context_length == c.context_length,
        d.mask_token_id == c.mask_token_id,
        d.markov_rank == c.markov_rank,
        d.eps == c.eps,
        d.rope_freq_base == c.rope_freq_base,
        d.confidence_head == c.confidence_head,
        d.log_snr == c.log_snr,
        d.target_layers@ == c.target_layers@,
{
    lemma_drafter_keys();
    let m = drafter_meta(c);
    lemma_entry(m, 0);
    lemma_entry(m, 1);
    lemma_entry(m, 2);
    lemma_entry(m, 3);
    lemma_entry(m, 4);
    lemma_entry(m, 5);
    lemma_entry(m, 6);
    lemma_entry(m, 7);
    lemma_entry(m, 8);
    lemma_entry(m, 9);
    lemma_entry(m, 10);
    lemma_entry(m, 11);
    lemma_entry(m, 12);
    lemma_entry(m, 13);
    lemma_entry(m, 14);
    lemma_entry(m, 15);
    lemma_entry(m, 16);
    lemma_entry(m, 17);
    lemma_entry(m, 18);
    let s = c.target_layers@;
    let items = s.map_values(|x: u32| ValueV::U32(x));
    lemma_layers(s, items, s.len() as int);
    assert(s.take(s.len() as int) =~= s);
}

/// Metadata that describes a drafter is not refused.
#[verifier::spinoff_prover]
#[verifier::rlimit(60)]
pub proof fn law_described_drafter_is_taken(c: DsparkCfg)
    ensures
        dspark::cfg_error(drafter_meta(c)) is None,
{
    lemma_drafter_keys();
    let m = drafter_meta(c);
    lemma_entry(m, 0);
    lemma_entry(m, 1);
    lemma_entry(m, 2);
    lemma_entry(m, 3);
    lemma_entry(m, 4);
    lemma_entry(m, 5);
    lemma_entry(m, 6);
    lemma_entry(m, 7);
    lemma_entry(m, 8);
    lemma_entry(m, 9);
    lemma_entry(m, 10);
    lemma_entry(m, 11);
    lemma_entry(m, 12);
    lemma_entry(m, 13);
    lemma_entry(m, 14);
    lemma_entry(m, 15);
    lemma_entry(m, 16);
    lemma_entry(m, 17);
    lemma_entry(m, 18);
    let s = c.target_layers@;
    let items = s.map_values(|x: u32| ValueV::U32(x));
    lemma_layers(s, items, s.len() as int);
}

/// The shape of a weight: what goes in, and what comes out.
pub open spec fn shape_of(c: DsparkCfg, w: Weight) -> Seq<u64> {
    let (ne, ff) = (c.n_embd as u64, c.n_ff as u64);
    let q = (c.n_head * c.head_dim) as u64;
    let kv = (c.n_head_kv * c.head_dim) as u64;
    match w {
        Weight::AttnQ => seq![ne, q],
        Weight::AttnK | Weight::AttnV => seq![ne, kv],
        Weight::AttnOutput => seq![q, ne],
        Weight::FfnGate | Weight::FfnUp => seq![ne, ff],
        Weight::FfnDown => seq![ff, ne],
        Weight::AttnQNorm | Weight::AttnKNorm => seq![c.head_dim as u64],
        Weight::Output => seq![ne, c.n_vocab as u64],
        _ => seq![ne],
    }
}

proof fn lemma_needed(c: DsparkCfg, n: int, il: int, i: int)
    requires
        0 <= il < n,
        0 <= i < manifest::of_layer(c, il).len(),
    ensures
        manifest::needed(c, n).contains(manifest::of_layer(c, il)[i]),
    decreases n,
{
    let before = manifest::needed(c, n - 1);
    let last = manifest::of_layer(c, n - 1);
    let all = manifest::needed(c, n);
    assert(all == before + last);
    if il == n - 1 {
        assert(all[before.len() + i] == last[i]);
    } else {
        lemma_needed(c, n - 1, il, i);
        let e = manifest::of_layer(c, il)[i];
        let k = choose|k: int| 0 <= k < before.len() && before[k] == e;
        assert(all[k] == e);
    }
}

proof fn lemma_common(c: DsparkCfg, n: int, i: int)
    requires
        0 <= n,
        0 <= i < manifest::common(c).len(),
    ensures
        manifest::needed(c, n).contains(manifest::common(c)[i]),
    decreases n,
{
    let all = manifest::needed(c, n);
    let e = manifest::common(c)[i];
    if n > 0 {
        lemma_common(c, n - 1, i);
        let before = manifest::needed(c, n - 1);
        let k = choose|k: int| 0 <= k < before.len() && before[k] == e;
        assert(all[k] == e);
    } else {
        assert(all[i] == e);
    }
}

/// Every weight that drafting asks for, by the name it asks with, is among the tensors that a
/// drafter needs, in the shape of what goes in and what comes out.
#[verifier::spinoff_prover]
#[verifier::rlimit(60)]
pub proof fn law_weights_are_needed(c: DsparkCfg, w: Weight, il: nat)
    requires
        il < c.n_layer,
    ensures
        manifest::needed(c, c.n_layer as int).contains(
            (ExpectV { name: draft::tensor_of(w, il), dims: shape_of(c, w) }),
        ),
{
    let e = ExpectV { name: draft::tensor_of(w, il), dims: shape_of(c, w) };
    let n = c.n_layer as int;
    let l = manifest::of_layer(c, il as int);
    let g = manifest::common(c);
    match w {
        Weight::AttnNorm => {
            assert(l[0] =~= e);
            lemma_needed(c, n, il as int, 0);
        },
        Weight::AttnQ => {
            assert(l[1] =~= e);
            lemma_needed(c, n, il as int, 1);
        },
        Weight::AttnK => {
            assert(l[2] =~= e);
            lemma_needed(c, n, il as int, 2);
        },
        Weight::AttnV => {
            assert(l[3] =~= e);
            lemma_needed(c, n, il as int, 3);
        },
        Weight::AttnOutput => {
            assert(l[4] =~= e);
            lemma_needed(c, n, il as int, 4);
        },
        Weight::AttnQNorm => {
            assert(l[5] =~= e);
            lemma_needed(c, n, il as int, 5);
        },
        Weight::AttnKNorm => {
            assert(l[6] =~= e);
            lemma_needed(c, n, il as int, 6);
        },
        Weight::FfnNorm => {
            assert(l[7] =~= e);
            lemma_needed(c, n, il as int, 7);
        },
        Weight::FfnGate => {
            assert(l[8] =~= e);
            lemma_needed(c, n, il as int, 8);
        },
        Weight::FfnUp => {
            assert(l[9] =~= e);
            lemma_needed(c, n, il as int, 9);
        },
        Weight::FfnDown => {
            assert(l[10] =~= e);
            lemma_needed(c, n, il as int, 10);
        },
        Weight::Output => {
            assert(g[3] =~= e);
            lemma_common(c, n, 3);
        },
        Weight::OutputNorm => {
            assert(g[4] =~= e);
            lemma_common(c, n, 4);
        },
    }
}

// ---- lists --------------------------------------------------------------------------------------

/// Tokens separated by commas.
pub open spec fn listed(ts: Seq<u32>) -> Seq<char>
    decreases ts.len(),
{
    if ts.len() <= 1 {
        text::decimal(ts.last() as nat)
    } else {
        listed(ts.drop_last()) + seq![','] + text::decimal(ts.last() as nat)
    }
}

proof fn lemma_split_tail(s: Seq<char>, t: Seq<char>)
    requires
        forall|i: int| 0 <= i < t.len() ==> #[trigger] t[i] != ',',
    ensures
        inspect::split_commas(s).len() > 0,
        inspect::split_commas(s + t) == inspect::split_commas(s).drop_last().push(
            inspect::split_commas(s).last() + t,
        ),
    decreases s.len() + t.len(),
{
    let none = Seq::<char>::empty();
    if t.len() == 0 {
        assert(s + t =~= s);
        if s.len() > 0 {
            lemma_split_tail(s.drop_last(), none);
        }
        let p = inspect::split_commas(s);
        assert(p.last() + t =~= p.last());
        assert(p.drop_last().push(p.last()) =~= p);
    } else {
        let u = t.drop_last();
        assert forall|i: int| 0 <= i < u.len() implies #[trigger] u[i] != ',' by {
            assert(u[i] == t[i]);
        }
        lemma_split_tail(s, u);
        let all = s + t;
        assert(all.drop_last() =~= s + u);
        assert(all.last() == t.last() && t[t.len() - 1] != ',');
        let p = inspect::split_commas(s);
        let r = inspect::split_commas(s + u);
        assert(r.drop_last() =~= p.drop_last());
        assert(r.last() == p.last() + u);
        assert((p.last() + u).push(t.last()) =~= p.last() + t);
    }
}

proof fn lemma_plain_digits(n: nat)
    ensures
        forall|i: int| 0 <= i < text::decimal(n).len() ==> #[trigger] text::decimal(n)[i] != ',',
        text::trimmed(text::decimal(n)) == text::decimal(n),
{
    reply_laws::law_decimal_reads_back(n, n);
    let d = text::decimal(n);
    reply_laws::lemma_decimal(n);
    assert forall|i: int| 0 <= i < d.len() implies #[trigger] d[i] != ',' by {
        assert(text::is_digit(d[i]));
    }
    assert(text::trims_at(d, d, 0, d.len() as int)) by {
        assert(d.subrange(0, d.len() as int) =~= d);
        assert(text::is_digit(d[0]) && text::is_digit(d[d.len() - 1]));
    }
    assert(text::trims(d, d));
    text::law_trimmed(d);
    text::law_trims_unique(d, text::trimmed(d), d);
}

proof fn lemma_listed(ts: Seq<u32>)
    requires
        ts.len() > 0,
    ensures
        inspect::split_commas(listed(ts)) == Seq::new(
            ts.len(),
            |i: int| text::decimal(ts[i] as nat),
        ),
    decreases ts.len(),
{
    let d = text::decimal(ts.last() as nat);
    let none = Seq::<char>::empty();
    lemma_plain_digits(ts.last() as nat);
    let want = Seq::new(ts.len(), |i: int| text::decimal(ts[i] as nat));
    if ts.len() == 1 {
        lemma_split_tail(none, d);
        assert(none + d =~= d);
        assert(inspect::split_commas(none) == seq![none]);
        assert(inspect::split_commas(d) =~= want);
    } else {
        let before = ts.drop_last();
        lemma_listed(before);
        let s = listed(before) + seq![','];
        assert(s.drop_last() =~= listed(before));
        let p = inspect::split_commas(listed(before));
        assert(inspect::split_commas(s) == p.push(none));
        lemma_split_tail(s, d);
        assert(p.push(none).drop_last() =~= p);
        assert(none + d =~= d);
        assert(inspect::split_commas(s + d) =~= want);
    }
}

/// A list of tokens reads back.
pub proof fn law_tokens_read_back(ts: Seq<u32>, r: Option<Seq<u32>>)
    requires
        ts.len() > 0,
        inspect::tokens_in(listed(ts), r),
    ensures
        r == Some(ts),
{
    lemma_listed(ts);
    let parts = inspect::split_commas(listed(ts));
    assert forall|i: int| 0 <= i < ts.len() implies inspect::token_in(#[trigger] parts[i]) == Some(
        ts[i] as nat,
    ) by {
        lemma_plain_digits(ts[i] as nat);
        reply_laws::law_decimal_reads_back(ts[i] as nat, u32::MAX as nat);
    }
    match r {
        Some(v) => {
            assert forall|i: int| 0 <= i < v.len() implies v[i] == ts[i] by {
                assert(inspect::token_in(parts[i]) == Some(v[i] as nat));
            }
            assert(v =~= ts);
        },
        None => {},
    }
}

/// Words written as bytes read back, and decode as the values of a row of singles.
pub proof fn law_words_read_back(s: Seq<u32>, i: int)
    requires
        0 <= i < s.len(),
    ensures
        prefill::words_bytes(s).len() == 4 * s.len(),
        dspark::word_at(prefill::words_bytes(s), 4 * i) == s[i],
        dspark::elem(gguf::TYPE_F32, prefill::words_bytes(s), 0, i) == s[i],
    decreases s.len(),
{
    let b = prefill::words_bytes(s);
    let d = s.drop_last();
    let w = crate::le::le_bytes(s.last() as nat, 4);
    reveal_with_fuel(crate::le::le_bytes, 5);
    assert(w.len() == 4);
    if i < d.len() {
        law_words_read_back(d, i);
        let c = prefill::words_bytes(d);
        assert(b[4 * i] == c[4 * i] && b[4 * i + 1] == c[4 * i + 1] && b[4 * i + 2] == c[4 * i + 2]
            && b[4 * i + 3] == c[4 * i + 3]);
        assert(d[i] == s[i]);
    } else {
        if d.len() > 0 {
            law_words_read_back(d, 0);
        } else {
            assert(prefill::words_bytes(d) == Seq::<u8>::empty());
        }
        let n = 4 * d.len() as int;
        assert(b[n] == w[0] && b[n + 1] == w[1] && b[n + 2] == w[2] && b[n + 3] == w[3]);
        let v = s.last() as int;
        assert(w[0] as int == v % 256 && w[1] as int == v / 256 % 256 && w[2] as int == v / 256 / 256
            % 256 && w[3] as int == v / 256 / 256 / 256 % 256);
    }
}

} // verus!
