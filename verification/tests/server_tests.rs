//! The chat protocol: prompts, replies, streaming and command lines.

use bonsai::chat::{parse_chat, parse_plain, MAX_TOKENS};
use bonsai::cli::{apply_qwen35_template, Cli, Parsed, ServeCli};
use bonsai::completion::{delivered, err_json, make_body, whole_body, Reply, Stream};
use bonsai::engine::{Action, Event, Finish, Generation};
use bonsai::http::{
    content_length, ends_headers, expects_continue, header, make_chunk, make_head,
    make_json_response, models_json, parse_request_line, route, Route,
};
use bonsai::json::J;
use bonsai::prompt::{build_prompt, Msg};
use bonsai::reasoning::{split_think, ThinkSplitter};
use bonsai::server::{draft_context, draft_length};
use bonsai::speculative::{check_n_draft, draft_positions, observe, propose, Round};
use bonsai::tools::{parse_tool_calls, ToolFilter};
use bonsai::utf8::{valid_len, Utf8Buffer};

#[test]
fn parses_tool_call_blocks() {
    let text = "Let me check.\n<tool_call>\n<function=get_weather>\n<parameter=city>\nParis\n</parameter>\n<parameter=days>\n3\n</parameter>\n</function>\n</tool_call>";
    let (content, calls) = parse_tool_calls(text);
    assert_eq!(content, "Let me check.");
    assert_eq!(calls.len(), 1);
    assert_eq!(calls[0].0, "get_weather");
    assert_eq!(calls[0].1, r#"{"city":"Paris","days":3}"#);
}

#[test]
fn parses_two_tool_calls() {
    let text = "<tool_call>\n<function=a>\n</function>\n</tool_call><tool_call>\n<function=b>\n<parameter=x>\nhi\n</parameter>\n</function>\n</tool_call>";
    let (content, calls) = parse_tool_calls(text);
    assert_eq!(content, "");
    assert_eq!(calls.len(), 2);
    assert_eq!(calls[0].0, "a");
    assert_eq!(calls[0].1, "{}");
    assert_eq!(calls[1], ("b".to_string(), r#"{"x":"hi"}"#.to_string()));
}

#[test]
fn tool_filter_holds_back_a_split_tag() {
    let mut f = ToolFilter::new();
    let out = f.feed("Hello there, how are");
    assert_eq!(out, "Hello ther");
    let out2 = f.feed(" you<tool_call>\n<function=f>\n<parameter=a>\n1\n</parameter>\n</function>\n</tool_call>");
    assert_eq!(out2, "e, how are you");
    assert_eq!(f.calls.len(), 1);
    assert_eq!(f.calls[0].0, "f");
    assert_eq!(f.calls[0].1, r#"{"a":1}"#);
}

#[test]
fn split_think_separates_reasoning() {
    let (r, c) = split_think("<think>\nreason\n</think>\n\nParis");
    assert_eq!(r, "reason");
    assert_eq!(c, "Paris");
    let (r2, c2) = split_think("plain");
    assert_eq!(r2, "");
    assert_eq!(c2, "plain");
}

#[test]
fn splitter_separates_reasoning_from_content() {
    let mut f = ThinkSplitter::new(false);
    let (mut reason, mut content) = f.feed("<think>\nreasoning...");
    assert!(content.is_empty());
    let (r2, c2) = f.feed("\n</think>\n\nParis");
    reason.push_str(&r2);
    content.push_str(&c2);
    assert_eq!(reason, "reasoning...\n");
    assert_eq!(content, "Paris");
}

#[test]
fn splitter_passes_plain_text_as_content() {
    let mut f = ThinkSplitter::new(false);
    let (r, c) = f.feed("hello world");
    assert!(r.is_empty());
    assert_eq!(c, "hello world");
}

#[test]
fn splitter_keeps_an_unterminated_block_as_reasoning() {
    let mut f = ThinkSplitter::new(false);
    let (mut reason, content) = f.feed("<think>still thinking");
    assert!(content.is_empty());
    let (r2, c2) = f.flush();
    reason.push_str(&r2);
    assert_eq!(reason, "still thinking");
    assert!(c2.is_empty());
}

#[test]
fn splitter_disabled_inlines_everything() {
    let mut f = ThinkSplitter::new(true);
    let (r, c) = f.feed("<think>x</think>y");
    assert!(r.is_empty());
    assert_eq!(c, "<think>x</think>y");
}

#[test]
fn filtering_does_not_depend_on_pieces() {
    let text = "before <tool_call>\n<function=f>\n</function>\n</tool_call> after all";
    let mut whole = ToolFilter::new();
    let mut a = whole.feed(text);
    a.push_str(&whole.flush());
    let mut bit = ToolFilter::new();
    let mut b = String::new();
    for ch in text.chars() {
        b.push_str(&bit.feed(&ch.to_string()));
    }
    b.push_str(&bit.flush());
    assert_eq!(a, b);
    assert_eq!(whole.calls, bit.calls);
    assert_eq!(whole.calls.len(), 1);
}

#[test]
fn split_characters_wait_for_the_rest() {
    let mut u = Utf8Buffer::new();
    let s = "aé漢😀z".as_bytes();
    let mut out = String::new();
    for b in s {
        out.push_str(&u.push(&vec![*b]));
    }
    assert_eq!(out, "aé漢😀z");
    assert_eq!(valid_len(&vec![0x61, 0xC3]), 1);
    assert_eq!(valid_len(&vec![0x61, 0xC3, 0xA9]), 3);
}

fn msg(role: &str, content: &str) -> Msg {
    Msg { role: role.to_string(), content: content.to_string(), tool_calls: Vec::new() }
}

#[test]
fn prompts_frame_each_message() {
    let p = build_prompt(true, &vec![msg("system", "Be brief."), msg("user", "Hi")], &Vec::new());
    assert!(p.starts_with("<|im_start|>system\nBe brief.<|im_end|>\n<|im_start|>user\nHi<|im_end|>\n"), "{p}");
    assert!(p.ends_with("<|im_start|>assistant\n<think>\n"), "{p}");
    let q = build_prompt(false, &vec![msg("user", "Hi")], &Vec::new());
    assert!(q.contains("<|im_start|>assistant\n"), "{q}");
    assert!(!q.ends_with("<think>\n"), "{q}");
    let t = build_prompt(true, &vec![msg("user", "Hi")], &vec!["{\"name\":\"f\"}".to_string()]);
    assert!(t.contains("{\"name\":\"f\"}"), "{t}");
    assert!(t.contains("<tool_call>"), "{t}");
}

#[test]
fn templates_wrap_one_exchange() {
    assert_eq!(
        apply_qwen35_template("", "Hi"),
        "<|im_start|>user\nHi<|im_end|>\n<|im_start|>assistant\n<think>\n"
    );
    assert_eq!(
        apply_qwen35_template("S", "Hi"),
        "<|im_start|>system\nS<|im_end|>\n<|im_start|>user\nHi<|im_end|>\n<|im_start|>assistant\n<think>\n"
    );
}

#[test]
fn chat_requests_are_read() {
    let body = br#"{"messages":[{"role":"user","content":"Hi"}],"max_tokens":5,"temperature":0,"stream":true}"#;
    let (msgs, tools, opts) = parse_chat(&body.to_vec()).unwrap();
    assert_eq!(msgs.len(), 1);
    assert_eq!(msgs[0].role, "user");
    assert_eq!(msgs[0].content, "Hi");
    assert!(tools.is_empty());
    assert_eq!(opts.max_tokens, 5);
    assert_eq!(f32::from_bits(opts.temp), 0.0);
    assert!(opts.stream);
    assert!(opts.sampler_cfg().is_greedy());
    assert!(parse_chat(&b"{".to_vec()).is_err());
    assert!(parse_chat(&b"{}".to_vec()).is_err());
}

#[test]
fn large_limits_are_capped() {
    let body = br#"{"messages":[{"role":"user","content":"Hi"}],"max_tokens":999999999}"#;
    let (_, _, opts) = parse_chat(&body.to_vec()).unwrap();
    assert_eq!(opts.max_tokens, MAX_TOKENS);
    let (prompt, o) = parse_plain(&br#"{"prompt":"once","max_tokens":3}"#.to_vec());
    assert_eq!(prompt, "once");
    assert_eq!(o.max_tokens, 3);
}

#[test]
fn request_lines_and_headers_are_read() {
    assert_eq!(
        parse_request_line("POST /v1/chat/completions HTTP/1.1\r\n"),
        Ok(("POST".to_string(), "/v1/chat/completions".to_string()))
    );
    assert!(parse_request_line("").is_err());
    let h = "Host: x\r\nContent-Length: 42\r\nExpect: 100-continue\r\n";
    assert_eq!(content_length(h), 42);
    assert_eq!(header(h, "host"), Some("x".to_string()));
    assert_eq!(header(h, "absent"), None);
    assert!(expects_continue(h));
    assert!(!expects_continue("Host: x\r\n"));
    assert_eq!(content_length("Content-Length: many\r\n"), 0);
    assert!(ends_headers("\r\n"));
    assert!(!ends_headers("a: b\r\n"));
}

#[test]
fn requests_are_routed() {
    assert_eq!(route("GET", "/health"), Route::Health);
    assert_eq!(route("GET", "/v1/models"), Route::Models);
    assert_eq!(route("POST", "/v1/chat/completions"), Route::Chat);
    assert_eq!(route("POST", "/v1/completions"), Route::Completion);
    assert_eq!(route("OPTIONS", "/anything"), Route::Options);
    assert_eq!(route("GET", "/nothing"), Route::Unknown);
}

#[test]
fn responses_are_framed() {
    let r = make_json_response("200 OK", "{}");
    assert!(r.starts_with("HTTP/1.1 200 OK\r\n"), "{r}");
    assert!(r.contains("Content-Length: 2\r\n"), "{r}");
    assert!(r.ends_with("\r\n\r\n{}"), "{r}");
    let head = make_head("200 OK", "text/event-stream", None, true);
    assert!(head.contains("Transfer-Encoding: chunked\r\n"), "{head}");
    assert_eq!(make_chunk("hello world, sixteen"), "1c\r\ndata: hello world, sixteen\n\n\r\n");
    let m = J::parse(&models_json("a\"b")).unwrap();
    let id = m.get("data").unwrap().as_arr().unwrap()[0].get("id").unwrap().as_str();
    assert_eq!(id, Some("a\"b"));
}

#[test]
fn errors_are_documents() {
    let j = J::parse(&err_json("no \"good\"")).unwrap();
    assert_eq!(j.get("error").unwrap().get("message").unwrap().as_str(), Some("no \"good\""));
}

#[test]
fn a_stream_sends_the_reply() {
    let reply = Reply::new(1, 2, "m".to_string(), true);
    let mut s = Stream::new(true, false);
    let mut text = String::new();
    let mut reason = String::new();
    let mut frames = Vec::new();
    for p in ["<think>\nbecause", "\n</think>\n\n", "The ans", "wer is forty-two, surely."] {
        frames.extend(s.on_piece(&reply, &p.as_bytes().to_vec()));
    }
    frames.extend(s.finish(&reply, &Ok((3, 4, Finish::Stop))));
    let mut finish = None;
    for f in &frames {
        if f == "[DONE]" {
            continue;
        }
        let j = J::parse(f).unwrap();
        let choice = &j.get("choices").unwrap().as_arr().unwrap()[0];
        let delta = choice.get("delta").unwrap();
        if let Some(c) = delta.get("content").and_then(|c| c.as_str()) {
            text.push_str(c);
        }
        if let Some(c) = delta.get("reasoning_content").and_then(|c| c.as_str()) {
            reason.push_str(c);
        }
        if let Some(r) = choice.get("finish_reason").and_then(|c| c.as_str()) {
            finish = Some(r.to_string());
        }
    }
    assert_eq!(text, "The answer is forty-two, surely.");
    assert_eq!(reason, "because\n");
    assert_eq!(finish, Some("stop".to_string()));
}

#[test]
fn whole_replies_are_documents() {
    let reply = Reply::new(1, 2, "m".to_string(), true);
    let body = make_body(&reply, true, false, "<think>\nr\n</think>\n\nhello", 3, 4, Finish::Length);
    let j = J::parse(&body).unwrap();
    let choice = &j.get("choices").unwrap().as_arr().unwrap()[0];
    let m = choice.get("message").unwrap();
    assert_eq!(m.get("content").unwrap().as_str(), Some("hello"));
    assert_eq!(m.get("reasoning_content").unwrap().as_str(), Some("r"));
    assert_eq!(choice.get("finish_reason").unwrap().as_str(), Some("length"));
    assert_eq!(j.get("usage").unwrap().get("total_tokens").unwrap().as_i64(), Some(7));
    let lossy = whole_body(&reply, true, false, &vec![0x68, 0xFF, 0x69], &Ok((1, 1, Finish::Stop)));
    let j = J::parse(&lossy).unwrap();
    let choice = &j.get("choices").unwrap().as_arr().unwrap()[0];
    let c = choice.get("message").unwrap().get("content").unwrap().as_str().unwrap().to_string();
    assert_eq!(c, "h\u{FFFD}i");
    let failed = whole_body(&reply, true, false, &Vec::new(), &Err("broken".to_string()));
    assert!(failed.contains("broken"), "{failed}");
    assert!(delivered(&vec![true, true]));
    assert!(!delivered(&vec![true, false]));
}

#[test]
fn generation_stops_at_the_stop_token() {
    let mut g = Generation::new(3, 10, vec![99], false);
    assert_eq!(g.step(Event::Token(5)), Action::Send(5));
    assert_eq!(g.step(Event::Sent(true)), Action::Forward { token: 5, pos: 3 });
    assert_eq!(g.step(Event::Token(99)), Action::Finish(Finish::Stop));
}

#[test]
fn generation_stops_at_the_limit_and_the_listener() {
    let mut g = Generation::new(3, 1, vec![99], false);
    assert_eq!(g.step(Event::Token(5)), Action::Send(5));
    let next = g.step(Event::Sent(true));
    if next != Action::Finish(Finish::Length) {
        assert_eq!(next, Action::Forward { token: 5, pos: 3 });
        assert_eq!(g.step(Event::Token(6)), Action::Finish(Finish::Length));
    }
    let mut h = Generation::new(3, 5, vec![99], false);
    assert_eq!(h.step(Event::Token(5)), Action::Send(5));
    assert!(matches!(h.step(Event::Sent(false)), Action::Finish(_)));
    assert_eq!(Finish::Stop.name(), "stop");
    assert_eq!(Finish::Length.name(), "length");
}

#[test]
fn a_round_accepts_the_target_s_own_tokens() {
    let best = |k: usize| -> Vec<u32> {
        (0..8).map(|i| if i == k { 2.0f32.to_bits() } else { 1.0f32.to_bits() }).collect()
    };
    let mut r = Round::new(10, vec![4, 5, 6]);
    assert_eq!(r.verify(&best(4)), Some((4, 11)));
    assert_eq!(r.verify(&best(5)), Some((5, 12)));
    assert_eq!(r.verify(&best(7)), None);
    let out = r.finish(best(7));
    assert_eq!(out.emitted, vec![4, 5, 7]);
    assert_eq!((out.accepted, out.pending, out.target_forwards), (2, 7, 3));
    assert_eq!(out.drafts, vec![4, 5, 6]);
    assert_eq!(out.logits, best(7));
    // A block taken to its end costs one pass more than it has drafts.
    let mut r = Round::new(0, vec![1]);
    assert_eq!(r.verify(&best(1)), Some((1, 1)));
    assert_eq!(r.verify(&best(3)), None);
    let out = r.finish(best(3));
    assert_eq!((out.emitted, out.accepted, out.target_forwards), (vec![1, 3], 1, 2));
}

#[test]
fn drafts_stop_at_low_confidence() {
    let conf: Vec<u32> = [0.9f32, 0.8, 0.1, 0.9].iter().map(|x| x.to_bits()).collect();
    let logits: Vec<u32> =
        [0.0f32, 1.0, 3.0, 2.0, 5.0, 0.0, 9.0, 0.0].iter().map(|x| x.to_bits()).collect();
    assert_eq!(propose(&conf, &logits, 2, 0, 4, 0.5f32.to_bits()), vec![1, 0]);
    assert_eq!(propose(&conf, &logits, 2, 1, 1, 0.5f32.to_bits()), vec![0]);
    assert!(check_n_draft(0, 4).is_err());
    assert_eq!(
        check_n_draft(5, 4),
        Err("drafter propose: n_draft 5 out of 1..=4".to_string())
    );
    assert!(check_n_draft(4, 4).is_ok());
    assert_eq!(draft_positions(100, 64), 64);
    assert_eq!(draft_positions(10, 64), 10);
    assert_eq!(observe(&vec![vec![1, 2], vec![3, 4]], 2), Ok(vec![1, 2, 3, 4]));
    assert_eq!(
        observe(&vec![vec![1, 2], vec![3]], 2),
        Err("drafter observe: tap width 1 != 2".to_string())
    );
}

#[test]
fn draft_settings_have_defaults() {
    assert_eq!(draft_length(None), 4);
    assert_eq!(draft_length(Some("7")), 7);
    assert_eq!(draft_length(Some("x")), 4);
    assert!(draft_context(None) > 0);
    assert_eq!(draft_context(Some("512")), 512);
}

fn args(v: &[&str]) -> Vec<String> {
    v.iter().map(|s| s.to_string()).collect()
}

#[test]
fn run_arguments_are_read() {
    match Cli::parse(&args(&["-m", "a.gguf", "-p", "Hi", "--temp", "0.25", "--top-k", "-1", "-v",
        "-n", "12", "--seed", "7", "--ctx", "99", "-s", "sys"]))
    {
        Parsed::Run(c) => {
            assert_eq!(c.model, "a.gguf");
            assert_eq!(c.prompt, "Hi");
            assert_eq!(c.system, "sys");
            assert_eq!(f32::from_bits(c.temp), 0.25);
            assert_eq!((c.top_k, c.n_predict, c.seed, c.verbose), (-1, 12, 7, true));
            assert_eq!(f32::from_bits(c.top_p), 0.9);
        }
        other => panic!("{other:?}"),
    }
    match Cli::parse(&args(&["-m", "a.gguf"])) {
        Parsed::Run(c) => {
            assert_eq!(f32::from_bits(c.temp), 0.6);
            assert_eq!((c.n_predict, c.top_k, c.seed), (8, 20, 0xFFFF_FFFF));
            let c = c.with_input("  piped \n").unwrap();
            assert_eq!(c.prompt, "piped");
        }
        other => panic!("{other:?}"),
    }
    match Cli::parse(&args(&["-m", "a.gguf", "-m", "b.gguf", "-c"])) {
        Parsed::Run(c) => {
            assert_eq!(c.model, "b.gguf");
            assert_eq!(
                c.with_input(" \n").unwrap_err(),
                "missing prompt (use --prompt or pipe stdin)"
            );
        }
        other => panic!("{other:?}"),
    }
}

fn bad(v: &[&str]) -> String {
    match Cli::parse(&args(v)) {
        Parsed::Bad(m) => m,
        other => panic!("{other:?}"),
    }
}

#[test]
fn bad_run_arguments_are_refused() {
    assert_eq!(bad(&[]), "missing --model");
    assert_eq!(bad(&["-m"]), "missing value for --model");
    assert_eq!(bad(&["-p"]), "missing value for --prompt");
    assert_eq!(bad(&["--wat"]), "unknown argument: --wat");
    assert_eq!(bad(&["--temp", "hot"]), "--temp must be a float");
    assert_eq!(bad(&["--top-p", "x"]), "--top-p must be a float");
    assert_eq!(bad(&["--min-p", "x"]), "--min-p must be a float");
    assert_eq!(bad(&["--top-k", "1.5"]), "--top-k must be an int");
    assert_eq!(bad(&["-n", "-1"]), "--n-predict must be an int");
    assert_eq!(bad(&["--seed", "4294967296"]), "--seed must be a u32");
    assert!(matches!(Cli::parse(&args(&["-h", "--wat"])), Parsed::Help));
    assert_eq!(bad(&["--wat", "-h"]), "unknown argument: --wat");
}

#[test]
fn server_arguments_are_read() {
    match ServeCli::parse(&args(&["--model", "m", "--port", "99", "--think", "--keep-think", "--id", "x",
        "--host", "0.0.0.0"]))
    {
        Parsed::Run(c) => {
            assert_eq!((c.model.as_str(), c.host.as_str(), c.port), ("m", "0.0.0.0", 99));
            assert!(c.think && !c.strip);
            assert_eq!(c.id, Some("x".to_string()));
        }
        other => panic!("{other:?}"),
    }
    match ServeCli::parse(&args(&["-m", "m", "--think", "--no-think"])) {
        Parsed::Run(c) => {
            assert_eq!((c.host.as_str(), c.port, c.think, c.strip), ("127.0.0.1", 8080, false, true));
            assert_eq!(c.id, None);
        }
        other => panic!("{other:?}"),
    }
    for (v, want) in [
        (vec!["--port", "70000"], "--port must be an int"),
        (vec!["--port"], "missing value for --port"),
        (vec!["--think"], "missing --model"),
        (vec!["-x"], "unknown argument: -x"),
    ] {
        match ServeCli::parse(&args(&v)) {
            Parsed::Bad(m) => assert_eq!(m, want),
            other => panic!("{other:?}"),
        }
    }
    assert!(matches!(ServeCli::parse(&args(&["--help"])), Parsed::Help));
}

/// The reasoning, the content and the finish reason that frames carry.
fn carried(frames: &[String]) -> (String, Option<String>, Option<String>) {
    let mut reason = String::new();
    let mut content: Option<String> = None;
    let mut finish = None;
    for f in frames.iter().filter(|f| *f != "[DONE]") {
        let j = J::parse(f).unwrap();
        let choice = &j.get("choices").unwrap().as_arr().unwrap()[0];
        let delta = choice.get("delta").unwrap();
        if let Some(c) = delta.get("content").and_then(|c| c.as_str()) {
            content.get_or_insert_with(String::new).push_str(c);
        }
        if let Some(c) = delta.get("reasoning_content").and_then(|c| c.as_str()) {
            reason.push_str(c);
        }
        if let Some(r) = choice.get("finish_reason").and_then(|c| c.as_str()) {
            finish = Some(r.to_string());
        }
    }
    (reason, content, finish)
}

#[test]
fn an_open_block_is_not_shown() {
    let mut f = ToolFilter::new();
    let mut out = f.feed("Sure. <tool_call>\n<function=f>\n<parameter=a>");
    out.push_str(&f.flush());
    assert_eq!(out, "Sure. ");
    assert!(f.calls.is_empty());
    assert_eq!(parse_tool_calls("Sure. <tool_call>\n<function=f>").0, "Sure.");
    let mut f = ToolFilter::new();
    let mut out = f.feed("ends with <tool_ca");
    out.push_str(&f.flush());
    assert_eq!(out, "ends with <tool_ca");
}

#[test]
fn reasoning_that_breaks_off_is_streamed() {
    let reply = Reply::new(1, 2, "m".to_string(), true);
    let text = "<think>a thought that never </thin";
    for cut in 1..text.len() {
        let mut s = Stream::new(true, false);
        let mut frames = s.on_piece(&reply, &text.as_bytes()[..cut].to_vec());
        frames.extend(s.on_piece(&reply, &text.as_bytes()[cut..].to_vec()));
        frames.extend(s.finish(&reply, &Ok((3, 4, Finish::Length))));
        let (reason, content, finish) = carried(&frames);
        assert_eq!(reason, "a thought that never </thin", "{cut}");
        assert_eq!(content, None, "{cut}");
        assert_eq!(finish, Some("length".to_string()));
    }
}

#[test]
fn a_split_stream_sends_the_reply_however_it_is_cut() {
    let reply = Reply::new(1, 2, "m".to_string(), true);
    let text = "<think>why é</think>The answer.<tool_call>\n<function=f>\n</function>\n</tool_call> Yes.";
    for cut in 0..=text.len() {
        let mut s = Stream::new(true, false);
        let mut frames = s.on_piece(&reply, &text.as_bytes()[..cut].to_vec());
        frames.extend(s.on_piece(&reply, &text.as_bytes()[cut..].to_vec()));
        frames.extend(s.finish(&reply, &Ok((3, 4, Finish::Stop))));
        let (reason, content, finish) = carried(&frames);
        assert_eq!(reason, "why é", "{cut}");
        assert_eq!(content.as_deref(), Some("The answer. Yes."), "{cut}");
        assert_eq!(finish, Some("tool_calls".to_string()));
    }
}

#[test]
fn splitting_does_not_depend_on_cuts() {
    let cs: Vec<char> = "<think>r < </thi\n r</think>c <think> c".chars().collect();
    for a in 0..=cs.len() {
        for b in a..=cs.len() {
            let mut f = ThinkSplitter::new(false);
            let (mut reason, mut content) = (String::new(), String::new());
            for part in [&cs[..a], &cs[a..b], &cs[b..]] {
                let (r, c) = f.feed(&part.iter().collect::<String>());
                reason.push_str(&r);
                content.push_str(&c);
            }
            let (r, c) = f.flush();
            assert!(r.is_empty() && c.is_empty());
            assert_eq!(reason, "r < </thi\n r", "{a} {b}");
            assert_eq!(content, "c <think> c", "{a} {b}");
        }
    }
    // A newline that arrives behind its tag stays.
    let mut f = ThinkSplitter::new(false);
    assert_eq!(f.feed("<think>"), (String::new(), String::new()));
    assert_eq!(f.feed("\nr</think>c"), ("\nr".to_string(), "c".to_string()));
}

#[test]
fn rendered_calls_parse_back() {
    let compact = r#"{"city":"New York","days":3,"deep":[1,{"a":null}]}"#;
    let loose = r#" { "city": "New York", "days": 3.0, "deep": [1, {"a" : null}] } "#;
    let edge = r#"{"x":-0.0,"y":[1e999]}"#;
    for (args, back) in [(compact, compact), (loose, compact), (edge, r#"{"x":0,"y":[null]}"#)] {
        let call = ("get_weather".to_string(), args.to_string());
        let m = Msg { role: "assistant".to_string(), content: String::new(), tool_calls: vec![call] };
        let p = build_prompt(false, &vec![m], &Vec::new());
        let from = p.find("<tool_call>").unwrap();
        let to = p.rfind("</tool_call>").unwrap() + "</tool_call>".len();
        let (content, calls) = parse_tool_calls(&p[from..to]);
        assert_eq!(content, "");
        assert_eq!(calls, vec![("get_weather".to_string(), back.to_string())]);
    }
}

#[test]
fn reasoning_opened_by_the_prompt_is_split_at_the_closing_tag() {
    let reply = Reply::new(1, 2, "m".to_string(), true);
    let text = "why é?\n</think>\n\nThe answer.";
    let body = make_body(&reply, true, true, text, 3, 4, Finish::Stop);
    let j = J::parse(&body).unwrap();
    let choice = &j.get("choices").unwrap().as_arr().unwrap()[0];
    let m = choice.get("message").unwrap();
    assert_eq!(m.get("content").unwrap().as_str(), Some("The answer."));
    assert_eq!(m.get("reasoning_content").unwrap().as_str(), Some("why é?"));
    let text = "why é?</think>The answer.";
    for cut in 0..=text.len() {
        let mut s = Stream::new(true, true);
        let mut frames = s.on_piece(&reply, &text.as_bytes()[..cut].to_vec());
        frames.extend(s.on_piece(&reply, &text.as_bytes()[cut..].to_vec()));
        frames.extend(s.finish(&reply, &Ok((3, 4, Finish::Stop))));
        let (reason, content, finish) = carried(&frames);
        assert_eq!(reason, "why é?", "{cut}");
        assert_eq!(content.as_deref(), Some("The answer."), "{cut}");
        assert_eq!(finish, Some("stop".to_string()));
    }
    // Cut off before the answer, all of it is reasoning; kept together, all of it is content.
    let mut f = ThinkSplitter::inside();
    let (mut reason, content) = f.feed("still thinking");
    let (more, rest) = f.flush();
    reason.push_str(&more);
    assert_eq!((reason.as_str(), content.as_str(), rest.as_str()), ("still thinking", "", ""));
    let kept = make_body(&reply, false, true, text, 3, 4, Finish::Stop);
    let j = J::parse(&kept).unwrap();
    let choice = &j.get("choices").unwrap().as_arr().unwrap()[0];
    let m = choice.get("message").unwrap();
    assert_eq!(m.get("content").unwrap().as_str(), Some(text));
    assert!(m.get("reasoning_content").is_none());
}
