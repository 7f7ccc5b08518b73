//! What the server answers to a request, up to the generation itself.

use vstd::prelude::*;
use vstd::string::*;

use crate::chat;
use crate::chat::ChatOpts;
use crate::completion;
use crate::engine::Engine;
use crate::http;
use crate::http::Route;
use crate::prompt;
use crate::text;
use crate::tokenizer;
use crate::tokenizer::{TokenizeOptions, Vocab};

verus! {

/// What to do about a request.
#[derive(Debug)]
pub enum Answer {
    /// Send this response.
    Send(String),
    /// Generate a reply to this prompt.
    Generate { prompt: String, opts: ChatOpts, chat: bool },
}

/// `a` answers a request whose body is `body`.
pub open spec fn answers(e: Engine, route: Route, body: Seq<u8>, a: Answer) -> bool {
    match route {
        Route::Options => a matches Answer::Send(t) && t@ == http::response_head(
            "204 No Content"@,
            "text/plain"@,
            Some(0nat),
            false,
        ),
        Route::Health => a matches Answer::Send(t) && t@ == http::json_response(
            "200 OK"@,
            http::HEALTHY@,
        ),
        Route::Models => a matches Answer::Send(t) && t@ == http::json_response(
            "200 OK"@,
            http::models_text(e.model_id@),
        ),
        Route::Chat => match chat::chat_of(body) {
            Err(m) => a matches Answer::Send(t) && t@ == http::json_response(
                "400 Bad Request"@,
                completion::error_text(m),
            ),
            Ok(c) => a matches Answer::Generate { prompt, opts, chat } && prompt@
                == prompt::prompt_of(e.think, c.msgs, c.tools) && chat::opts_of(c.request, opts)
                && chat,
        },
        Route::Completion => a matches Answer::Generate { prompt, opts, chat } && prompt@
            == chat::plain_prompt(chat::plain_request(body)) && chat::opts_of(
            chat::plain_request(body),
            opts,
        ) && !chat,
        Route::Unknown => a matches Answer::Send(t) && t@ == http::json_response(
            "404 Not Found"@,
            completion::error_text("unknown endpoint"@),
        ),
    }
}

/// Decides what to do about a request.
pub fn answer(e: &Engine, method: &str, path: &str, body: &Vec<u8>) -> (a: Answer)
    ensures
        answers(*e, http::route_of(method@, path@), body@, a),
{
    match http::route(method, path) {
        Route::Options => Answer::Send(
            http::make_head("204 No Content", "text/plain", Some(0), false),
        ),
        Route::Health => Answer::Send(http::make_json_response("200 OK", http::HEALTHY)),
        Route::Models => {
            let list: String = http::models_json(e.model_id.as_str());
            Answer::Send(http::make_json_response("200 OK", list.as_str()))
        },
        Route::Chat => match chat::parse_chat(body) {
            Err(m) => {
                let b: String = completion::err_json(m.as_str());
                Answer::Send(http::make_json_response("400 Bad Request", b.as_str()))
            },
            Ok((msgs, tools, opts)) => Answer::Generate {
                prompt: e.build_prompt(&msgs, &tools),
                opts,
                chat: true,
            },
        },
        Route::Completion => {
            let (prompt, opts) = chat::parse_plain(body);
            Answer::Generate { prompt, opts, chat: false }
        },
        Route::Unknown => {
            let b: String = completion::err_json("unknown endpoint");
            Answer::Send(http::make_json_response("404 Not Found", b.as_str()))
        },
    }
}

/// A chat request gets a response in place of a reply exactly if it is not understood, and that
/// response has status 400.
pub proof fn law_refused_request(e: Engine, body: Seq<u8>, a: Answer)
    requires
        answers(e, Route::Chat, body, a),
    ensures
        a is Send <==> chat::chat_of(body) is Err,
        chat::chat_of(body) matches Err(m) ==> a matches Answer::Send(t) && text::starts_with(
            t@,
            "HTTP/1.1 400 Bad Request"@,
        ),
{
    reveal_strlit("HTTP/1.1 400 Bad Request");
    reveal_strlit("HTTP/1.1 ");
    reveal_strlit("400 Bad Request");
    let lead = "HTTP/1.1 "@ + "400 Bad Request"@;
    assert(lead =~= "HTTP/1.1 400 Bad Request"@);
    if let Err(m) = chat::chat_of(body) {
        if let Answer::Send(t) = a {
            assert(t@.take(lead.len() as int) =~= lead);
        }
    }
}

/// The prompt of a chat ends inside a reasoning block that is open exactly if the model thinks.
pub proof fn law_chat_prompt_opens_reasoning(e: Engine, body: Seq<u8>, a: Answer)
    requires
        answers(e, Route::Chat, body, a),
    ensures
        a matches Answer::Generate { prompt, .. } ==> {
            let n = prompt@.len() - "<think>\n"@.len();
            n >= 0 && (prompt@.skip(n) == "<think>\n"@) == e.think
        },
{
    reveal_strlit("<think>\n");
    reveal_strlit("<think>\n\n</think>\n\n");
    if let Answer::Generate { prompt, .. } = a {
        let n = prompt@.len() - 8;
        if e.think {
            assert(prompt@.skip(n) =~= "<think>\n"@);
        } else {
            assert(prompt@.last() == '\n' && prompt@[n + 6] == '\n');
            assert(prompt@.skip(n)[6] == '\n');
        }
    }
}

// ---- starting up ----------------------------------------------------------------------------

/// The token of a word that is one token.
pub open spec fn lone_token(v: tokenizer::VocabV, w: Seq<char>) -> Seq<u32> {
    let ids = tokenizer::encoding(v, w, true);
    if ids.len() == 1 {
        seq![ids[0] as u32]
    } else {
        Seq::empty()
    }
}

/// The tokens that end a reply: those of the turn marks that the vocabulary has, and the end of
/// the sequence.
pub open spec fn stop_of(v: tokenizer::VocabV, eos: Option<u64>) -> Seq<u32> {
    lone_token(v, "<|im_end|>"@) + lone_token(v, "<|resp_end|>"@) + lone_token(
        v,
        "<|endoftext|>"@,
    ) + match eos {
        Some(e) => seq![e as u32],
        None => Seq::empty(),
    }
}

fn push_lone(out: &mut Vec<u32>, v: &Vocab, w: &str)
    requires
        v.wf(),
    ensures
        final(out)@ == old(out)@ + lone_token(v@, w@),
{
    let opts = TokenizeOptions { add_special: false, parse_special: true };
    let ids: Vec<i32> = tokenizer::encode(w, v, &opts);
    if ids.len() == 1 {
        out.push(ids[0] as u32);
    }
    assert(out@ =~= old(out)@ + lone_token(v@, w@));
}

/// Finds the tokens that end a reply.
pub fn stop_tokens(v: &Vocab, eos: Option<u64>) -> (r: Vec<u32>)
    requires
        v.wf(),
    ensures
        r@ == stop_of(v@, eos),
{
    let mut out: Vec<u32> = Vec::new();
    push_lone(&mut out, v, "<|im_end|>");
    push_lone(&mut out, v, "<|resp_end|>");
    push_lone(&mut out, v, "<|endoftext|>");
    if let Some(e) = eos {
        out.push(e as u32);
    }
    assert(out@ =~= stop_of(v@, eos));
    out
}

/// How many tokens are drafted at a time: what the setting says, or four.
pub fn draft_length(setting: Option<&str>) -> (r: usize)
    ensures
        r == match setting {
            Some(s) => match text::number_of(s@, usize::MAX as nat) {
                Some(n) => n as int,
                None => 4,
            },
            None => 4,
        },
{
    match setting {
        Some(s) => match text::parse_uint(s, usize::MAX as u64) {
            Some(n) => n as usize,
            None => 4,
        },
        None => 4,
    }
}

/// How many positions the drafter holds: what the setting says, or 4096.
pub fn draft_context(setting: Option<&str>) -> (r: usize)
    ensures
        r == match setting {
            Some(s) => match text::number_of(s@, usize::MAX as nat) {
                Some(n) => n as int,
                None => 4096,
            },
            None => 4096,
        },
{
    match setting {
        Some(s) => match text::parse_uint(s, usize::MAX as u64) {
            Some(n) => n as usize,
            None => 4096,
        },
        None => 4096,
    }
}

} // verus!
