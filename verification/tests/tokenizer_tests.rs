//! Splitting text into tokens and back.

use bonsai::byte_level::{byte_encode_word, byte_of_char, byte_to_char, decode_bytes};
use bonsai::engine::Engine;
use bonsai::gguf::{Value, GGUF};
use bonsai::gguf_write::write_gguf;
use bonsai::scan::{flags_of, scan_qwen35, to_lower};
use bonsai::server::{answer, stop_tokens, Answer};
use bonsai::tokenizer::{encode, partition, Frag, TokenizeOptions, Vocab};

#[test]
fn byte_encoder_table() {
    assert_eq!(byte_to_char(b' '), '\u{0120}');
    assert_eq!(byte_to_char(b'H'), 'H');
    assert_eq!(byte_to_char(0xA1), '\u{A1}');
    assert_eq!(byte_to_char(0x00), '\u{0100}');
    assert_eq!(byte_to_char(0x1F), '\u{011F}');
    assert_eq!(byte_to_char(0x7F), '\u{0121}');
    assert_eq!(byte_encode_word(" Hello"), "ĠHello");
}

fn parts(text: &str) -> Vec<String> {
    let cs: Vec<u32> = text.chars().map(|c| c as u32).collect();
    let lens = scan_qwen35(&cs);
    let total: usize = lens.iter().sum();
    assert_eq!(total, cs.len());
    let mut s = 0;
    let mut out = Vec::new();
    for &l in &lens {
        out.push(cs[s..s + l].iter().filter_map(|&c| char::from_u32(c)).collect());
        s += l;
    }
    out
}

#[test]
fn qwen35_scan_simple() {
    let text: Vec<u32> = "The capital of France".chars().map(|c| c as u32).collect();
    let lens = scan_qwen35(&text);
    let total: usize = lens.iter().sum();
    assert_eq!(total, text.len());
    let mut s = 0;
    let mut parts: Vec<String> = Vec::new();
    for &l in &lens {
        let w: String = text[s..s + l].iter().filter_map(|&c| char::from_u32(c)).collect();
        parts.push(w);
        s += l;
    }
    assert_eq!(parts, vec!["The", " capital", " of", " France"], "parts={parts:?}");
}

#[test]
fn words_numbers_and_marks_are_parted() {
    assert_eq!(parts("I'll go"), vec!["I", "'ll", " go"]);
    assert_eq!(parts("a1b22"), vec!["a", "1", "b", "2", "2"]);
    assert_eq!(parts("hi!! you"), vec!["hi", "!!", " you"]);
    assert_eq!(parts("x\n\ny"), vec!["x", "\n\n", "y"]);
    assert_eq!(parts("a   b"), vec!["a", "  ", " b"]);
    assert_eq!(parts(""), Vec::<String>::new());
    assert_eq!(parts("été 漢字"), vec!["été", " 漢字"]);
}

#[test]
fn categories_come_from_the_table() {
    let a = flags_of('a' as u32);
    assert!(a.letter && !a.number && !a.whitespace);
    assert!(flags_of('7' as u32).number);
    assert!(flags_of(' ' as u32).whitespace);
    assert!(flags_of('!' as u32).punct);
    assert!(flags_of('+' as u32).symbol);
    assert!(flags_of(0x0301).mark);
    assert!(flags_of('漢' as u32).letter);
    assert_eq!(to_lower('A' as u32), 'a' as u32);
    assert_eq!(to_lower('É' as u32), 'é' as u32);
    assert_eq!(to_lower('1' as u32), '1' as u32);
}

#[test]
fn bytes_and_characters_correspond() {
    for b in 0..=255u8 {
        assert_eq!(byte_of_char(byte_to_char(b)), Some(b));
    }
    assert_eq!(byte_of_char('漢'), None);
    let word = "naïve \u{1F600}\n";
    assert_eq!(decode_bytes(&byte_encode_word(word)), word.as_bytes());
    assert_eq!(decode_bytes("漢"), "漢".as_bytes());
}

fn strings(v: &[&str]) -> Value {
    Value::Array { elem_type: 8, items: v.iter().map(|s| Value::Str(s.to_string())).collect() }
}

fn model(tokens: &[&str], types: &[i32], merges: &[&str]) -> Vec<u8> {
    let meta = vec![
        ("tokenizer.ggml.tokens".to_string(), strings(tokens)),
        (
            "tokenizer.ggml.token_type".to_string(),
            Value::Array { elem_type: 5, items: types.iter().map(|&t| Value::I32(t)).collect() },
        ),
        ("tokenizer.ggml.merges".to_string(), strings(merges)),
    ];
    write_gguf(3, &meta, &Vec::new()).header
}

const TOKENS: [&str; 12] =
    ["h", "e", "l", "o", "he", "ll", "hell", "hello", "Ġ", "<|im_end|>", "w", "Ġw"];
const TYPES: [i32; 12] = [1, 1, 1, 1, 1, 1, 1, 1, 1, 3, 1, 1];
const MERGES: [&str; 5] = ["h e", "l l", "he ll", "hell o", "Ġ w"];

fn opts(parse_special: bool) -> TokenizeOptions {
    TokenizeOptions { add_special: false, parse_special }
}

#[test]
fn merges_build_words() {
    let file = model(&TOKENS, &TYPES, &MERGES);
    let v = Vocab::from_gguf(&GGUF::open(&file).unwrap()).unwrap();
    assert_eq!(v.special_ids, vec![9]);
    assert_eq!(encode("hello", &v, &opts(true)), vec![7]);
    assert_eq!(encode("hell", &v, &opts(true)), vec![6]);
    assert_eq!(encode("hel", &v, &opts(true)), vec![4, 2]);
    assert_eq!(encode("hello w", &v, &opts(true)), vec![7, 11]);
    assert_eq!(encode("hello<|im_end|>hello", &v, &opts(true)), vec![7, 9, 7]);
    assert_eq!(encode("", &v, &opts(true)), Vec::<i32>::new());
    assert_eq!(v.token("hell"), Some(6));
    assert_eq!(v.token("absent"), None);
    assert_eq!(v.find_bpe_rank("l", "l"), Some(1));
    assert_eq!(v.find_bpe_rank("o", "o"), None);
}

#[test]
fn pieces_render_back() {
    let file = model(&TOKENS, &TYPES, &MERGES);
    let v = Vocab::from_gguf(&GGUF::open(&file).unwrap()).unwrap();
    let ids = encode("hello w", &v, &opts(true));
    let bytes: Vec<u8> = ids.iter().flat_map(|&i| v.piece_bytes(i)).collect();
    assert_eq!(bytes, b"hello w");
    assert!(v.piece_bytes(9).is_empty());
    assert!(v.piece_bytes(-1).is_empty());
    assert!(v.piece_bytes(99).is_empty());
}

#[test]
fn broken_vocabularies_are_refused() {
    let file = write_gguf(3, &Vec::new(), &Vec::new()).header;
    assert!(Vocab::from_gguf(&GGUF::open(&file).unwrap()).is_err());
    let file = model(&TOKENS, &TYPES, &["nospace"]);
    assert_eq!(
        Vocab::from_gguf(&GGUF::open(&file).unwrap()).unwrap_err(),
        "merge without separator"
    );
    let meta = vec![("tokenizer.ggml.tokens".to_string(), strings(&TOKENS))];
    let file = write_gguf(3, &meta, &Vec::new()).header;
    assert_eq!(
        Vocab::from_gguf(&GGUF::open(&file).unwrap()).unwrap_err(),
        "missing tokenizer.ggml.merges"
    );
}

#[test]
fn stop_tokens_are_the_marks_and_the_end() {
    let file = model(&TOKENS, &TYPES, &MERGES);
    let v = Vocab::from_gguf(&GGUF::open(&file).unwrap()).unwrap();
    let s = stop_tokens(&v, Some(5));
    assert!(s.contains(&9), "{s:?}");
    assert!(s.contains(&5), "{s:?}");
    assert!(!stop_tokens(&v, None).contains(&5));
}

#[test]
fn fragments_are_parted_at_specials() {
    let raw = b"ab<x>c<x>";
    let specials = vec![(4i32, b"<x>".to_vec())];
    let types = vec![1, 1, 1, 1, 4];
    assert_eq!(
        partition(raw, &specials, true, &types),
        vec![
            Frag::Raw { start: 0, len: 2 },
            Frag::Tok(4),
            Frag::Raw { start: 5, len: 1 },
            Frag::Tok(4),
        ]
    );
}

#[test]
fn special_tokens_are_their_ids() {
    let file = model(&TOKENS, &TYPES, &MERGES);
    let v = Vocab::from_gguf(&GGUF::open(&file).unwrap()).unwrap();
    for (a, b) in [("", ""), ("hello", ""), ("", " w"), ("hel", "hello w")] {
        let whole = encode(&format!("{a}<|im_end|>{b}"), &v, &opts(true));
        let mut parts = encode(a, &v, &opts(true));
        parts.push(9);
        parts.extend(encode(b, &v, &opts(true)));
        assert_eq!(whole, parts, "{a:?} {b:?}");
    }
    assert_ne!(encode("<|im_end|>", &v, &opts(false)), vec![9]);
}

#[test]
fn white_space_is_the_property() {
    let spaces: Vec<char> = (0..=0x10FFFFu32)
        .filter_map(char::from_u32)
        .filter(|c| bonsai::text::trim(&c.to_string()).is_empty())
        .collect();
    let want: Vec<char> = "\u{9}\u{a}\u{b}\u{c}\u{d}\u{20}\u{85}\u{a0}\u{1680}\u{2000}\u{2001}\u{2002}\u{2003}\u{2004}\u{2005}\u{2006}\u{2007}\u{2008}\u{2009}\u{200a}\u{2028}\u{2029}\u{202f}\u{205f}\u{3000}"
        .chars()
        .collect();
    assert_eq!(spaces, want);
}

#[test]
fn a_thinking_model_gets_its_reasoning_opened_in_chats() {
    let body = br#"{"messages":[{"role":"user","content":"hi"}],"prompt":"hi"}"#.to_vec();
    for think in [true, false] {
        let file = model(&TOKENS, &TYPES, &MERGES);
        let engine = Engine {
            vocab: Vocab::from_gguf(&GGUF::open(&file).unwrap()).unwrap(),
            stop: Vec::new(),
            model_id: "m".to_string(),
            think,
            split_reasoning: true,
        };
        match answer(&engine, "POST", "/v1/chat/completions", &body) {
            Answer::Generate { prompt, chat, .. } => {
                assert_eq!(prompt.ends_with("<think>\n"), think);
                assert_eq!(engine.opens_reasoning(chat), think);
            },
            Answer::Send(t) => panic!("{t}"),
        }
        match answer(&engine, "POST", "/v1/completions", &body) {
            Answer::Generate { prompt, chat, .. } => {
                assert_eq!(prompt, "hi");
                assert!(!engine.opens_reasoning(chat));
            },
            Answer::Send(t) => panic!("{t}"),
        }
    }
}
