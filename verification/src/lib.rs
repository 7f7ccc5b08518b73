//! Formats, tokenizer, wire protocol and device scheduling of a language-model runtime.

pub mod attention;
pub mod attn_layer;
pub mod bignat;
pub mod binary;
pub mod byte_level;
pub mod chat;
pub mod cli;
pub mod codebook;
pub mod codebook_laws;
pub mod completion;
pub mod config;
pub mod dots;
pub mod double;
pub mod draft;
pub mod dspark;
pub mod encoder;
pub mod engine;
pub mod exact;
pub mod find;
pub mod forward;
pub mod gdev;
pub mod gdev_batch;
pub mod gdev_open;
pub mod gdn;
pub mod gguf;
pub mod gguf_retag;
pub mod gguf_write;
pub mod gpu;
pub mod half;
pub mod http;
pub mod inspect;
pub mod json;
pub mod kernels;
pub mod kv_laws;
pub mod kvquant;
pub mod layer_laws;
pub mod layers;
pub mod le;
pub mod limits;
pub mod lookup;
pub mod manifest;
pub mod matrix_laws;
pub mod norms;
pub mod number;
pub mod opencl;
pub mod pace_laws;
pub mod plan_laws;
pub mod planar;
pub mod prefill;
pub mod prompt;
pub mod reasoning;
pub mod repack;
pub mod reply_laws;
pub mod root;
pub mod rope;
pub mod sampler;
pub mod sampling;
pub mod sampling_laws;
pub mod scan;
pub mod server;
pub mod setting_laws;
pub mod sheets;
pub mod shortest;
pub mod single;
pub mod speculative;
pub mod text;
pub mod tokenizer;
pub mod tools;
pub mod utf8;
pub mod word_laws;
