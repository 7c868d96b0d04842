//! Speech recogniser core.

pub mod attention;
pub mod beam;
pub mod broadcast;
pub mod convolution;
pub mod decoder;
pub mod decoder_gemm;
pub mod encoder;
pub mod encoding;
pub mod english;
pub mod english_grammar;
pub mod english_numbers;
pub mod frame_weights;
pub mod frontend;
pub mod heads;
pub mod kernels;
pub mod labels;
pub mod layers;
pub mod layout;
pub mod maplist;
pub mod matmul;
pub mod model_files;
pub mod normalization;
pub mod numeric;
pub mod numerics;
pub mod operands;
pub mod patches;
pub mod pieces;
pub mod postprocess;
pub mod punctuation;
pub mod quantized;
pub mod rank;
pub mod semantics;
pub mod states;
pub mod streaming;
pub mod tables;
pub mod tensor;
pub mod text;
pub mod token_timing;
pub mod topk;
pub mod transcript;
pub mod types;
pub mod vad;
pub mod vad_endpoint;
pub mod vad_session;
pub mod version;
pub mod vocabulary;
pub mod wordpiece;
pub mod words;
