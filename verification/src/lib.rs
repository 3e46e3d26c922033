//! Search, syntax and entropy coding of an intra-only HEVC still-picture encoder.
//!
//! A picture is coded in coding tree blocks of 64x64 samples. `cu_search` decides the
//! quadtree of each, `cu_leaf` and `nxn_search` the modes of its coding units, `tu_search`
//! and `luma_search` their transform trees; `replay` codes what was decided. `write` and
//! `slice` turn the trees into syntax, and `cabac` into bits. What pixels, transforms and
//! rates are is asked of the caller in closures, and every decision is stated over their
//! answers.

pub mod analysis_cache;
pub mod aq;
pub mod aq_laws;
pub mod arith_code;
pub mod arith_decode;
pub mod batch;
pub mod bins;
pub mod bitstream;
pub mod block_code;
pub mod block_eval;
pub mod block_laws;
pub mod budget;
pub mod budget_laws;
pub mod cabac;
pub mod candidate_cost;
pub mod choice_laws;
pub mod code_laws;
pub mod config;
pub mod contexts;
pub mod cost;
pub mod cost_bound;
pub mod cu_leaf;
pub mod cu_search;
pub mod cu_tree;
pub mod decision_laws;
pub mod effort;
pub mod encode_pass;
pub mod final_code;
pub mod frame;
pub mod geometry;
pub mod items;
pub mod leaf_eval;
pub mod luma_search;
pub mod maps;
pub mod math;
pub mod measure;
pub mod measure_laws;
pub mod mode_laws;
pub mod mode_search;
pub mod nxn_search;
pub mod order_laws;
pub mod pass_laws;
pub mod policy;
pub mod presets;
pub mod quadtree;
pub mod queue;
pub mod ranking;
pub mod record_laws;
pub mod refine;
pub mod region;
pub mod replay;
pub mod replay_laws;
pub mod rough;
pub mod rule_laws;
pub mod sample_laws;
pub mod sao;
pub mod sao_choice;
pub mod sao_laws;
pub mod scan_laws;
pub mod search_laws;
pub mod search_state;
pub mod slice;
pub mod slice_build;
pub mod slice_read;
pub mod snapshot;
pub mod source;
pub mod source_laws;
pub mod state_laws;
pub mod stats;
pub mod still_encoder;
pub mod stream;
pub mod syntax;
pub mod syntax_read;
pub mod texture;
pub mod tree_laws;
pub mod trial_laws;
pub mod trial_region;
pub mod tu_search;
pub mod unit_laws;
pub mod unit_modes;
pub mod unit_read;
pub mod wins;
pub mod write;
