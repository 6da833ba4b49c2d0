//! A definitional-equality and type-inference kernel over interned terms.
pub mod term;
pub mod theory;
pub mod table;
pub mod bignum;
pub mod error;
pub mod counters;
pub mod level;
pub mod expr;
pub mod env;
pub mod names;
pub mod arena;
pub mod rc;
pub mod nbe;
pub mod closure;
pub mod ctx;
pub mod uses;
pub mod ctx_ops;
pub mod reads;
pub mod reify;
pub mod memo;
pub mod spine;
pub mod strlit;
pub mod rapier;
pub mod tc;
pub mod tc_ops;
pub mod eval;
pub mod reduce;
pub mod nats;
pub mod types;
pub mod collect;
pub mod told;
pub mod conv;
pub mod beta;
pub mod infer;
pub mod infer_app;
pub mod session;
pub mod check;
pub mod rp_core;
pub mod rp_memo;
pub mod rp_reduce;
pub mod rp_rec;
pub mod rp_infer;
pub mod rp_conv;
pub mod rp_delta;
pub mod fuse_cost;
pub mod fuser;
pub mod fuse;
pub mod fuse_app;
pub mod prims;
pub mod answers;
pub mod laws;
