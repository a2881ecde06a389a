//! Intermediate representations, from symbolic expressions down to allocated code.

pub mod access;
pub mod acting;
pub mod alu;
pub mod anchor;
pub mod arith;
pub mod audit;
pub mod bits;
pub mod boxed;
pub mod branch;
pub mod closure;
pub mod context;
pub mod clear;
pub mod clear_made;
pub mod clear_rules;
pub mod dead;
pub mod decode;
pub mod edges;
pub mod effects;
pub mod entry;
pub mod event;
pub mod expr;
pub mod flags;
pub mod flow;
pub mod fold;
pub mod folding;
pub mod frame;
pub mod graph;
pub mod guest;
pub mod hash;
pub mod instr;
pub mod known;
pub mod lift;
pub mod linear;
pub mod live;
pub mod lower;
pub mod machine;
pub mod meaning;
pub mod mnemonic;
pub mod moves;
pub mod narrow;
pub mod numerals;
pub mod passes;
pub mod pipeline;
pub mod products;
pub mod prune;
pub mod regalloc;
pub mod region;
pub mod rename;
pub mod render;
pub mod results;
pub mod rules;
pub mod rules_and;
pub mod rules_or;
pub mod rules_sum;
pub mod run;
pub mod scaling;
pub mod schedule;
pub mod seed;
pub mod shape;
pub mod settle;
pub mod simplify;
pub mod stack;
pub mod step;
pub mod subst;
pub mod text;
pub mod thread;
pub mod transfer;
pub mod unseen;
pub mod value;
pub mod walk;
pub mod words;
pub mod x86;
