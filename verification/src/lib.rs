//! rsh: the verified core of a small UNIX shell.

pub mod arith;
pub mod arithlaws;
pub mod builtinlaws;
pub mod builtins;
pub mod completion;
pub mod discipline;
pub mod executor;
pub mod expand;
pub mod flatlaws;
pub mod flowlaws;
pub mod grammar;
pub mod interpolation;
pub mod jobctl;
pub mod joblaws;
pub mod jobs;
pub mod lexlaws;
pub mod machine;
pub mod outside;
pub mod pathlaws;
pub mod paramlaws;
pub mod parser;
pub mod pattern;
pub mod quoting;
pub mod readcmd;
pub mod redirect;
pub mod report;
pub mod runlaws;
pub mod session;
pub mod sessionlaws;
pub mod soundness;
pub mod state;
pub mod syntax;
pub mod table;
pub mod testcmd;
pub mod text;
pub mod textlaws;
pub mod tokenizer;
pub mod tokenlaws;
pub mod vars;
pub mod wordlaws;
