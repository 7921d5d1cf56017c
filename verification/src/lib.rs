//! SQL-like queries over structured log lines.

pub mod aggregate_laws;
pub mod args;
pub mod args_laws;
pub mod arrange;
pub mod ast;
pub mod big;
pub mod class_laws;
pub mod compare_laws;
pub mod condition_laws;
pub mod decimal;
pub mod decimal_laws;
pub mod engine;
pub mod engine_laws;
pub mod eval;
pub mod group;
pub mod group_laws;
pub mod json;
pub mod json_laws;
pub mod lexer;
pub mod like;
pub mod line_laws;
pub mod notation_laws;
pub mod num;
pub mod number_laws;
pub mod output;
pub mod output_laws;
pub mod parser;
pub mod pattern;
pub mod pattern_laws;
pub mod pattern_syntax;
pub mod pattern_text_laws;
pub mod query_laws;
pub mod record;
pub mod render_laws;
pub mod repeat_laws;
pub mod result_laws;
pub mod sound_laws;
pub mod stream;
pub mod stream_laws;
pub mod syntax_laws;
pub mod text;
pub mod text_laws;
pub mod time_laws;
pub mod timeutil;
pub mod token_laws;
pub mod value;
