//! The command-line tool's rules: which language it speaks, which queries it makes, and what it
//! reports.
pub mod locale;
pub mod output;
pub mod queries;
