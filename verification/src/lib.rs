//! A line-oriented pattern matcher: a restricted regular-expression syntax is
//! compiled into a tree of pattern nodes, and a scanning matcher walks that
//! tree against an input line, reporting every located match span.

pub mod iterators;
pub mod matcher;
pub mod parser;
