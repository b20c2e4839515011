//! Architecture analysis of JavaScript, TypeScript and Vue module graphs.
pub mod text;
pub mod graph;
pub mod order;
pub mod report;
pub mod edges;
pub mod cycles;
pub mod analyzer;
pub mod rules;
pub mod names;
pub mod metrics;
pub mod jsonc;
pub mod paths;
pub mod advice;
pub mod framework;
pub mod config;
pub mod workspace;
pub mod resolve;
pub mod diagnose;
pub mod parser;
pub mod scan;
pub mod gitdiff;
pub mod server;
pub mod cli;
