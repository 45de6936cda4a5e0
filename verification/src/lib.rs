//! terragrunt-dag: the dependency graph of terragrunt projects.
//!
//! The crate reads terragrunt configurations, resolves the paths in them, and puts out the
//! projects of a monorepo with their dependencies in several formats.

pub mod builtin_laws;
pub mod builtins;
pub mod cache;
pub mod changes;
pub mod cycle;
pub mod cycle_report;
pub mod discovery;
pub mod eval_laws;
pub mod functions;
pub mod gha;
pub mod graph;
pub mod hcl_eval;
pub mod layers;
pub mod names;
pub mod output;
pub mod output_laws;
pub mod parser;
pub mod parser_laws;
pub mod path;
pub mod pipeline;
pub mod pipeline_laws;
pub mod processor;
pub mod processor_laws;
pub mod project;
pub mod report_laws;
pub mod resolver;
pub mod resolver_laws;
pub mod source;
pub mod stack;
pub mod stack_file;
pub mod stack_laws;
pub mod syntax;
pub mod text;
pub mod world;

pub use cache::ParseCache;
pub use cycle::{detect_cycles, DependencyEdge, EdgeType};
pub use cycle_report::{analyze_cycles, report_cycles};
pub use output::{generate_output, OutputConfig, OutputFormat};
pub use processor::{process_all_projects, ProcessError, ProjectResult};
pub use project::Project;
