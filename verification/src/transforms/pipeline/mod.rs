//! The compression pipeline and the transforms that it runs.

pub mod calls;
pub mod json_minifier;
pub mod laws;
pub mod line_importance_filter;
pub mod orchestrator;
pub mod registry;
pub mod traits;
pub mod turns;

pub use json_minifier::JsonMinifier;
pub use line_importance_filter::{LineImportanceFilter, LineImportanceFilterConfig};
pub use orchestrator::{
    CompressionPipeline, CompressionPipelineBuilder, Phase, PipelineConfig, PipelineEvent,
    PipelineResult,
};
pub use traits::{
    CompressionContext, LosslessTransform, LossyTransform, TransformError, TransformResult,
};
