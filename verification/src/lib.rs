use vstd::prelude::*;

pub mod ctc;
pub mod dictionary;
pub mod doc_ori;
pub mod engine;
pub mod postprocessing;
pub mod preprocessing;
pub mod recognition;
pub mod text_line_ori;

pub use ctc::{CtcGreedyDecoder, CtcGreedyDecoderConfig, CtcGreedyDecoderError, CtcScores, DecodedPath};
pub use dictionary::{DictionaryError, RecDictionary};
pub use engine::OnnxModelBytes;
pub use postprocessing::{DetPostProcessorError, TracedContour};
pub use preprocessing::{
    DetPreProcessor, DetPreProcessorConfig, DetPreProcessorError, RecPreProcessorError,
    RecTextRegion, Rotation,
};

verus! {

} // verus!
