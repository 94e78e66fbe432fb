//! Text segmentation: the configuration of a splitter and the splitter
//! built on compiled patterns.

pub mod segmentation_config;
pub mod text_segmentor;
