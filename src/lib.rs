//! A street index for printed maps: which grid cells each street-name label
//! falls into, deduplicated per street and classified for compact printing.
pub mod gridconfig;
pub mod order;
pub mod roads2csv;
pub mod text;

pub use roads2csv::{
    DeduplicatedRoads, FinalizedGridPositon, GridPosition, InputStreetValue, ProcessedRoad,
    ProcessedRoadNames, StreetName, UnprocessedRoad, UnprocessedRoadNames,
};

pub use gridconfig::{Bbox, Grid, GridConfig, GridError, Millimeter, StreetNameRect};
