pub mod emlx;
pub mod external;
pub mod text;
pub mod report;
pub mod name_map;
pub mod sorting;
pub mod aggregate;
pub mod render;
pub mod progress;
