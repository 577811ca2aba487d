//! A small constraint-based task scheduler: resource calendars, configuration
//! calendars with status compatibility, and an ordered task list.

pub mod configuration;
pub mod constraint;
pub mod name_map;
pub mod resource;
pub mod status;
pub mod task;

pub use configuration::ConfigurationManager;
pub use constraint::ConstraintManager;
pub use name_map::NameMap;
pub use resource::{ResourceIntervals, ResourceManager};
pub use status::StatusRelationChart;
pub use task::{Configuration, Task, TaskList};
