//! Event and state core of a session-viewer desktop tool: a debounced,
//! single-flight coordinator for background work, the toggle-selection
//! reconciler for a list widget with exclusive click selection, the layout
//! of the sidebar and the groups its selection stands for, and the steps of
//! loading session data.

pub mod coordinator;
pub mod loading;
pub mod selection;
pub mod sidebar;
