pub mod dispatch;
pub mod registry;
pub mod robots;
