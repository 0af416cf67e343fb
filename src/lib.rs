//! Turns a table of tagged resources into a topic hierarchy: the parsing of
//! rows, the grouping of resources by topic, and the directory layout that
//! presents each topic with its resources and its child topics.

pub mod topic;
pub mod resource;
pub mod row;
pub mod index;
pub mod layout;
pub mod generate;
