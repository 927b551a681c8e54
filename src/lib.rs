//! Cascade resolution: indexes style rules by origin, importance and
//! pseudo-element, and yields for each element the matching declarations in
//! cascade order.
pub mod selector;
pub mod stylesheet;
pub mod rule_map;
pub mod restyle;
pub mod cascade;
pub mod cascade_data;
pub mod stylist;
pub mod layout_query;
