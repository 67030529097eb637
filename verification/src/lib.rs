pub mod country;
pub mod fact;
pub mod groups;
pub mod identity;
pub mod model;
pub mod names;
pub mod payload;
pub mod ranking;
pub mod rollup;
pub mod select;
pub mod stats;
pub mod tally;
pub mod team;
pub mod teams;
pub mod text;
pub mod text_map;
