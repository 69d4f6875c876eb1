pub mod stats;
pub mod shrine;
pub mod text;
pub mod talent;
pub mod optimizer;
pub mod planner;
pub mod nuxt;
pub mod variants;
pub mod wiki;
pub mod laws;
