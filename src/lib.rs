//! Reaction leaderboards for a window of posts: bounded top-k selection per
//! reaction category, a cheap pre-filter for everything else, and a
//! two-phase refinement that ranks the residual leaderboard by the number of
//! distinct reacting users.

pub mod config;
pub mod content;
pub mod post;
pub mod scan;
pub mod time_utils;
pub mod topk;
pub mod toplist;
