//! Traffic: the verified core of a report on the visits that a user's
//! GitHub repositories received over the last two weeks.
//!
//! The library holds what the program decides and computes: which days a
//! view history covers, the trend of the daily unique visitors, the order and
//! layout of the report, the requests to make and how their answers are
//! paired up. Reading credentials, talking to the GitHub API and printing stay
//! outside the library.

pub mod text;
pub mod clock;
pub mod views;
pub mod github;
pub mod output;
pub mod join_all_res;
