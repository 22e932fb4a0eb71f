//! Referral statistics for a mission office: response times, referral
//! follow-up, weekly and daily reports, and the schedules that send them.

pub mod time;
pub mod persons;
pub mod church;
pub mod cache;
pub mod scheduled_times;
pub mod text;
pub mod reports;
pub mod missionary;
pub mod leaderboard;
pub mod cli;
