//! Verified core of the Markov-chain Discord bot: the text formatting, query
//! handling, reply rendering and bookkeeping decisions that the bot's commands
//! make, with the Discord, database, network and file-system work left to the
//! application around it.

pub mod text;
pub mod numfmt;
pub mod cowsay;
pub mod query;
pub mod search;
pub mod models;
pub mod report;
pub mod params;
