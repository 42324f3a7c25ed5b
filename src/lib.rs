//! Game-tree search for a four-player trick-taking card game: the trick
//! ledger, the incremental per-player statistics, the snapshot exploration
//! with its minimax aggregator and pruners, and the hand enumerators.

pub mod assign;
pub mod game;
pub mod hand;
pub mod handiterators;
pub mod primitives;
pub mod rules;
pub mod rulesrufspiel;
pub mod rulestatecache;
pub mod snapshotcache;
pub mod stich;
pub mod stichseq;
pub mod suspicion;
pub mod trumpfdecider;
