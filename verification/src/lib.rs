//! The verified core of a five-card draw poker server.
//!
//! The library models cards, hands and their total order, the shuffled deck,
//! the per-match credit accounting, and the phase state machine that drives
//! a match from the antes through dealing, betting, drawing and the
//! showdown. Two conservation laws hold at every step: the pots plus the
//! players' balances always equal the credits the players brought, and each
//! of the 52 cards always sits in exactly one place — the draw pile, the
//! discard pile, or a live card slot of a hand. The per-recipient state
//! projection shows nobody another player's live card before the showdown.
//!
//! Scheduling, locking, timers and the transport live with the embedding
//! application; the library hands it plain decisions and waits.
pub mod ante;
pub mod betting;
pub mod card;
pub mod deck;
pub mod drawing;
pub mod error;
pub mod hand;
pub mod hand_rank;
pub mod kv;
pub mod lobby;
pub mod phase;
pub mod player;
pub mod poker;
pub mod projection;
pub mod showdown;
pub mod stateful;
pub mod table;
pub mod tie_breakers;
