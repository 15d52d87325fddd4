//! Core rules of a debating tournament: side names, rounds, ballots and their
//! aggregation, draws, team standings and draw editing.
pub mod aggregate;
pub mod availability;
pub mod ballot_builder;
pub mod ballot_form;
pub mod ballot_checks;
pub mod ballots;
pub mod drawgen;
pub mod draw_edit;
pub mod draws;
pub mod metrics;
pub mod pages;
pub mod participants;
pub mod power_pairing;
pub mod results;
pub mod rounds;
pub mod seqs;
pub mod sides;
pub mod standings;
pub mod team_tab;
pub mod text;
pub mod tournament;
