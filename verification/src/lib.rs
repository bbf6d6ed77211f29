//! Reserving FPGAs, and whole hosts, on machines that are shared: who may claim what, what a claim
//! protects, and how that protection follows the claims.
//!
//! Everything here works on plain values. What the machine looks like (USB and PCI devices, files,
//! processes, mounts) comes in as a snapshot, and what is to be done and said goes out as data;
//! the program around the library reads, writes and prints.
//!
//! The modules named `laws_of_..` state what holds of these operations as a whole: what they must
//! never miss, what they must leave alone, and how one call relates to another.
pub mod cable;
pub mod cable_locks;
pub mod claiming;
pub mod claims;
pub mod clock;
pub mod command;
pub mod discovery;
pub mod diskstate;
pub mod fpga;
pub mod hog;
pub mod inventory;
pub mod laws_of_boards;
pub mod laws_of_cables;
pub mod laws_of_claims;
pub mod laws_of_discovery;
pub mod laws_of_hogs;
pub mod laws_of_locks;
pub mod laws_of_messages;
pub mod laws_of_reports;
pub mod laws_of_text;
pub mod report;
pub mod seqs;
pub mod systemd_units;
pub mod text;
pub mod util;
