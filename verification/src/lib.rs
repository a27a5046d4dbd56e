//! Core logic of the FlashPad quick-notes app.
#![allow(unused_imports)]

pub mod text;
pub mod foreign;
pub mod profiles;
pub mod db;
pub mod flashnote;
pub mod order;
pub mod backup;
pub mod notes;
pub mod images;
pub mod search;
pub mod scheduler;
pub mod folders;
pub mod shell;
