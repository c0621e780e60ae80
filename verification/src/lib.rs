//! Core logic of a Matrix chat bot that hands room messages to llama.cpp
//! worker processes: configuration, worker launch arguments, the reply
//! scanner that detects the end of a model answer, and the room/worker
//! scheduling state machine.

pub mod config;
pub mod worker;
pub mod bot;
