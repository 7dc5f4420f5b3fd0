//! The engine behind Thor, a flasher for Samsung devices in download mode.
//!
//! Everything a device conversation is made of lives here and is proved: the 1024-byte command
//! packets, the PIT partition table, the split of an image into sequences and parts, the Odin
//! session, the upload-mode memory dumper, the kernel-log carver, and the rules by which the
//! command line reads its arguments and guards what it would overwrite. USB, files and the
//! terminal stay outside: a [`transport::Transport`] carries the bytes.

pub mod action;
pub mod archive;
pub mod backend;
pub mod bootlog;
pub mod bytes;
pub mod command;
pub mod dmesg;
pub mod dryrun;
pub mod flash;
pub mod flashing;
pub mod guard;
pub mod headers;
pub mod listing;
pub mod live;
pub mod number;
pub mod odin;
pub mod path;
pub mod pit;
pub mod progress;
pub mod proto;
pub mod report;
pub mod session;
pub mod shell;
pub mod text;
pub mod trace;
pub mod transport;
pub mod upload;
