//! A small issue-tracking data store: epics that own stories, each with a
//! status, persisted as a single JSON document.
//!
//! The crate is organised around a snapshot type ([`models::DBState`]) holding
//! every epic and story, a storage contract ([`db::Database`]) for reading and
//! writing the whole snapshot at once, a repository ([`db::JiraDatabase`])
//! that applies one CRUD operation per read-modify-write round trip, and a
//! canonical JSON codec ([`codec`]) for the on-disk form.

pub mod codec;
pub mod db;
pub mod id_map;
pub mod models;
pub mod pages;
