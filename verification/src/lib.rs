//! Amiga Game Vault: a self-hosted ROM manager for ADF disk images.
//!
//! The library is what the vault decides and computes; what it reads and writes is
//! handed in and out as plain values. Its pieces:
//! - [`identity`]: content hashing and the content-derived UID.
//! - [`naming`]: TOSEC filename parsing, title sanitization, and the canonical
//!   filename schema (`Title-Kebab_vVer_lang_dNNofMM_uid.adf`).
//! - [`edition`]: the Title -> Edition -> Artifact identity model and dump flags.
//! - [`ranking`]: non-destructive primary selection within an Edition.
//! - [`store`]: the content-addressed blob store.
//! - [`dat`]: reference DAT import and hash lookup.
//! - [`ingest`]: container decoding and the ingest pipeline.
//! - [`catalog`]: which row a Title or an Edition is, which rows form a set, and which are
//!   left empty.
//! - [`db`]: the rows that are stored, and the views made of them.
//! - [`service`]: ingest, sets, works, exports and re-identification.
//! - [`enrich`]: editorial metadata from online libraries.
//! - [`web`]: replies, downloads, archives and the page.
//! - [`text`] and [`order`]: strings, and sorting and grouping by a key.

pub mod catalog;
pub mod dat;
pub mod db;
pub mod edition;
pub mod enrich;
pub mod error;
pub mod identity;
pub mod ingest;
pub mod naming;
pub mod order;
pub mod ranking;
pub mod service;
pub mod store;
pub mod text;
pub mod web;
