//! Verified core of an APFS recovery toolkit.
pub mod attempt;
pub mod decmpfs;
pub mod destination;
pub mod device;
pub mod error;
pub mod extract;
pub mod history;
pub mod history_union;
pub mod image;
pub mod journal;
pub mod jrec;
pub mod json;
pub mod json_parse;
pub mod json_round_trip;
pub mod manifest;
pub mod manifest_run;
pub mod omap;
pub mod options;
pub mod output;
pub mod raw;
pub mod recover;
pub mod recover_manifest;
pub mod resolver;
pub mod scan;
pub mod sizes;
pub mod snapshots;
pub mod staging;
pub mod stat;
pub mod text;
pub mod union_run;
pub mod vol;
pub mod xid_map;
