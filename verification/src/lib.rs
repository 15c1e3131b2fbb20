//! Henosis: deterministic graph orchestration primitives, controller
//! decisions and simulation fakes, with their behaviour stated as contracts.

pub mod checkpoint;
pub mod clock;
pub mod cloudflare;
pub mod controller;
pub mod cycles;
pub mod diagnostics;
pub mod digest;
pub mod fmt;
pub mod resource;
pub mod rng;
pub mod supabase;
pub mod text;
pub mod textset;
pub mod trace;
pub mod workmap;
pub mod schedule;
pub mod names;
pub mod operation;
pub mod validation;
pub mod memstore;
pub mod sim;
pub mod stores;
pub mod engine;
pub mod frontend;
pub mod pinsync;
pub mod evaluation;
pub mod programs;
pub mod lanes;
pub mod fixtures;
pub mod journal;
pub mod reconcile;
pub mod k8s;
pub mod registry;
pub mod plan;
pub mod intent;
pub mod interpretation;
pub mod materialized;
pub mod slicereport;
pub mod graphcore;
