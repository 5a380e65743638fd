//! The verified core of a comic translation pipeline.
//!
//! Pages go through four stages: text is detected, read, translated and painted over. Here stands
//! what the stages compute and decide. What they need from the machine (files, the network, neural
//! networks, floating point) is done around this library, which takes the results as plain values:
//! measurements as the bits of numbers, as keys that order like them, or as flags.
//!
//! - Detection: `mask`, `closing` and `grid` (the mask of a page's texts), `suppression` (regions
//!   that repeat each other), `layout`, `tree`, `direction`, `reading` and `entries` (reading
//!   order), `color`, `palette`, `flood`, `paint`, `ink` and `typography` (how text looks),
//!   `regions` (what is written).
//! - Translation: `request`, `prompt`, `instructions` and `answer` (what a model is asked, and
//!   whether its answer fits), `units` and `chapter` (texts of whole chapters), `translator` (what
//!   is sent), `page_image`.
//! - Painting: `fal`, `fal_edit`, `fal_error` and `openrouter_edit` (edits by services, as steps
//!   from event to action), `picture` (pages and edited images as files), `redact`,
//!   `image_catalog`.
//! - Running: `scheduler`, `schedule_history` (what holds over all calls of a run), `execution`,
//!   `stage_runner`, `stages`, `failure`, `stage`.
//! - The program around it: `config`, `config_file`, `preferences`, `processing`, `exchange`,
//!   `versions`, `storage`, `identifier`.
//! - Shared: `json`, `encoding`, `text`, `bits`, `ordering`, `sorting`, `groups`, `counting`,
//!   `extremum`, `lists`, `page_index`, `pixel`, `language`.

pub mod answer;
pub mod bits;
pub mod chapter;
pub mod closing;
pub mod color;
pub mod config;
pub mod config_file;
pub mod counting;
pub mod direction;
pub mod encoding;
pub mod entries;
pub mod exchange;
pub mod execution;
pub mod extremum;
pub mod failure;
pub mod fal;
pub mod fal_edit;
pub mod fal_error;
pub mod flood;
pub mod grid;
pub mod groups;
pub mod identifier;
pub mod image_catalog;
pub mod ink;
pub mod instructions;
pub mod json;
pub mod language;
pub mod layout;
pub mod lists;
pub mod mask;
pub mod openrouter_edit;
pub mod ordering;
pub mod page_image;
pub mod page_index;
pub mod paint;
pub mod palette;
pub mod picture;
pub mod pixel;
pub mod preferences;
pub mod processing;
pub mod prompt;
pub mod reading;
pub mod redact;
pub mod regions;
pub mod request;
pub mod schedule_history;
pub mod scheduler;
pub mod sorting;
pub mod stage;
pub mod stage_runner;
pub mod stages;
pub mod storage;
pub mod suppression;
pub mod text;
pub mod translator;
pub mod tree;
pub mod typography;
pub mod units;
pub mod versions;
