//! Verified coordination logic of the Yarra world editor: revision-aware derived-job
//! scheduling, bounded undo history, atmosphere working sets, project query and save
//! queues, runtime publication, navigation paging and overview demand.

pub mod artifacts;
pub mod assoc;
pub mod brush;
pub mod derived_inputs;
pub mod ground_cover_pages;
pub mod catalog;
pub mod commands;
pub mod coverage;
pub mod definitions;
pub mod dense_domains;
pub mod atmosphere;
pub mod history;
pub mod journal;
pub mod jobs;
pub mod layers;
pub mod live_preview;
pub mod layer_browser;
pub mod navigation;
pub mod objects;
pub mod overview;
pub mod paint_input;
pub mod paint_preview;
pub mod paint_stroke;
pub mod presets;
pub mod preview_modes;
pub mod project_store;
pub mod publication;
pub mod ranked;
pub mod regions;
pub mod text;
pub mod scheduler;
pub mod selection;
pub mod stamps;
pub mod world;
