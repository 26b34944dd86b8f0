//! Render-neutral models and parsers for a local-first Markdown vault editor.

pub mod account;
pub mod bases_formula;
pub mod bases_layout;
pub mod canvas;
pub mod vault;
pub mod editor_intents;
pub mod entry_actions;
pub mod editor_options;
pub mod editor_state;
pub mod explorer_intents;
pub mod explorer_model;
pub mod graph_view;
pub mod knowledge;
pub mod launcher;
pub mod markdown;
pub mod media;
pub mod navigation;
pub mod render_surface;
pub mod routing;
pub mod search_bar;
pub mod services;
pub mod settings;
pub mod shell;
pub mod tab;
pub mod text;
pub mod textmap;
