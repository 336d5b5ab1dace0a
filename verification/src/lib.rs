//! Building blocks of a terminal workbench for serving local language models.

pub mod text;
pub mod number;
pub mod param_registry;
pub mod registry_table;
pub mod registry_laws;
pub mod swap_yaml;
pub mod civil_date;
pub mod swap_files;
pub mod cmd_block;
pub mod param_values;
pub mod param_builder;
pub mod text_laws;
pub mod line_laws;
pub mod edit_laws;
pub mod reading_laws;
pub mod disable_laws;
pub mod token_laws;
pub mod block_laws;
pub mod round_trip;
pub mod import_laws;
pub mod save_laws;
pub mod unquoted_laws;
pub mod command_laws;
pub mod entry_laws;
pub mod write_laws;
pub mod builder_laws;
pub mod editing_laws;
pub mod values_laws;
pub mod file_laws;
pub mod telemetry;
pub mod telemetry_laws;
pub mod theme;
pub mod boot_anim;
pub mod boot_laws;
pub mod view_laws;
