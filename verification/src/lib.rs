//! Header masking logger: turns a header collection and a set of sensitive
//! header names into a single log line in which sensitive values are replaced
//! by a fixed mask token, and parses the configuration that names the
//! sensitive headers.

mod config;
mod mask;
mod text;

pub use config::fault_text;
pub use config::header_field;
pub use config::spec_fault;
pub use config::ConfigFault;
pub use config::parse_config;
pub use config::spec_parse_config;
pub use config::Config;
pub use config::ConfigParseError;
pub use mask::contains_name;
pub use mask::create_masked_text;
pub use mask::entries_text;
pub use mask::entry_text;
pub use mask::first_names;
pub use mask::header_log;
pub use mask::header_views;
pub use mask::last_value;
pub use mask::lemma_masked_record_correct;
pub use mask::lemma_masking_deterministic;
pub use mask::lemma_output_keys;
pub use mask::mask_token;
pub use mask::mask_token_text;
pub use mask::masked_entries;
pub use mask::masked_map;
pub use mask::masked_value;
pub use mask::name_views;
pub use mask::names_of;
pub use mask::spec_masked_text;
pub use text::chars_to_string;
pub use text::escaped;
pub use text::escaped_char;
pub use text::push_escaped;
pub use text::utf8_at;
pub use text::utf8_lossy;
pub use text::utf8_lossy_text;
