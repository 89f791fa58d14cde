//! Translate canonical (symlink-resolved) paths back to their logical
//! (symlink-preserving) equivalents, and logical paths to canonical ones.
//!
//! When a shell's current directory is reached through a symlink (Unix), or
//! a junction, subst drive or mapped drive (Windows), two paths name the
//! same place: the logical one and the canonical one. Where their
//! components diverge, a prefix mapping is detected, and paths are
//! translated through it in either direction. Every translation is checked
//! by resolving both the input and the candidate; when the check fails, the
//! input comes back unchanged.
//!
//! Paths are read with the rules of a `PathStyle`: Unix (`/` separates,
//! names compare exactly) or Windows (`\` and `/` separate, a drive or UNC
//! prefix may come first; shared suffixes and the round-trip check compare
//! names without regard to ASCII case, and a drive letter matches in either
//! case).

pub mod completeness;
pub mod components;
pub mod context;
pub mod divergence;
pub mod extended;
pub mod laws;
pub mod render;
pub mod windows_laws;

pub use components::{components_equal, is_relative, path_components, paths_equal, PathStyle};
pub use context::{LogicalPathContext, PrefixMapping, TranslationDirection};
pub use divergence::find_divergence_point;
pub use extended::{strip_extended_length_prefix, strip_extended_prefix};
pub use render::render_components;
