//! Deterministic webpack chunk names for dynamic `import()` calls.
//!
//! The library holds the naming rules (how an import specifier and the
//! importing file become a `camelCasePrefix.leaf` chunk name), the rewriting
//! of an import's leading magic comments, and the decisions the plugin makes
//! for each call expression. Every public function carries a contract over
//! sequences of characters.

pub mod text;
pub mod naming;
pub mod template;
pub mod comments;
pub mod plugin;
pub mod laws;
