//! Quire's page-tree workspace, sync merge and text rules, verified with Verus.

pub mod cli;
pub mod doc;
pub mod launch;
pub mod picker;
pub mod shell;
pub mod shortcuts;
pub mod sync;
pub mod text;
pub mod workspace;
pub mod workspace_laws;
