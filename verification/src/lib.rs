//! Keeps a reverse proxy's dynamic configuration directory in step with the
//! services of a process supervisor: which units are tracked, which file each
//! started unit gets, and how flat routing labels become one structured
//! document.

pub mod codec;
pub mod dbus;
pub mod generation_engine;
pub mod helpers;
pub mod infra;
pub mod logger;
pub mod node;
pub mod node_lemmas;
pub mod text;
pub mod yaml;
pub mod yaml_lemmas;
