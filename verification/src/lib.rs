pub mod clock;
pub mod csvtext;
pub mod dataset;
pub mod discovery;
pub mod json;
pub mod laws;
pub mod mesh;
pub mod monitor;
pub mod node;
pub mod op;
pub mod persist;
pub mod replica;
pub mod settings;
pub mod text;
pub mod textmap;
