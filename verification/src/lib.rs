//! The verified core of the Cutty video editor.

pub mod audio_layout;
pub mod audio_source;
pub mod bytes;
pub mod cache;
pub mod compose;
pub mod crop;
pub mod decode;
pub mod double;
pub mod encoders;
pub mod error;
pub mod export_job;
pub mod ffmpeg_run;
pub mod filmstrip;
pub mod framecache;
pub mod ipc;
pub mod paths;
pub mod peaks;
pub mod playback;
pub mod player;
pub mod probe;
pub mod project;
pub mod proxy;
pub mod render;
pub mod render_args;
pub mod rounding;
pub mod session;
pub mod strings;
pub mod text;
pub mod thumbnail;
pub mod tools;
pub mod transport;
pub mod trim;
