pub mod input;
pub mod integer;
pub mod iterlibs;
pub mod versatility_functions;
