pub mod rollinghash;
