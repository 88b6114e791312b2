use vstd::prelude::*;

pub mod actions;
pub mod address;
pub mod app;
pub mod args;
pub mod cstr;
pub mod ctype;
pub mod dirent;
pub mod driver;
pub mod env;
pub mod files;
pub mod frames;
pub mod handle;
pub mod heap;
pub mod id;
pub mod map;
pub mod memory;
pub mod messaging;
pub mod paging;
pub mod parse;
pub mod posix;
pub mod printf;
pub mod reader;
pub mod registers;
pub mod scanf;
pub mod slab;
pub mod sort;
pub mod scheduling;
pub mod stack;
pub mod text;
pub mod time;
pub mod state;
pub mod stdio;
pub mod stdlib;
pub mod switching;

verus! {

} // verus!
