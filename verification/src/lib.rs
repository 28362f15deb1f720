use vstd::prelude::*;

pub mod address;
pub mod app;
pub mod appearance;
pub mod bar;
pub mod base64;
pub mod big;
pub mod bindings;
pub mod bookmarks;
pub mod bytes;
pub mod cdp;
pub mod clipboard;
pub mod dialog;
pub mod doctor;
pub mod double;
pub mod download;
pub mod drive;
pub mod engine;
pub mod errands;
pub mod events;
pub mod find;
pub mod fit;
pub mod fullscreen;
pub mod glass;
pub mod graphics;
pub mod hints;
pub mod history;
pub mod input;
pub mod json;
pub mod json_parse;
pub mod json_text;
pub mod json_wire;
pub mod keys;
pub mod light;
pub mod line;
pub mod load;
pub mod motion;
pub mod mouse;
pub mod orders;
pub mod paths;
pub mod route;
pub mod row;
pub mod screen;
pub mod seek;
pub mod size;
pub mod strings;
pub mod tabs;
pub mod terminal;
pub mod text;
pub mod upload;

verus! {

}
