//! Template walks: the compact instructions that lead a renderer from one
//! placeholder of an HTML template to the next.
use vstd::prelude::*;

pub mod amounts;
pub mod arrays;
pub mod click_counter;
pub mod component;
pub mod defaults;
pub mod depth_first;
pub mod dom;
pub mod fine_grained;
pub mod html;
pub mod nav;
pub mod nested_walk;
pub mod placeholders;
pub mod reactive;
pub mod render;
pub mod scope_state;
pub mod scope_struct;
pub mod state;
pub mod stream_nav;
pub mod sum_component;
pub mod template;
pub mod text;
pub mod walk;
pub mod walk_iterator;
pub mod walk_stream;
