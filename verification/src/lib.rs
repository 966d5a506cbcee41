pub mod agreement;
pub mod chip8;
pub mod ok_stack;
pub mod persistent_list;
pub mod post;
pub mod pratt;
pub mod pratt_streamlined;
pub mod query;
pub mod shunting_yard;
pub mod text;
pub mod web;
