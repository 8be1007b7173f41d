pub mod unique_id;
pub mod ids;
pub mod id_tools;
pub mod text;
pub mod shader_error_parser;
pub mod code_generation;
pub mod common;
pub mod combo_box;
pub mod easing;
pub mod eng_rus;
pub mod scenes;
pub mod storage2;
pub mod texture;
pub mod arithmetic;
pub mod glsl;
pub mod object;
pub mod animation;
pub mod stage;
pub mod error_count;
pub mod shader_code;
pub mod scene_serialized;
