//! The player's side: what the screen, the pad and the microphone are told to do.

pub mod app;
pub mod articulation;
pub mod audio;
pub mod brain_swap;
pub mod chord_map;
pub mod codes;
pub mod debug_wireframe;
pub mod driver;
pub mod driver_laws;
pub mod hud;
pub mod input;
pub mod map_tree;
pub mod menu;
pub mod net_track;
pub mod part_windows;
pub mod paths;
pub mod pos_trace;
pub mod pose;
pub mod run_game;
pub mod scene;
pub mod screenshot;
pub mod vehicle_view;
pub mod view_laws;
pub mod voice;
pub mod voice_laws;
pub mod wav;
