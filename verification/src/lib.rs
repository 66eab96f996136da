//! Wallpaper Engine projects on Hyprland: formats, rules and state.
pub mod animation;
pub mod assets;
pub mod bytes;
pub mod catalog;
pub mod client;
pub mod commands;
pub mod config;
pub mod daemon;
pub mod doubles;
pub mod effect;
pub mod hlsl;
pub mod hyprland;
pub mod json;
pub mod mdlv;
pub mod numbers;
pub mod particle;
pub mod paths;
pub mod picker;
pub mod pkg;
pub mod policy;
pub mod properties;
pub mod protocol;
pub mod scene;
pub mod settings;
pub mod sliders;
pub mod strmap;
pub mod tex;
pub mod text;
