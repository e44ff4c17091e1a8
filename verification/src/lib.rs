//! airhorizon: map tiles, terrain and skyline panoramas.

pub mod ieee;
pub mod order;
pub mod tile;
pub mod text;
pub mod horizon;
pub mod ridge;
pub mod sight;
pub mod water;
pub mod asc;
pub mod tiffdir;
pub mod lidar;
pub mod gridfile;
pub mod dem;
pub mod basemap;
pub mod mvt;
pub mod mesh;
pub mod label;
pub mod panorama;
pub mod pbf;
pub mod mapdata;
pub mod peaks;
pub mod atlas;
pub mod ui;
