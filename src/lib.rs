pub mod track_point;
pub mod map_image;
pub mod arguments;
