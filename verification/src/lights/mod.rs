pub mod pointlight;

pub use pointlight::PointLight;
