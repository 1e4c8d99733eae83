pub mod primitive;
pub mod sphere;
pub mod triangle;

pub use primitive::Primitive;
pub use sphere::Sphere;
pub use triangle::Triangle;
