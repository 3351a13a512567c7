pub mod color;
pub mod error;
pub mod image;
pub mod pixel;

pub use color::ColorType;
pub use error::ImageError;
pub use image::Image;
pub use pixel::Pixel;
pub use pixel::rgb_to_gray;
