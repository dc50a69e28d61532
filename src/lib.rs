pub mod error;
pub mod field_element;
pub mod natural;
pub mod number_theory;
pub mod point;

pub use error::EccError;
pub use field_element::{FieldElement, FieldModel};
pub use natural::{Integer, Natural};
pub use point::{Point, PointModel};
