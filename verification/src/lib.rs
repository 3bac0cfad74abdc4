//! Depth tracking for nested ternary systems: positions in a bounded
//! hierarchy, a non-invasive log of observations keyed by depth, the abyssal
//! zone at the bottom of a hierarchy, and staged decompression schedules back
//! to the surface.

pub mod abyssal;
pub mod bathyscope;
pub mod decompression;
pub mod depth;
pub mod ternary;

pub use abyssal::AbyssalZone;
pub use bathyscope::Bathyscope;
pub use decompression::PressureDecompression;
pub use depth::Depth;
pub use ternary::Ternary;
