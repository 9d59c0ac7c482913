//! Local face geometry, tracking and identity logic.

pub mod areas;
pub mod assignment;
pub mod bounds;
pub mod camera;
pub mod cli;
pub mod clock;
pub mod detector;
pub mod double;
pub mod dyadic;
pub mod face_id;
pub mod fixed;
pub mod lengths;
pub mod model;
pub mod monotone;
pub mod motion;
pub mod patterns;
pub mod placing;
pub mod prediction;
pub mod reals;
pub mod root;
pub mod rounding;
pub mod scaling;
pub mod shifting;
pub mod similarity;
pub mod single;
pub mod smoothing;
pub mod text;
pub mod tracker;
pub mod weight;

pub use detector::{DetectorError, FaceGeometryDetector};
pub use double::Double;
pub use model::{
    BoundingBox, CoordinateSystem, Detection, FaceGeometry, GeometryMeasurements, LandmarkKind,
    LandmarkRegion, Point,
};
pub use single::Single;
pub use tracker::{FaceTracker, FaceTrackerConfig, TrackedFace};
