//! Optional local face embeddings and persistent identity matching.
//!
//! Geometry tracking and identity recognition remain separate: the camera only sends small aligned
//! face tensors while it knows too little of a new tracking ID.

pub mod align;
pub mod capture;
pub mod client;
pub mod consensus;
pub mod embedding;
pub mod fit;
pub mod gallery;
pub mod guidance;
pub mod identity;
pub mod samples;
pub mod sampling;
pub mod scoring;
pub mod store;
pub mod vectors;

pub use align::aligned_sface_tensor_bgra;
pub use capture::{
    landmark_pitch_degrees, CapturePose, FaceCaptureRequest, FaceCaptureStatus, FaceCaptureTarget,
};
pub use client::FaceIdClient;
pub use gallery::{FaceIdDatabaseMode, SFACE_COSINE_THRESHOLD};
pub use identity::FaceIdentityMatch;
