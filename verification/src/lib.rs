//! Fiducial-marker detection logic: dictionaries and Hamming identification,
//! thresholding, contour tracing, near-duplicate grouping, chessboard corner
//! graphs and grid recovery, ChArUco layout and corner filtering, RANSAC
//! sampling, rigid-body marker matching, and CPU core selection.

pub mod affinity;
pub mod board;
pub mod charuco;
pub mod chessboard;
pub mod contours;
pub mod corner_graph;
pub mod detector;
pub mod dictionary;
pub mod imgproc;
pub mod pnp;
pub mod rigid_body;
