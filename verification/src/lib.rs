//! JPEG decoding within the quantization intervals: the exact, integer and
//! byte-level parts of the reconstruction, each with its contract.
//!
//! - [`jpegio`]: what the C layer of JPEG reading and PNG writing hands over, and
//!   [`jpegio::testing`], the test files that its encoder writes.
//! - [`decode`]: a file's components as a reconstruction takes them.
//! - [`frames`]: the components of a file on one canvas.
//! - [`planar`]: the layout of the solvers, each row of the canvas as planes.
//! - [`operators`]: the shape of a plane.
//! - [`laplace`]: the counts of each frequency's levels that its Laplace scale is
//!   estimated from.
//! - [`model`], [`results`]: the centres of the data term, and why a solver stopped.
//! - [`exact`]: rationals, binomial coefficients, factorials and the Bernoulli
//!   numbers, exactly.
//! - [`orientation`]: the EXIF orientation of a picture, and the picture turned.
//! - [`tiff`]: the result in binary64, written bit for bit.
//! - [`output`]: PNM files, and what a PNG file asks before it is written.
//! - [`cli`]: the command line.
//! - [`capi`]: what the C interface decides.
//! - [`error`]: what goes wrong.
pub mod capi;
pub mod cli;
pub mod decode;
pub mod error;
pub mod exact;
pub mod frames;
pub mod jpegio;
pub mod laplace;
pub mod model;
pub mod operators;
pub mod orientation;
pub mod output;
pub mod planar;
pub mod results;
pub mod tiff;
