//! A Monte-Carlo path tracer for scenes of spheres.
//!
//! Numbers are saturating fixed-point reals ([`fixed`]); on them stand
//! vectors ([`vec3`]), rays ([`ray`]), spheres and their intersection with
//! a ray ([`sphere`], [`hittable`]), the materials and how they scatter
//! ([`material`]), the camera ([`camera`]), the radiance estimator with the
//! loop over the pixels ([`render`]) and the tone mapping ([`colours`]).
//!
//! What depends on chance is stated as a relation: a function that draws
//! says which results it may give, and beside it stands a function that
//! takes the draws as arguments and says which result it does give.
pub mod camera;
pub mod colours;
pub mod fixed;
pub mod hittable;
pub mod material;
pub mod random;
pub mod ray;
pub mod render;
pub mod sphere;
pub mod trig;
pub mod utils;
pub mod vec3;
pub mod world;
