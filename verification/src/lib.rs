//! Rubik's cube domain model, solvers and trainer logic, with contracts
//! checked by Verus.

pub mod moves;
pub mod orient;
pub mod vec3;
pub mod cube;
pub mod error;
pub mod facelets;
pub mod assembly;
pub mod validation;
pub mod parser;
pub mod scramble;
pub mod rank;
pub mod two;
pub mod two_tracking;
pub mod three;
pub mod ida;
pub mod four;
pub mod five;
pub mod guides;
pub mod trainer;
pub mod render;
pub mod input;
