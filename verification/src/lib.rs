pub mod borrowing;
pub mod calc;
pub mod dupfind;
pub mod functions;
pub mod moves;
pub mod ownership;
pub mod text;
