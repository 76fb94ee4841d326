pub mod constraint;
pub mod guest;
pub mod seating;
mod seq_lemmas;
pub mod solver;
pub mod table;
pub mod text;
pub mod ui;
