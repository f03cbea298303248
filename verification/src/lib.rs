//! Tokenizer, content guard, bigram trainer, generation loop and tensor
//! layout of the forge language kernel.

pub mod layout;
pub mod text;
pub mod tokenizer;
pub mod constitution;
pub mod trainer;
pub mod generator;
pub mod brain;
