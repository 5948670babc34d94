//! Evaluation pipeline for infix arithmetic: text is split into tokens, the
//! tokens are reordered into postfix form by the Shunting Yard algorithm, and
//! the postfix sequence is then ready for a stack machine.
pub mod expression;
pub mod shunting_yard;
pub mod stack;
pub mod tokenizer;
