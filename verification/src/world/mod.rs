//! The world server's presence gates: which connected players a friend
//! list or a `who` query may see, and what it is told of them.

pub mod presence;
pub mod social;
pub mod who;
