//! Slots for names: the slot-addressed form of a program, and the frame
//! layout that assigns the slots.

pub mod syntax;
pub mod frame_layout;
pub mod layout_laws;
