pub mod attributes;
pub mod bits;
pub mod constructor;
pub mod example;
pub mod layout;
pub mod register;
pub mod spirit1;
pub mod valued;
