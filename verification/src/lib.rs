//! Verified core of a small point-of-sale program: the binary formats of the
//! inventory and sales files, the control numbers of sales, the decimal text
//! that the screens show and read, and the decisions taken on the sales and
//! inventory tables.
pub mod codec;
pub mod text;
pub mod unicode;
pub mod inventory;
pub mod sales;
pub mod screens;
