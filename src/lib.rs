//! Background generation for a terminal login screen: a grid of line-art
//! tiles whose connections agree, with the largest connected curve singled out.
pub mod tiles;
pub mod curves;
pub mod panel;
pub mod login;
