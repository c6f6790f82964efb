pub mod model;
pub mod builder;
pub mod text;
pub mod records;
pub mod cursor;
pub mod strs;
pub mod netclass;
pub mod parsers;
pub mod brd;
pub mod brd2;
pub mod bdv;
pub mod bvr;
pub mod cad;
pub mod cst;
pub mod asc;
pub mod fz;
pub mod xzz;
pub mod gencad;
pub mod search;
pub mod identity;
pub mod settings;
pub mod index;
pub mod data;
pub mod tabs;
