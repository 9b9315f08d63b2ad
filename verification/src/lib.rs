//! Building blocks of a parts shopper: it scrapes the search pages of
//! several electronics shops, lets the user pick one article per shop for
//! every part of a bill of materials, and lays out the resulting baskets.

pub mod text;
pub mod html;
pub mod shops;
pub mod cart;
pub mod laws;
