pub mod browser;
pub mod edit;
pub mod laws;
pub mod lookup;
pub mod reach;
pub mod selection;
pub mod tree;
