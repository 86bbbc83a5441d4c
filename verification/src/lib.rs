pub mod fuzzy;
pub mod managers;
pub mod pacman;
pub mod text;
pub mod yay;
