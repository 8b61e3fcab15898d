pub mod menu;
