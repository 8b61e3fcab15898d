pub mod menu_types;
