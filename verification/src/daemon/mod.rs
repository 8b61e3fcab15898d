pub mod menu;
pub mod notifications;
pub mod pull;
pub mod window;
pub mod windows;
