//! Users, practice sessions and the application state built on them.

pub mod app;
pub mod filemanager;
pub mod session;
pub mod user;

pub use app::{Application, DictID, PracticeDirection, UserID};
pub use filemanager::AppFile;
pub use session::PracticeSession;
pub use user::{User, UserData};
