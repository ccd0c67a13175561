use vstd::prelude::*;

pub mod cache;
pub mod clock;
pub mod commands;
pub mod datasource;
pub mod db;
pub mod domain;
pub mod text;
pub mod updater;
pub mod window;

verus! {

/// Whether the app runs portable (a `portable.dat` lies next to the
/// executable): data stays beside it and updates are left to the user.
#[derive(Debug, Clone, Copy)]
pub struct PortableMode(pub bool);

} // verus!
