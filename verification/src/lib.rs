//! Verified core of a Stream Deck controller: keypad wallpaper slicing,
//! animated GIF handling, device event routing, computer-lock profile
//! switching and application monitoring.

pub mod application_watcher;
pub mod assoc;
pub mod codec;
pub mod devices;
pub mod gif_animation;
pub mod imaging;
pub mod lock_profile;
pub mod text;
pub mod wallpaper;

use vstd::prelude::*;

verus! {

} // verus!
