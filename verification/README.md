# opendeck

Verified core of a Stream Deck controller, written in Verus.

- `src/wallpaper.rs` — slicing a gridded wallpaper image into one tile per
  key (separated or seamless layouts), profile-name checks, data-URL decoding,
  the "Run Command" lookup and the key each tile goes to.
- `src/gif_animation.rs` — GIF detection and decoding limits, frame delay
  rounding, hex colours, base64 data URLs, frame composition layout.
- `src/lock_profile.rs` — switching devices to a profile on computer lock
  (one device step at a time) and back on unlock; drawing stored state
  images.
- `src/application_watcher.rs` — focused-application profile switching and
  the monitoring of application processes for plugins.
- `src/devices.rs` — routing of device events to plugins or the Elgato driver.
- `src/text.rs`, `src/assoc.rs` — character-level strings and string-keyed
  association lists with their specifications.
- `src/codec.rs`, `src/imaging.rs` — the calls into `base64` and `image`.

`app/` holds the unverified shell: shared state, polling loops, and the calls
into the host application's stores and messaging.
