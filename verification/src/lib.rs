pub mod editor;
pub mod external;
pub mod io;
pub mod keymap;
pub mod pipeline;
