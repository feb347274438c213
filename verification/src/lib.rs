//! Typed and dropless arena allocation.
//!
//! An arena hands out stable locations for values and keeps every value for its whole
//! lifetime: nothing is freed piecemeal. Locations are named by [chunk::ArenaAddress]
//! handles (a chunk and a slot within it), and the arenas' contracts say where each
//! allocation lies, that allocations never overlap, and that what was stored stays.
pub mod constants;
pub mod layout;
pub mod chunk;
pub mod dropless_arena;
pub mod typed_arena;
