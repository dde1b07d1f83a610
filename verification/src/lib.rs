//! A bounds-tracked, bidirectional read cursor over a borrowed contiguous
//! region, together with short-circuiting scan operations (`all`, `any`,
//! `find`, `position`, `rposition`) that may process four elements per loop
//! iteration without changing any result.

pub mod iter;
pub mod laws;
