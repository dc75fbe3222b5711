pub mod accounting;
pub mod array;
pub mod burst_buffer;
pub mod job;
pub mod nodelist;
pub mod sorting;
pub mod text;
