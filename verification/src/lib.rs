pub mod algorithm;
pub mod diff;
pub mod hasher;
pub mod hex;
pub mod index;
pub mod order;
pub mod pipeline;
pub mod pool;
pub mod record;
