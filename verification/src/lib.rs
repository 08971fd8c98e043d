//! Split virtqueues for VIRTIO drivers.
pub mod account;
pub mod barrier;
pub mod buffer;
pub mod device;
pub mod dma;
pub mod driver;
pub mod errno;
pub mod error;
pub mod hal;
pub mod history;
pub mod hwrng;
pub mod intact;
pub mod laws;
pub mod layout;
pub mod model;
pub mod notify;
pub mod queue;
pub mod ring;
mod split;
pub mod transport;
pub mod utils;
pub mod view;
pub mod virtqueue;
pub mod wire;
