//! A key-value store for NOR flash that keeps erase cycles to a minimum.
//!
//! A region of flash is treated as a ring of pages. Items are appended to one
//! page at a time; when it is full the next page takes over, and the items of
//! the page that is about to be recycled are carried forward first. Nothing is
//! cached in RAM: every call reads the state of the log from the flash itself.
//!
//! The code, leaves first:
//! - [`flash`]: the driver interface and what its operations do to the bytes;
//! - [`mock_flash`]: a flash kept in memory;
//! - [`page`]: the ring of pages and the two marker words of each page;
//! - [`map`]: the item codec interface, `fetch_item` and `store_item`, and
//!   what the two compute, as functions of the bytes on the flash;
//! - [`byte_item`]: the smallest item there is, with a well-behaved codec.
//!
//! What is proved of the map beyond the contracts of its functions:
//! - [`zone`]: reading the items of one page with a well-behaved codec;
//! - [`consistency`]: the state that storing keeps the flash in, and that what
//!   was stored last is what is fetched;
//! - [`ring`]: the shape of the log on the ring of pages;
//! - [`rotation`]: that storing an item leaves the items of all other keys in
//!   effect, so that the store is a map; how much the region holds; and that
//!   a store that succeeds leaves a blank page, whatever stores came before;
//! - [`capacity`]: when a store is refused because the storage is full.

pub mod byte_item;
pub mod capacity;
pub mod consistency;
pub mod flash;
pub mod map;
pub mod mock_flash;
pub mod page;
pub mod ring;
pub mod rotation;
pub mod zone;
