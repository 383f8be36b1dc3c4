pub mod bytes;
pub mod color;
pub mod error;
pub mod ndsfile;
pub mod nclr;
pub mod ncgr;
pub mod nscr;
pub mod imgdata;
pub mod tile_fixer;
pub mod ncer;
pub mod extend;

pub use bytes::ByteOrder;
pub use color::ColorBGR555;
pub use error::Error;
pub use ndsfile::{NDSFile, Section};
pub use nclr::NCLR;
pub use ncgr::{NCGR, NCGRTiles, Tile};
pub use nscr::{NSCR, TileRef};
pub use imgdata::ImgHelper;
pub use tile_fixer::{allocate_palettes, extract_tiles, image_to_tiles, FixerTile};
pub use ncer::{CellBounds, NCERCell, OAMObject, ObjectInternals, ObjectShape, RotScaleObject, NCER};
pub use extend::{FileType, FormatType};
