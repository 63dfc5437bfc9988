#![allow(non_snake_case)]
#![allow(non_camel_case_types)]

pub mod bit_array;
pub mod code_93_reader;
pub mod exceptions;
pub mod one_d_reader;
pub mod qr_code;
mod text;
pub mod version;

pub use bit_array::BitArray;
pub use code_93_reader::{Code93Reader, RXingResult};
pub use exceptions::Exceptions;
pub use qr_code::{ByteMatrix, ErrorCorrectionLevel, Mode, QRCode};
pub use version::Version;
