//! Driver logic for the Brady M511 label printer over Bluetooth LE: print-job
//! encoding, write fragmentation, request framing and response reassembly,
//! property decoding and the cartridge table.

pub mod wire;
pub mod text;
pub mod job;
pub mod proto;
pub mod supply;
pub mod probes;
pub mod printer;
pub mod ble;
pub mod server;
pub mod request;
