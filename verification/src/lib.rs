//! Core of the Aether node: types, hashing, threshold encryption, the contract VM,
//! the flat state store, Block-STM execution, the DAG consensus engine, the
//! encrypted mempool, DHT message framing and the peer table.
pub mod types;
pub mod text;
pub mod vm;
pub mod assoc;
pub mod storage;
pub mod execution;
pub mod crypto;
pub mod mempool;
pub mod consensus;
pub mod dht;
pub mod p2p;
pub mod order;
pub mod node;
pub mod state;
pub mod http;
pub mod field;
pub mod interpolation;
pub mod polynomial;
