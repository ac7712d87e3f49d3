// A transaction-DAG ledger: content-addressed transactions executed against merged parental
// state, a graph of them with a derived child index, proposals that append to it, and the
// record-by-record synchronisation that grows it from peers.

pub mod address_map;
pub mod amount;
pub mod bytes;
pub mod dag;
pub mod decode;
pub mod graph;
pub mod hash;
pub mod proposal;
pub mod signature;
pub mod state;
pub mod sync;
pub mod system;
pub mod transaction;
pub mod vote;
