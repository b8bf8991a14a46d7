pub mod book;
pub mod client;
pub mod connection;
pub mod freelist;
pub mod matcher;
pub mod order;
pub mod security;
pub mod shard;
pub mod snapshot;
pub mod utils;

pub use crate::book::Book;
pub use crate::matcher::MatcherView;
pub use crate::client::{parse_order, OrderIndex};
pub use crate::connection::Hub;
pub use crate::freelist::{FreeList, MAX_ACTIVE_ORDERS};
pub use crate::order::{
    ClientId, Order, OrderCancel, OrderReceived, OrderType, Symbol, TimedOrder, Timestamp,
};
pub use crate::security::{SecPrice, SecPriceVec, Security, SecurityData, SecurityDataRef};
pub use crate::shard::{list_all_security_prices, shard_for, Shard, ShardStep, ShardedOrder};
pub use crate::snapshot::SnapshotJob;
pub use crate::utils::{binary_insert_by_cmp, ClientCommands, Frame};
