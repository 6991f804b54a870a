pub mod hex;
pub mod pool;
pub mod routing;
pub mod socket;
pub mod transaction;
pub mod transport;
