//! Node-table gateway: validates a textual socket address and dispatches an
//! add / remove / one-shot-connect request to an injected peer table.
pub mod address;
pub mod gateway;
pub mod table;
