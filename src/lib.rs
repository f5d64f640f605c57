//! An append-only ledger of signed blocks, each linked to the digest of the
//! one before it and admitted only under signatures of its controllers.
pub mod block;
pub mod codec;
pub mod error;
pub mod seal;
pub mod helper;
pub mod signing;
pub mod ledger;
pub mod decode;
pub mod transport;
pub mod unique;
pub mod utf8_form;
