//! Abstract chain interfaces: pure type contracts with no logic, consumed
//! by the surrounding rollup machinery.

use vstd::prelude::*;

verus! {

/// A value that has a canonical digest.
pub trait CanonicalHash {
    /// The digest type.
    type Output;

    /// Computes the canonical digest of `self`.
    fn hash(&self) -> Self::Output;
}

/// A block header, linked to its predecessor by hash.
pub trait Blockheader: PartialEq + CanonicalHash<Output = <Self as Blockheader>::Hash> {
    /// The hash type that identifies a header.
    type Hash: Clone;

    /// The hash of the previous block's header.
    fn prev_hash(&self) -> &Self::Hash;
}

/// A transaction with a canonical hash.
pub trait Transaction: PartialEq + CanonicalHash<Output = <Self as Transaction>::Hash> {
    /// The hash type that identifies a transaction.
    type Hash;
}

/// A block: a header plus an ordered list of transactions.
pub trait Block: PartialEq {
    /// The header type of this block.
    type Header: Blockheader;

    /// The transaction type of this block.
    type Transaction: Transaction;

    /// The block's header.
    fn header(&self) -> &Self::Header;

    /// The block's transactions, in order.
    fn transactions(&self) -> &[Self::Transaction];

    /// Consumes the block and yields its transactions.
    fn take_transactions(self) -> Vec<Self::Transaction>;
}

/// An account address.
pub trait Address: PartialEq + Clone {
}

/// The error returned when address bytes do not form a valid address.
pub struct InvalidAddress;

} // verus!
