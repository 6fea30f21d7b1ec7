//! The values that the DHT stores: blocks, chain-tip headers and pending admission challenges.

use crate::block::{Block, BlockView};
use crate::block_header::BlockHeader;
use vstd::prelude::*;

verus! {

/// A pending admission challenge: the challenge number and the difficulty asked for.
#[derive(Clone, Copy, Debug, PartialEq, Eq, Structural)]
pub struct Ticket {
    pub nonce: u32,
    pub difficulty: u32,
}

impl Ticket {
    pub fn new(nonce: u32, difficulty: u32) -> (r: Ticket)
        ensures
            r.nonce == nonce,
            r.difficulty == difficulty,
    {
        Ticket { nonce, difficulty }
    }
}

/// A stored value, as a value.
pub enum DataView {
    Block(BlockView),
    Header(BlockHeader),
    Ticket(Ticket),
}

/// A value stored in the DHT.
#[derive(Debug)]
pub enum KademliaData {
    Block(Block),
    Header(BlockHeader),
    Ticket(Ticket),
}

impl KademliaData {
    pub open spec fn view(&self) -> DataView {
        match self {
            KademliaData::Block(b) => DataView::Block(b.view()),
            KademliaData::Header(h) => DataView::Header(*h),
            KademliaData::Ticket(t) => DataView::Ticket(*t),
        }
    }
}

impl Clone for KademliaData {
    fn clone(&self) -> (r: Self)
        ensures
            r.view() == self.view(),
    {
        match self {
            KademliaData::Block(b) => KademliaData::Block(b.clone()),
            KademliaData::Header(h) => KademliaData::Header(*h),
            KademliaData::Ticket(t) => KademliaData::Ticket(*t),
        }
    }
}

} // verus!
