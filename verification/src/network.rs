//! The messages that nodes exchange, and the frame that carries one of them
//! on a stream of bytes: the length of the payload as 8 bytes, most
//! significant first, and then the payload.

use vstd::prelude::*;
use crate::crypto::PublicKey;
use crate::types::block::Block;
use crate::types::transaction::{Transaction, TransactionOutput};
use crate::uint256::{be_value, pow256, pow2_64};

verus! {

/// What one node says to another.
#[derive(Debug)]
pub enum Message {
    /// Asks for the unspent outputs of a key.
    FetchUTXO(PublicKey),
    /// The unspent outputs of a key, each with its mark.
    UTXOs(Vec<(TransactionOutput, bool)>),
    /// Hands a transaction to the network.
    SubmitTransaction(Transaction),
    /// Passes a new transaction on to other nodes.
    NewTransaction(Transaction),
    /// Asks for a block to mine whose coinbase pays the key.
    FetchTemplate(PublicKey),
    /// A block to mine.
    Template(Block),
    /// Asks whether a block to mine is still good.
    ValidateTemplate(Block),
    /// Whether the block to mine is still good.
    TemplateValidity(bool),
    /// Hands in a mined block.
    SubmitTemplate(Block),
    /// Asks for the nodes that a node knows.
    DiscoverNodes,
    /// The nodes that a node knows.
    NodeList(Vec<String>),
    /// Asks how many blocks a node has beyond the given height.
    AskDifference(u32),
    /// How many blocks the node has beyond the height asked for.
    Difference(i32),
    /// Asks for the block at a height.
    FetchBlock(usize),
    /// Passes a new block on to other nodes.
    NewBlock(Block),
}

/// The `len` low bytes of `n`, most significant byte first.
pub open spec fn be_bytes(n: nat, len: nat) -> Seq<u8>
    decreases len,
{
    if len == 0 {
        Seq::empty()
    } else {
        be_bytes(n / 256, (len - 1) as nat).push((n % 256) as u8)
    }
}

/// The frame of a payload.
pub open spec fn frame_of(payload: Seq<u8>) -> Seq<u8> {
    be_bytes(payload.len(), 8) + payload
}

/// The payload of a frame that stands at the start of `bytes`: `None`
/// where the bytes end before the frame does.
pub open spec fn payload_of(bytes: Seq<u8>) -> Option<Seq<u8>> {
    if bytes.len() < 8 {
        None
    } else if be_value(bytes.take(8)) > bytes.len() - 8 {
        None
    } else {
        Some(bytes.subrange(8, 8 + be_value(bytes.take(8)) as int))
    }
}

proof fn lemma_be_bytes_len(n: nat, len: nat)
    ensures
        be_bytes(n, len).len() == len,
    decreases len,
{
    if len > 0 {
        lemma_be_bytes_len(n / 256, (len - 1) as nat);
    }
}

/// Reading the bytes of a number gives the number back, where it fits in
/// them.
pub proof fn lemma_be_value_of_be_bytes(n: nat, len: nat)
    requires
        n < pow256(len),
    ensures
        be_value(be_bytes(n, len)) == n,
        be_bytes(n, len).len() == len,
    decreases len,
{
    lemma_be_bytes_len(n, len);
    if len > 0 {
        lemma_be_value_of_be_bytes(n / 256, (len - 1) as nat);
        assert(be_bytes(n, len).drop_last() =~= be_bytes(n / 256, (len - 1) as nat));
    }
}

proof fn lemma_pow256_8()
    ensures
        pow256(8) == pow2_64(),
{
    reveal_with_fuel(pow256, 9);
}

/// A frame gives its payload back.
pub proof fn lemma_payload_of_frame(payload: Seq<u8>)
    requires
        payload.len() <= u64::MAX,
    ensures
        payload_of(frame_of(payload)) == Some(payload),
{
    lemma_pow256_8();
    lemma_be_value_of_be_bytes(payload.len(), 8);
    let framed = frame_of(payload);
    assert(framed.take(8) =~= be_bytes(payload.len(), 8));
    assert(framed.subrange(8, 8 + payload.len() as int) =~= payload);
}

/// The length of a payload as the 8 bytes that go before it.
pub fn length_prefix(length: u64) -> (prefix: [u8; 8])
    ensures
        prefix@ == be_bytes(length as nat, 8),
{
    let mut prefix: [u8; 8] = [0u8; 8];
    let mut rest: u64 = length;
    let mut i: usize = 8;
    proof {
        lemma_be_bytes_len(length as nat, 8);
        assert(be_bytes(length as nat, 8).take(8) =~= be_bytes(length as nat, 8));
    }
    while i > 0
        invariant
            i <= 8,
            be_bytes(length as nat, 8).len() == 8,
            be_bytes(length as nat, 8).take(i as int) == be_bytes(rest as nat, i as nat),
            forall|j: int| i <= j < 8 ==> prefix@[j] == be_bytes(length as nat, 8)[j],
        decreases i,
    {
        proof {
            let all = be_bytes(length as nat, 8);
            let here = be_bytes(rest as nat, i as nat);
            lemma_be_bytes_len((rest / 256) as nat, (i - 1) as nat);
            assert(all[i - 1] == all.take(i as int)[i - 1]);
            assert(here.drop_last() =~= be_bytes((rest / 256) as nat, (i - 1) as nat));
            assert(all.take(i - 1) =~= all.take(i as int).drop_last());
        }
        i -= 1;
        prefix[i] = (rest % 256) as u8;
        rest = rest / 256;
    }
    proof {
        assert(prefix@ =~= be_bytes(length as nat, 8));
    }
    prefix
}

/// The length that the 8 bytes before a payload stand for.
pub fn payload_length(prefix: &[u8; 8]) -> (length: u64)
    ensures
        length == be_value(prefix@),
{
    let mut length: u64 = 0;
    let mut i: usize = 0;
    proof {
        assert(prefix@.take(0) =~= Seq::<u8>::empty());
        reveal_with_fuel(pow256, 9);
    }
    while i < 8
        invariant
            i <= 8,
            prefix@.len() == 8,
            length == be_value(prefix@.take(i as int)),
            length < pow256(i as nat),
        decreases 8 - i,
    {
        proof {
            assert(prefix@.take(i + 1).drop_last() =~= prefix@.take(i as int));
            reveal_with_fuel(pow256, 9);
        }
        length = length * 256 + prefix[i] as u64;
        i += 1;
    }
    proof {
        assert(prefix@.take(8) =~= prefix@);
    }
    length
}

/// The frame of a payload: its length as 8 bytes, then the payload.
pub fn frame(payload: &[u8]) -> (framed: Vec<u8>)
    ensures
        framed@ == frame_of(payload@),
{
    let prefix = length_prefix(payload.len() as u64);
    let mut framed: Vec<u8> = Vec::new();
    crate::codec::put_raw(&mut framed, prefix.as_slice());
    crate::codec::put_raw(&mut framed, payload);
    proof {
        assert(framed@ =~= frame_of(payload@));
    }
    framed
}

/// The payload of the frame at the start of `bytes`; `None` where the
/// bytes end before the frame does.
pub fn unframe(bytes: &[u8]) -> (payload: Option<Vec<u8>>)
    ensures
        (match payload {
            Some(p) => Some(p@),
            None => None,
        }) == payload_of(bytes@),
{
    if bytes.len() < 8 {
        return None;
    }
    let mut prefix: [u8; 8] = [0u8; 8];
    let mut i: usize = 0;
    while i < 8
        invariant
            i <= 8,
            bytes@.len() >= 8,
            forall|j: int| 0 <= j < i ==> prefix@[j] == bytes@[j],
        decreases 8 - i,
    {
        prefix[i] = bytes[i];
        i += 1;
    }
    proof {
        assert(prefix@ =~= bytes@.take(8));
    }
    let length: u64 = payload_length(&prefix);
    if length > (bytes.len() - 8) as u64 {
        return None;
    }
    let end: usize = 8 + length as usize;
    let mut payload: Vec<u8> = Vec::new();
    crate::codec::put_raw(&mut payload, vstd::slice::slice_subrange(bytes, 8, end));
    proof {
        assert(payload@ =~= bytes@.subrange(8, 8 + be_value(bytes@.take(8)) as int));
    }
    Some(payload)
}

} // verus!
