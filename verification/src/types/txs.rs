//! Transaction rows, locations and decoded envelopes.

use vstd::prelude::*;

use alloy_consensus::transaction::RlpEcdsaDecodableTx;
use alloy_consensus::Transaction;
use alloy_eips::eip2718::Decodable2718;

use crate::be::{
    be_bytes, lemma_be_bytes_len, lemma_be_bytes_of_value, lemma_be_limit_values, lemma_be_order,
    lemma_be_value_of_bytes, lemma_lex_concat, lex_lt, put_u32, put_u64, read_be,
};
use crate::errors::{QueryError, Result};
use crate::primitives::{Address, Hash32};
use crate::rlp::{
    decode_list, is_fixed, lemma_list_items, list_items, read_bytes20, read_bytes32, rlp_list,
    ListWriter,
};
use crate::types::traces::{selector_from_input, spec_selector};

verus! {

/// The transaction type an envelope carries.
#[derive(Debug, Clone, Copy, PartialEq, Eq, Structural)]
pub enum TxKind {
    Legacy,
    Eip2930,
    Eip1559,
    Eip4844,
    Eip7702,
}

/// What this crate reads from a decoded transaction.
#[derive(Debug, Clone, PartialEq, Eq)]
pub struct TxBody {
    /// Recipient; `None` creates a contract.
    pub to: Option<Address>,
    /// Calldata, or the init code of a creation.
    pub input: Vec<u8>,
}

/// A decoded transaction envelope with the hash it is known by.
#[derive(Debug, Clone, PartialEq, Eq)]
pub struct TxEnvelope {
    pub kind: TxKind,
    pub tx_hash: Hash32,
    pub body: TxBody,
}

impl View for TxBody {
    type V = (Option<Seq<u8>>, Seq<u8>);

    open spec fn view(&self) -> (Option<Seq<u8>>, Seq<u8>) {
        (
            match self.to {
                Some(to) => Some(to@),
                None => None,
            },
            self.input@,
        )
    }
}

/// What an optional decoded body stands for.
pub open spec fn body_view(body: Option<TxBody>) -> Option<(Option<Seq<u8>>, Seq<u8>)> {
    match body {
        Some(body) => Some(body@),
        None => None,
    }
}

/// What `TxEip2930::rlp_decode_with_signature` reads at the start of a buffer.
pub uninterp spec fn eip2930_body(buf: Seq<u8>) -> Option<(Option<Seq<u8>>, Seq<u8>)>;

/// What `TxEip1559::rlp_decode_with_signature` reads at the start of a buffer.
pub uninterp spec fn eip1559_body(buf: Seq<u8>) -> Option<(Option<Seq<u8>>, Seq<u8>)>;

/// What `TxEip4844Variant::rlp_decode_with_signature` reads at the start of a buffer.
pub uninterp spec fn eip4844_body(buf: Seq<u8>) -> Option<(Option<Seq<u8>>, Seq<u8>)>;

/// What `TxEip7702::rlp_decode_with_signature` reads at the start of a buffer.
pub uninterp spec fn eip7702_body(buf: Seq<u8>) -> Option<(Option<Seq<u8>>, Seq<u8>)>;

/// What `TxLegacy::rlp_decode_with_signature` reads at the start of a buffer.
pub uninterp spec fn legacy_body(buf: Seq<u8>) -> Option<(Option<Seq<u8>>, Seq<u8>)>;

/// What `TxEnvelope::decode_2718` reads at the start of a buffer.
pub uninterp spec fn envelope_2718_body(buf: Seq<u8>) -> Option<(Option<Seq<u8>>, Seq<u8>)>;

/// `alloy_consensus::TxEip2930::rlp_decode_with_signature`: recipient and
/// calldata of the transaction it reads, `None` where it fails. Bytes after the
/// transaction are ignored, as the call itself ignores them.
#[verifier::external_body]
fn decode_eip2930(buf: &[u8]) -> (body: Option<TxBody>)
    ensures
        body_view(body) == eip2930_body(buf@),
{
    let mut rest = buf;
    let (tx, _) = alloy_consensus::TxEip2930::rlp_decode_with_signature(&mut rest).ok()?;
    Some(TxBody { to: tx.to().map(|to| to.into_array()), input: tx.input().to_vec() })
}

/// `alloy_consensus::TxEip1559::rlp_decode_with_signature`: recipient and
/// calldata of the transaction it reads, `None` where it fails.
#[verifier::external_body]
fn decode_eip1559(buf: &[u8]) -> (body: Option<TxBody>)
    ensures
        body_view(body) == eip1559_body(buf@),
{
    let mut rest = buf;
    let (tx, _) = alloy_consensus::TxEip1559::rlp_decode_with_signature(&mut rest).ok()?;
    Some(TxBody { to: tx.to().map(|to| to.into_array()), input: tx.input().to_vec() })
}

/// `alloy_consensus::TxEip4844Variant::rlp_decode_with_signature`: recipient and
/// calldata of the transaction it reads, `None` where it fails.
#[verifier::external_body]
fn decode_eip4844(buf: &[u8]) -> (body: Option<TxBody>)
    ensures
        body_view(body) == eip4844_body(buf@),
{
    let mut rest = buf;
    let (tx, _) = <alloy_consensus::TxEip4844Variant>::rlp_decode_with_signature(&mut rest).ok()?;
    Some(TxBody { to: tx.to().map(|to| to.into_array()), input: tx.input().to_vec() })
}

/// `alloy_consensus::TxEip7702::rlp_decode_with_signature`: recipient and
/// calldata of the transaction it reads, `None` where it fails.
#[verifier::external_body]
fn decode_eip7702(buf: &[u8]) -> (body: Option<TxBody>)
    ensures
        body_view(body) == eip7702_body(buf@),
{
    let mut rest = buf;
    let (tx, _) = alloy_consensus::TxEip7702::rlp_decode_with_signature(&mut rest).ok()?;
    Some(TxBody { to: tx.to().map(|to| to.into_array()), input: tx.input().to_vec() })
}

/// `alloy_consensus::TxLegacy::rlp_decode_with_signature`: recipient and
/// calldata of the transaction it reads, `None` where it fails.
#[verifier::external_body]
fn decode_legacy(buf: &[u8]) -> (body: Option<TxBody>)
    ensures
        body_view(body) == legacy_body(buf@),
{
    let mut rest = buf;
    let (tx, _) = alloy_consensus::TxLegacy::rlp_decode_with_signature(&mut rest).ok()?;
    Some(TxBody { to: tx.to().map(|to| to.into_array()), input: tx.input().to_vec() })
}

/// `alloy_consensus::TxEnvelope::decode_2718`: recipient and calldata of the
/// transaction it reads, `None` where it fails.
#[verifier::external_body]
fn decode_2718(buf: &[u8]) -> (body: Option<TxBody>)
    ensures
        body_view(body) == envelope_2718_body(buf@),
{
    let mut rest = buf;
    let tx = alloy_consensus::TxEnvelope::decode_2718(&mut rest).ok()?;
    Some(TxBody { to: tx.to().map(|to| to.into_array()), input: tx.input().to_vec() })
}

/// Where a signed transaction's fields start and which type they have: the first
/// byte is a type prefix, except that legacy transactions start with a list
/// header.
pub open spec fn tx_framing(signed: Seq<u8>) -> Option<(TxKind, Seq<u8>)> {
    if signed.len() == 0 {
        None
    } else if signed[0] == 1 {
        Some((TxKind::Eip2930, signed.skip(1)))
    } else if signed[0] == 2 {
        Some((TxKind::Eip1559, signed.skip(1)))
    } else if signed[0] == 3 {
        Some((TxKind::Eip4844, signed.skip(1)))
    } else if signed[0] == 4 {
        Some((TxKind::Eip7702, signed.skip(1)))
    } else if signed[0] >= 0xc0 {
        Some((TxKind::Legacy, signed))
    } else {
        None
    }
}

/// What the decoder for a transaction type reads at the start of a buffer.
pub open spec fn body_of(kind: TxKind, buf: Seq<u8>) -> Option<(Option<Seq<u8>>, Seq<u8>)> {
    match kind {
        TxKind::Eip2930 => eip2930_body(buf),
        TxKind::Eip1559 => eip1559_body(buf),
        TxKind::Eip4844 => eip4844_body(buf),
        TxKind::Eip7702 => eip7702_body(buf),
        TxKind::Legacy => legacy_body(buf),
    }
}

/// The transaction type and field bytes of a signed transaction.
pub fn frame_signed_tx<'a>(signed: &'a [u8]) -> (framing: Option<(TxKind, &'a [u8])>)
    ensures
        match framing {
            Some((kind, buf)) => tx_framing(signed@) == Some((kind, buf@)),
            None => tx_framing(signed@) is None,
        },
{
    if signed.len() == 0 {
        return None;
    }
    let first: u8 = signed[0];
    if first >= 0xc0 {
        return Some((TxKind::Legacy, signed));
    }
    let fields = vstd::slice::slice_subrange(signed, 1, signed.len());
    assert(fields@ =~= signed@.skip(1));
    match first {
        1 => Some((TxKind::Eip2930, fields)),
        2 => Some((TxKind::Eip1559, fields)),
        3 => Some((TxKind::Eip4844, fields)),
        4 => Some((TxKind::Eip7702, fields)),
        _ => None,
    }
}

/// Decodes the fields of a transaction of the given type.
fn decode_body(kind: TxKind, buf: &[u8]) -> (body: Option<TxBody>)
    ensures
        body_view(body) == body_of(kind, buf@),
{
    match kind {
        TxKind::Eip2930 => decode_eip2930(buf),
        TxKind::Eip1559 => decode_eip1559(buf),
        TxKind::Eip4844 => decode_eip4844(buf),
        TxKind::Eip7702 => decode_eip7702(buf),
        TxKind::Legacy => decode_legacy(buf),
    }
}

/// An envelope made of a decoded body and the hash it is known by.
pub fn seal_envelope(
    framing: Option<TxKind>,
    body: Option<TxBody>,
    tx_hash: Hash32,
) -> (result: Result<TxEnvelope>)
    ensures
        match result {
            Ok(envelope) => {
                &&& framing == Some(envelope.kind)
                &&& body == Some(envelope.body)
                &&& envelope.tx_hash == tx_hash
            },
            Err(error) => {
                &&& framing is None || body is None
                &&& error == QueryError::Decode("invalid signed tx envelope")
            },
        },
{
    match (framing, body) {
        (Some(kind), Some(body)) => Ok(TxEnvelope { kind, tx_hash, body }),
        _ => Err(QueryError::Decode("invalid signed tx envelope")),
    }
}

/// Decodes a signed-tx envelope using a pre-validated hash instead of re-hashing.
/// Avoids expensive keccak computation on dense transaction pages.
pub fn decode_envelope_with_hash(signed_tx_bytes: &[u8], tx_hash: Hash32) -> (result: Result<
    TxEnvelope,
>)
    ensures
        match result {
            Ok(envelope) => {
                &&& tx_framing(signed_tx_bytes@) matches Some((kind, buf)) && envelope.kind == kind
                    && body_of(kind, buf) == Some(envelope.body@)
                &&& envelope.tx_hash == tx_hash
            },
            Err(error) => {
                &&& !(tx_framing(signed_tx_bytes@) matches Some((kind, buf)) && body_of(
                    kind,
                    buf,
                ) is Some)
                &&& error == QueryError::Decode("invalid signed tx envelope")
            },
        },
{
    match frame_signed_tx(signed_tx_bytes) {
        None => seal_envelope(None, None, tx_hash),
        Some((kind, buf)) => {
            let body = decode_body(kind, buf);
            seal_envelope(Some(kind), body, tx_hash)
        },
    }
}

/// Decodes recipient and calldata of a signed-tx envelope.
pub fn decode_envelope(signed_tx_bytes: &[u8]) -> (result: Result<TxBody>)
    ensures
        match result {
            Ok(body) => envelope_2718_body(signed_tx_bytes@) == Some(body@),
            Err(error) => {
                &&& envelope_2718_body(signed_tx_bytes@) is None
                &&& error == QueryError::Decode("invalid signed tx envelope")
            },
        },
{
    match decode_2718(signed_tx_bytes) {
        Some(body) => Ok(body),
        None => Err(QueryError::Decode("invalid signed tx envelope")),
    }
}

/// The function selector of a call: the first four bytes of its calldata.
/// Contract creations have none.
pub open spec fn body_selector(body: (Option<Seq<u8>>, Seq<u8>)) -> Option<Seq<u8>> {
    if body.0 is Some {
        spec_selector(body.1)
    } else {
        None
    }
}

/// Extracts 4-byte function selector from transaction envelope.
pub fn selector_from_envelope(body: &TxBody) -> (selector: Option<[u8; 4]>)
    ensures
        match selector {
            Some(selector) => body_selector(body@) == Some(selector@),
            None => body_selector(body@) is None,
        },
{
    if body.to.is_some() {
        selector_from_input(&body.input)
    } else {
        None
    }
}

/// Public, owned per-transaction view with pre-decoded envelope (hash pre-seeded from stored value).
#[derive(Debug, Clone, PartialEq, Eq)]
pub struct TxEntry {
    pub block_number: u64,
    pub block_hash: Hash32,
    pub tx_index: u32,
    pub tx_hash: Hash32,
    pub sender: Address,
    pub envelope: TxEnvelope,
}

impl TxEntry {
    /// Recipient address (None for contract creation).
    pub fn to(&self) -> (to: Option<Address>)
        ensures
            to == self.envelope.body.to,
    {
        self.envelope.body.to
    }

    /// Extracts 4-byte function selector from tx calldata.
    pub fn selector(&self) -> (selector: Option<[u8; 4]>)
        ensures
            match selector {
                Some(selector) => body_selector(self.envelope.body@) == Some(selector@),
                None => body_selector(self.envelope.body@) is None,
            },
    {
        selector_from_envelope(&self.envelope.body)
    }
}

/// Fixed 12-byte tx location (8-byte BE block_number + 4-byte BE tx_index).
#[derive(Debug, Clone, Copy, PartialEq, Eq, Structural)]
pub struct TxLocation {
    pub block_number: u64,
    pub tx_index: u32,
}

impl TxLocation {
    pub const ENCODED_LEN: usize = 12;

    /// Block number and tx index, both big-endian.
    pub open spec fn bytes(&self) -> Seq<u8> {
        be_bytes(self.block_number as nat, 8) + be_bytes(self.tx_index as nat, 4)
    }

    /// Encodes to 12 big-endian bytes.
    pub fn encode(&self) -> (encoded: [u8; 12])
        ensures
            encoded@ == self.bytes(),
    {
        let mut bytes: Vec<u8> = Vec::new();
        put_u64(&mut bytes, self.block_number);
        put_u32(&mut bytes, self.tx_index);
        proof {
            lemma_be_bytes_len(self.block_number as nat, 8);
            lemma_be_bytes_len(self.tx_index as nat, 4);
            assert(bytes@ =~= self.bytes());
        }
        let mut encoded: [u8; 12] = [0u8; 12];
        let mut i: usize = 0;
        while i < 12
            invariant
                i <= 12,
                bytes@.len() == 12,
                forall|j: int| 0 <= j < i ==> encoded@[j] == bytes@[j],
            decreases 12 - i,
        {
            encoded[i] = bytes[i];
            i = i + 1;
        }
        assert(encoded@ =~= bytes@);
        encoded
    }

    /// Decodes from 12 big-endian bytes.
    pub fn decode(bytes: &[u8]) -> (result: Result<TxLocation>)
        ensures
            match result {
                Ok(location) => bytes@.len() == 12 && location.bytes() == bytes@,
                Err(error) => {
                    &&& bytes@.len() != 12
                    &&& error == QueryError::Decode("invalid tx_location length")
                },
            },
    {
        if bytes.len() != Self::ENCODED_LEN {
            return Err(QueryError::Decode("invalid tx_location length"));
        }
        let (head, tail) = bytes.split_at(8);
        let block_number: u64 = read_be(head);
        proof {
            lemma_be_limit_values();
            lemma_be_bytes_of_value(head@);
            lemma_be_bytes_of_value(tail@);
        }
        let tx_index: u32 = read_be(tail) as u32;
        assert(bytes@ =~= head@ + tail@);
        Ok(TxLocation { block_number, tx_index })
    }
}

/// A location reads back from its own bytes, and from nobody else's.
pub proof fn law_location_bytes_unique(a: TxLocation, b: TxLocation)
    requires
        a.bytes() == b.bytes(),
    ensures
        a == b,
        a.bytes().len() == 12,
{
    lemma_be_limit_values();
    lemma_be_bytes_len(a.block_number as nat, 8);
    lemma_be_bytes_len(b.block_number as nat, 8);
    lemma_be_bytes_len(a.tx_index as nat, 4);
    lemma_be_value_of_bytes(a.block_number as nat, 8);
    lemma_be_value_of_bytes(b.block_number as nat, 8);
    lemma_be_value_of_bytes(a.tx_index as nat, 4);
    lemma_be_value_of_bytes(b.tx_index as nat, 4);
    assert(a.bytes().take(8) =~= be_bytes(a.block_number as nat, 8));
    assert(b.bytes().take(8) =~= be_bytes(b.block_number as nat, 8));
    assert(a.bytes().skip(8) =~= be_bytes(a.tx_index as nat, 4));
    assert(b.bytes().skip(8) =~= be_bytes(b.tx_index as nat, 4));
}

/// Byte order of locations is the order of blocks, then of positions in them.
pub proof fn law_location_bytes_sort(a: TxLocation, b: TxLocation)
    ensures
        lex_lt(a.bytes(), b.bytes()) <==> a.block_number < b.block_number || (a.block_number
            == b.block_number && a.tx_index < b.tx_index),
{
    let (p, q) = (be_bytes(a.block_number as nat, 8), be_bytes(b.block_number as nat, 8));
    let (x, y) = (be_bytes(a.tx_index as nat, 4), be_bytes(b.tx_index as nat, 4));
    lemma_be_limit_values();
    lemma_be_bytes_len(a.block_number as nat, 8);
    lemma_be_bytes_len(b.block_number as nat, 8);
    lemma_be_bytes_len(a.tx_index as nat, 4);
    lemma_be_bytes_len(b.tx_index as nat, 4);
    lemma_be_value_of_bytes(a.block_number as nat, 8);
    lemma_be_value_of_bytes(b.block_number as nat, 8);
    lemma_be_value_of_bytes(a.tx_index as nat, 4);
    lemma_be_value_of_bytes(b.tx_index as nat, 4);
    lemma_be_order(p, q);
    lemma_be_order(x, y);
    lemma_lex_concat(p, x, q, y);
}

/// Per-tx fields stored in block blob (block-level fields reconstructed at read time).
#[derive(Debug, Clone, PartialEq, Eq)]
pub struct StoredTxEnvelope {
    pub tx_hash: Hash32,
    pub sender: Address,
    pub signed_tx_bytes: Vec<u8>,
}

/// The fields a stored tx row must have: a hash, an address and a byte string.
pub open spec fn is_tx_row(items: Seq<(bool, Seq<u8>)>) -> bool {
    &&& items.len() == 3
    &&& is_fixed(items[0], 32)
    &&& is_fixed(items[1], 20)
    &&& !items[2].0
}

impl StoredTxEnvelope {
    /// The row's fields as RLP items.
    pub open spec fn items(&self) -> Seq<(bool, Seq<u8>)> {
        seq![(false, self.tx_hash@), (false, self.sender@), (false, self.signed_tx_bytes@)]
    }

    /// RLP-encodes this tx envelope.
    pub fn encode(&self) -> (bytes: Vec<u8>)
        ensures
            bytes@ == rlp_list(self.items()),
    {
        let mut row = ListWriter::new();
        row.string(self.tx_hash.as_slice());
        row.string(self.sender.as_slice());
        row.string(&self.signed_tx_bytes);
        assert(row.items() =~= self.items());
        row.finish()
    }

    /// RLP-decodes a tx envelope from bytes.
    pub fn decode(bytes: &[u8]) -> (result: Result<StoredTxEnvelope>)
        ensures
            match result {
                Ok(tx) => list_items(bytes@) == Some(tx.items()),
                Err(error) => {
                    &&& !(list_items(bytes@) matches Some(items) && is_tx_row(items))
                    &&& error == QueryError::Decode("invalid tx envelope rlp")
                },
            },
    {
        if let Some(items) = decode_list(bytes) {
            if items.len() == 3 && !items[2].list {
                if let (Some(tx_hash), Some(sender)) = (
                    read_bytes32(&items[0]),
                    read_bytes20(&items[1]),
                ) {
                    let signed_tx_bytes = vstd::slice::slice_to_vec(items[2].payload);
                    let tx = StoredTxEnvelope { tx_hash, sender, signed_tx_bytes };
                    assert(crate::rlp::item_views(items@) =~= tx.items());
                    return Ok(tx);
                }
            }
        }
        Err(QueryError::Decode("invalid tx envelope rlp"))
    }

    /// Expands this row with block metadata; the envelope keeps the stored hash.
    pub fn into_tx_entry(self, block_number: u64, block_hash: Hash32, tx_index: u32) -> (result:
        Result<TxEntry>)
        ensures
            match result {
                Ok(entry) => {
                    &&& entry.block_number == block_number
                    &&& entry.block_hash == block_hash
                    &&& entry.tx_index == tx_index
                    &&& entry.tx_hash == self.tx_hash
                    &&& entry.sender == self.sender
                    &&& entry.envelope.tx_hash == self.tx_hash
                    &&& tx_framing(self.signed_tx_bytes@) matches Some((kind, buf))
                        && entry.envelope.kind == kind && body_of(kind, buf) == Some(
                        entry.envelope.body@,
                    )
                },
                Err(error) => {
                    &&& !(tx_framing(self.signed_tx_bytes@) matches Some((kind, buf)) && body_of(
                        kind,
                        buf,
                    ) is Some)
                    &&& error == QueryError::Decode("invalid signed tx envelope")
                },
            },
    {
        match decode_envelope_with_hash(&self.signed_tx_bytes, self.tx_hash) {
            Err(error) => Err(error),
            Ok(envelope) => Ok(
                TxEntry {
                    block_number,
                    block_hash,
                    tx_index,
                    tx_hash: self.tx_hash,
                    sender: self.sender,
                    envelope,
                },
            ),
        }
    }
}

/// A row decodes back to the fields it was encoded from.
pub proof fn law_tx_round_trip(tx: StoredTxEnvelope, decoded: StoredTxEnvelope)
    requires
        rlp_list(tx.items()).len() <= u64::MAX,
        list_items(rlp_list(tx.items())) matches Some(items) ==> is_tx_row(items) ==> items
            == decoded.items(),
    ensures
        list_items(rlp_list(tx.items())) matches Some(items) && is_tx_row(items),
        decoded.tx_hash == tx.tx_hash,
        decoded.sender == tx.sender,
        decoded.signed_tx_bytes@ == tx.signed_tx_bytes@,
{
    lemma_list_items(tx.items());
    assert(tx.items()[0] == decoded.items()[0]);
    assert(tx.items()[1] == decoded.items()[1]);
    assert(tx.items()[2] == decoded.items()[2]);
    assert(decoded.tx_hash =~= tx.tx_hash);
    assert(decoded.sender =~= tx.sender);
}

} // verus!
