//! Canonical RLP items and lists of items.
//!
//! Headers are written and read by `alloy_rlp`; this module states what its
//! encoding is and builds row-level lists on top of it.

use vstd::prelude::*;

use alloy_rlp::Encodable;

use crate::be::{
    be_limit, be_value, lemma_be_bytes_of_value, lemma_be_limit_values, lemma_be_value_split,
    read_be,
};

verus! {

/// The shortest big-endian form of `value`: no leading zero byte, and no bytes
/// at all for zero.
pub open spec fn be_min(value: nat) -> Seq<u8>
    decreases value,
{
    if value == 0 {
        Seq::empty()
    } else {
        be_min(value / 256).push((value % 256) as u8)
    }
}

/// The header of an item whose payload has `len` bytes: one byte for payloads
/// under 56 bytes, else a byte giving the length of the length, then the length.
pub open spec fn rlp_header(list: bool, len: nat) -> Seq<u8> {
    if len < 56 {
        seq![((if list { 0xc0int } else { 0x80int }) + len) as u8]
    } else {
        seq![((if list { 0xf7int } else { 0xb7int }) + be_min(len).len()) as u8] + be_min(len)
    }
}

/// An encoded item: a byte below `0x80` stands for itself, everything else is
/// header and payload.
pub open spec fn rlp_item(list: bool, payload: Seq<u8>) -> Seq<u8> {
    if !list && payload.len() == 1 && payload[0] < 0x80 {
        payload
    } else {
        rlp_header(list, payload.len()) + payload
    }
}

/// The concatenated encodings of `(is_list, payload)` items.
pub open spec fn rlp_items(items: Seq<(bool, Seq<u8>)>) -> Seq<u8>
    decreases items.len(),
{
    if items.len() == 0 {
        Seq::empty()
    } else {
        rlp_item(items[0].0, items[0].1) + rlp_items(items.drop_first())
    }
}

/// A list of items as one item.
pub open spec fn rlp_list(items: Seq<(bool, Seq<u8>)>) -> Seq<u8> {
    rlp_item(true, rlp_items(items))
}

/// The items a payload is the concatenation of; `None` when it is not one.
pub open spec fn payload_items(payload: Seq<u8>) -> Option<Seq<(bool, Seq<u8>)>> {
    if exists|items: Seq<(bool, Seq<u8>)>| payload == #[trigger] rlp_items(items) {
        Some(choose|items: Seq<(bool, Seq<u8>)>| payload == #[trigger] rlp_items(items))
    } else {
        None
    }
}

/// The items of the single list that `bytes` is; `None` when it is not one.
pub open spec fn list_items(bytes: Seq<u8>) -> Option<Seq<(bool, Seq<u8>)>> {
    if exists|items: Seq<(bool, Seq<u8>)>| bytes == #[trigger] rlp_list(items) {
        Some(choose|items: Seq<(bool, Seq<u8>)>| bytes == #[trigger] rlp_list(items))
    } else {
        None
    }
}

/// An integer of at most `width` bytes, in its shortest form.
pub open spec fn is_uint(item: (bool, Seq<u8>), width: nat) -> bool {
    !item.0 && item.1.len() <= width && (item.1.len() > 0 ==> item.1[0] != 0)
}

/// A byte string of exactly `len` bytes.
pub open spec fn is_fixed(item: (bool, Seq<u8>), len: nat) -> bool {
    !item.0 && item.1.len() == len
}

/// The number an integer item stands for.
pub open spec fn uint_of(item: (bool, Seq<u8>)) -> nat {
    be_value(item.1)
}

/// The error of `alloy_rlp`; this crate only carries it.
#[verifier::external_type_specification]
#[verifier::external_body]
pub struct ExRlpError(alloy_rlp::Error);

/// `alloy_rlp::Header::decode`, applied to the start of `buf`, with the payload
/// it announces split off. It accepts exactly the buffers that start with a
/// canonical item, and reports that item's kind and payload.
#[verifier::external_body]
fn rlp_next<'a>(buf: &'a [u8]) -> (item: core::result::Result<(bool, &'a [u8], &'a [u8]), alloy_rlp::Error>)
    ensures
        match item {
            Ok((list, payload, rest)) => buf@ == rlp_item(list, payload@) + rest@,
            Err(_) => forall|list: bool, payload: Seq<u8>, rest: Seq<u8>|
                buf@ != #[trigger] (rlp_item(list, payload) + rest),
        },
{
    let mut rest = buf;
    let header = alloy_rlp::Header::decode(&mut rest)?;
    let (payload, rest) = rest.split_at(header.payload_length);
    Ok((header.list, payload, rest))
}

/// `alloy_rlp::Encodable::encode` for byte strings: appends the string's item.
#[verifier::external_body]
fn rlp_put_string(out: &mut Vec<u8>, payload: &[u8])
    ensures
        final(out)@ == old(out)@ + rlp_item(false, payload@),
{
    payload.encode(out);
}

/// `alloy_rlp::Header::encode` for a list header: appends the header of a list
/// whose payload has `payload_length` bytes.
#[verifier::external_body]
fn rlp_put_list_header(out: &mut Vec<u8>, payload_length: usize)
    ensures
        final(out)@ == old(out)@ + rlp_header(true, payload_length as nat),
{
    alloy_rlp::Header { list: true, payload_length }.encode(out);
}

/// One decoded item.
pub struct RlpItem<'a> {
    pub list: bool,
    pub payload: &'a [u8],
}

impl<'a> View for RlpItem<'a> {
    type V = (bool, Seq<u8>);

    open spec fn view(&self) -> (bool, Seq<u8>) {
        (self.list, self.payload@)
    }
}

/// What a vector of decoded items stands for.
pub open spec fn item_views(items: Seq<RlpItem>) -> Seq<(bool, Seq<u8>)> {
    Seq::new(items.len(), |i: int| items[i]@)
}

pub proof fn lemma_be_min(value: nat)
    ensures
        be_value(be_min(value)) == value,
        be_min(value).len() > 0 ==> be_min(value)[0] != 0,
        value > 0 ==> be_min(value).len() > 0,
    decreases value,
{
    if value > 0 {
        lemma_be_min(value / 256);
        assert(be_min(value).drop_last() =~= be_min(value / 256));
        if value / 256 == 0 {
            assert(be_min(value)[0] == value as u8);
        }
    }
}

/// A value below `256^width` needs at most `width` bytes.
pub proof fn lemma_be_min_len(value: nat, width: nat)
    requires
        value < be_limit(width),
    ensures
        be_min(value).len() <= width,
    decreases width,
{
    if value > 0 && width > 0 {
        lemma_be_min_len(value / 256, (width - 1) as nat);
    }
}

/// Byte strings without a leading zero are the shortest form of their value.
pub proof fn lemma_be_min_of_value(s: Seq<u8>)
    requires
        s.len() > 0 ==> s[0] != 0,
    ensures
        be_min(be_value(s)) == s,
        s.len() > 0 ==> be_value(s) > 0,
    decreases s.len(),
{
    if s.len() > 0 {
        lemma_be_min_of_value(s.drop_last());
        assert(be_value(s) / 256 == be_value(s.drop_last()));
        assert(be_value(s) % 256 == s.last() as nat);
        if s.len() == 1 {
            reveal_with_fuel(be_value, 2);
            assert(s.drop_last() =~= Seq::<u8>::empty());
        }
        assert(s =~= s.drop_last().push(s.last()));
    }
}

/// Kind, header length and payload length of the item `s` starts with.
spec fn read_item(s: Seq<u8>) -> (bool, int, int) {
    let b = s[0] as int;
    if b < 0x80 {
        (false, 0, 1)
    } else if b < 0xb8 {
        (false, 1, b - 0x80)
    } else if b < 0xc0 {
        (false, 1 + (b - 0xb7), be_value(s.subrange(1, 1 + (b - 0xb7))) as int)
    } else if b < 0xf8 {
        (true, 1, b - 0xc0)
    } else {
        (true, 1 + (b - 0xf7), be_value(s.subrange(1, 1 + (b - 0xf7))) as int)
    }
}

proof fn lemma_header_len(list: bool, len: nat)
    requires
        len <= u64::MAX,
    ensures
        1 <= rlp_header(list, len).len() <= 9,
        len >= 56 ==> 1 <= be_min(len).len() <= 8,
{
    reveal_with_fuel(be_limit, 9);
    lemma_be_min_len(len, 8);
    lemma_be_min(len);
}

proof fn lemma_read_item(list: bool, payload: Seq<u8>, rest: Seq<u8>)
    requires
        payload.len() <= u64::MAX,
    ensures
        read_item(rlp_item(list, payload) + rest) == (
            list,
            rlp_item(list, payload).len() - payload.len(),
            payload.len() as int,
        ),
{
    let s = rlp_item(list, payload) + rest;
    lemma_header_len(list, payload.len());
    if !list && payload.len() == 1 && payload[0] < 0x80 {
        assert(s[0] == payload[0]);
    } else if payload.len() < 56 {
        assert(s[0] == rlp_header(list, payload.len())[0]);
    } else {
        let len = be_min(payload.len());
        lemma_be_min(payload.len());
        assert(s[0] == rlp_header(list, payload.len())[0]);
        assert(s.subrange(1, 1 + len.len() as int) =~= len);
    }
}

/// No item is a proper prefix of another: a byte string splits into a leading
/// item and a rest in at most one way.
pub proof fn lemma_item_unique(
    l1: bool,
    p1: Seq<u8>,
    r1: Seq<u8>,
    l2: bool,
    p2: Seq<u8>,
    r2: Seq<u8>,
)
    requires
        rlp_item(l1, p1) + r1 == rlp_item(l2, p2) + r2,
        p1.len() <= u64::MAX,
        p2.len() <= u64::MAX,
    ensures
        l1 == l2,
        p1 == p2,
        r1 == r2,
{
    let s = rlp_item(l1, p1) + r1;
    lemma_read_item(l1, p1, r1);
    lemma_read_item(l2, p2, r2);
    let n = rlp_item(l1, p1).len() as int;
    assert(p1 =~= s.subrange(n - p1.len(), n));
    assert(p2 =~= s.subrange(n - p1.len(), n));
    assert(r1 =~= s.skip(n));
    assert(r2 =~= s.skip(n));
}

/// A list's payload splits into items in at most one way.
pub proof fn lemma_items_unique(a: Seq<(bool, Seq<u8>)>, b: Seq<(bool, Seq<u8>)>)
    requires
        rlp_items(a) == rlp_items(b),
        rlp_items(a).len() <= u64::MAX,
    ensures
        a == b,
    decreases a.len(),
{
    if a.len() == 0 || b.len() == 0 {
        if a.len() > 0 {
            lemma_item_nonempty(a[0].0, a[0].1);
        }
        if b.len() > 0 {
            lemma_item_nonempty(b[0].0, b[0].1);
        }
        assert(a =~= b);
    } else {
        lemma_item_nonempty(a[0].0, a[0].1);
        lemma_item_nonempty(b[0].0, b[0].1);
        lemma_item_unique(
            a[0].0,
            a[0].1,
            rlp_items(a.drop_first()),
            b[0].0,
            b[0].1,
            rlp_items(b.drop_first()),
        );
        lemma_items_unique(a.drop_first(), b.drop_first());
        assert(a =~= seq![a[0]] + a.drop_first());
        assert(b =~= seq![b[0]] + b.drop_first());
    }
}

proof fn lemma_item_nonempty(list: bool, payload: Seq<u8>)
    ensures
        rlp_item(list, payload).len() >= 1,
        rlp_item(list, payload).len() >= payload.len(),
{
}

pub proof fn lemma_items_push(items: Seq<(bool, Seq<u8>)>, item: (bool, Seq<u8>))
    ensures
        rlp_items(items.push(item)) == rlp_items(items) + rlp_item(item.0, item.1),
    decreases items.len(),
{
    if items.len() == 0 {
        reveal_with_fuel(rlp_items, 2);
        assert(items.push(item).drop_first() =~= Seq::empty());
    } else {
        lemma_items_push(items.drop_first(), item);
        assert(items.push(item).drop_first() =~= items.drop_first().push(item));
        assert(items.push(item)[0] == items[0]);
    }
    assert(rlp_items(items.push(item)) =~= rlp_items(items) + rlp_item(item.0, item.1));
}

/// Splits a list's payload into its items; `None` when it is not a sequence of
/// canonical items.
pub fn split_items<'a>(payload: &'a [u8]) -> (items: Option<Vec<RlpItem<'a>>>)
    ensures
        match items {
            Some(items) => payload_items(payload@) == Some(item_views(items@)),
            None => payload_items(payload@) is None,
        },
{
    let mut items: Vec<RlpItem<'a>> = Vec::new();
    let mut rest: &'a [u8] = payload;
    assert(payload.len() <= usize::MAX);
    assert(item_views(items@) =~= Seq::empty());
    assert(payload@ =~= rlp_items(item_views(items@)) + rest@);
    while rest.len() > 0
        invariant
            payload@ == rlp_items(item_views(items@)) + rest@,
            payload@.len() <= usize::MAX,
        decreases rest@.len(),
    {
        match rlp_next(rest) {
            Err(_) => {
                proof {
                    assert forall|other: Seq<(bool, Seq<u8>)>| payload@ != #[trigger] rlp_items(
                        other,
                    ) by {
                        if payload@ == rlp_items(other) {
                            lemma_items_continue(item_views(items@), rest@, other);
                        }
                    }
                }
                return None;
            },
            Ok((list, item, tail)) => {
                let ghost before = item_views(items@);
                proof {
                    lemma_items_push(before, (list, item@));
                    lemma_item_nonempty(list, item@);
                    assert(rest@ == rlp_item(list, item@) + tail@);
                }
                items.push(RlpItem { list, payload: item });
                assert(item_views(items@) =~= before.push((list, item@)));
                assert(payload@ =~= rlp_items(item_views(items@)) + tail@);
                rest = tail;
            },
        }
    }
    assert(payload@ =~= rlp_items(item_views(items@)));
    proof {
        lemma_payload_items(item_views(items@));
    }
    Some(items)
}

/// If a payload is some items followed by `rest`, and also splits into `other`,
/// then a non-empty `rest` starts with an item.
proof fn lemma_items_continue(
    done: Seq<(bool, Seq<u8>)>,
    rest: Seq<u8>,
    other: Seq<(bool, Seq<u8>)>,
)
    requires
        rlp_items(done) + rest == rlp_items(other),
        rlp_items(other).len() <= u64::MAX,
        rest.len() > 0,
    ensures
        exists|list: bool, payload: Seq<u8>, tail: Seq<u8>|
            rest == #[trigger] (rlp_item(list, payload) + tail),
    decreases done.len(),
{
    if other.len() == 0 {
        assert((rlp_items(done) + rest).len() > 0);
    } else if done.len() == 0 {
        assert(rest =~= rlp_item(other[0].0, other[0].1) + rlp_items(other.drop_first()));
    } else {
        lemma_item_nonempty(done[0].0, done[0].1);
        lemma_item_nonempty(other[0].0, other[0].1);
        assert(rlp_items(done) + rest =~= rlp_item(done[0].0, done[0].1) + (rlp_items(
            done.drop_first(),
        ) + rest));
        lemma_item_unique(
            done[0].0,
            done[0].1,
            rlp_items(done.drop_first()) + rest,
            other[0].0,
            other[0].1,
            rlp_items(other.drop_first()),
        );
        lemma_items_continue(done.drop_first(), rest, other.drop_first());
    }
}

/// Splits `bytes` into the items of the single list it must consist of; `None`
/// for anything else, trailing bytes included.
pub fn decode_list<'a>(bytes: &'a [u8]) -> (items: Option<Vec<RlpItem<'a>>>)
    ensures
        match items {
            Some(items) => list_items(bytes@) == Some(item_views(items@)),
            None => list_items(bytes@) is None,
        },
{
    assert(bytes.len() <= usize::MAX);
    proof {
        // Whatever list the bytes are, its payload is no longer than them.
        assert forall|items: Seq<(bool, Seq<u8>)>| bytes@ == #[trigger] rlp_list(items) implies
            bytes@ == rlp_item(true, rlp_items(items)) + Seq::<u8>::empty() && rlp_items(items).len()
            <= bytes@.len() by {
            lemma_item_nonempty(true, rlp_items(items));
            assert(bytes@ =~= rlp_item(true, rlp_items(items)) + Seq::<u8>::empty());
        }
    }
    match rlp_next(bytes) {
        Err(_) => None,
        Ok((list, payload, rest)) => {
            proof {
                lemma_item_nonempty(list, payload@);
                assert forall|items: Seq<(bool, Seq<u8>)>|
                    bytes@ == #[trigger] rlp_list(items) implies list && rest@.len() == 0
                    && payload@ == rlp_items(items) by {
                    lemma_item_unique(
                        list,
                        payload@,
                        rest@,
                        true,
                        rlp_items(items),
                        Seq::<u8>::empty(),
                    );
                }
            }
            if !list || rest.len() > 0 {
                return None;
            }
            assert(rlp_item(list, payload@) + rest@ =~= rlp_item(list, payload@));
            let items = split_items(payload);
            proof {
                if items is Some {
                    lemma_payload_items_exist(payload@);
                    lemma_list_items(item_views(items->0@));
                } else if exists|items: Seq<(bool, Seq<u8>)>| bytes@ == #[trigger] rlp_list(items) {
                    let items = choose|items: Seq<(bool, Seq<u8>)>|
                        bytes@ == #[trigger] rlp_list(items);
                    assert(payload@ == rlp_items(items));
                }
            }
            items
        },
    }
}

/// Lists that encode alike are alike.
pub proof fn lemma_list_unique(a: Seq<(bool, Seq<u8>)>, b: Seq<(bool, Seq<u8>)>)
    requires
        rlp_list(a) == rlp_list(b),
        rlp_list(a).len() <= u64::MAX,
    ensures
        a == b,
{
    lemma_item_nonempty(true, rlp_items(a));
    lemma_item_nonempty(true, rlp_items(b));
    assert(rlp_list(a) + Seq::<u8>::empty() =~= rlp_list(b) + Seq::<u8>::empty());
    lemma_item_unique(
        true,
        rlp_items(a),
        Seq::<u8>::empty(),
        true,
        rlp_items(b),
        Seq::<u8>::empty(),
    );
    lemma_items_unique(a, b);
}

proof fn lemma_payload_items_exist(payload: Seq<u8>)
    ensures
        payload_items(payload) matches Some(items) ==> payload == rlp_items(items),
{
}

/// Reading back a written payload gives the items.
pub proof fn lemma_payload_items(items: Seq<(bool, Seq<u8>)>)
    requires
        rlp_items(items).len() <= u64::MAX,
    ensures
        payload_items(rlp_items(items)) == Some(items),
{
    let payload = rlp_items(items);
    let got = choose|other: Seq<(bool, Seq<u8>)>| payload == #[trigger] rlp_items(other);
    lemma_items_unique(items, got);
}

/// Reading back a written list gives the items.
pub proof fn lemma_list_items(items: Seq<(bool, Seq<u8>)>)
    requires
        rlp_list(items).len() <= u64::MAX,
    ensures
        list_items(rlp_list(items)) == Some(items),
{
    let bytes = rlp_list(items);
    let got = choose|other: Seq<(bool, Seq<u8>)>| bytes == #[trigger] rlp_list(other);
    lemma_list_unique(items, got);
}

/// The shortest form of a value that fits is an integer item of that value.
pub proof fn lemma_uint_item(value: nat, width: nat)
    requires
        value < be_limit(width),
    ensures
        is_uint((false, be_min(value)), width),
        uint_of((false, be_min(value))) == value,
{
    lemma_be_min(value);
    lemma_be_min_len(value, width);
}

/// An item of a list is no longer than the list.
pub proof fn lemma_list_bounds(items: Seq<(bool, Seq<u8>)>, i: int)
    requires
        0 <= i < items.len(),
    ensures
        items[i].1.len() <= rlp_items(items).len() <= rlp_list(items).len(),
    decreases items.len(),
{
    lemma_item_nonempty(items[0].0, items[0].1);
    lemma_item_nonempty(true, rlp_items(items));
    if i > 0 {
        lemma_list_bounds(items.drop_first(), i - 1);
    }
}

/// Builds a list item by item.
pub struct ListWriter {
    payload: Vec<u8>,
    items: Ghost<Seq<(bool, Seq<u8>)>>,
}

impl ListWriter {
    /// The items written so far.
    pub closed spec fn items(&self) -> Seq<(bool, Seq<u8>)> {
        self.items@
    }

    pub closed spec fn wf(&self) -> bool {
        self.payload@ == rlp_items(self.items@)
    }

    pub fn new() -> (writer: ListWriter)
        ensures
            writer.wf(),
            writer.items() == Seq::<(bool, Seq<u8>)>::empty(),
    {
        let writer = ListWriter { payload: Vec::new(), items: Ghost(Seq::empty()) };
        assert(writer.payload@ =~= rlp_items(writer.items@));
        writer
    }

    /// Appends a byte string.
    pub fn string(&mut self, payload: &[u8])
        requires
            old(self).wf(),
        ensures
            final(self).wf(),
            final(self).items() == old(self).items().push((false, payload@)),
    {
        proof {
            lemma_items_push(self.items@, (false, payload@));
        }
        rlp_put_string(&mut self.payload, payload);
        self.items = Ghost(self.items@.push((false, payload@)));
    }

    /// Appends an integer as its shortest big-endian form.
    pub fn uint(&mut self, value: u64)
        requires
            old(self).wf(),
        ensures
            final(self).wf(),
            final(self).items() == old(self).items().push((false, be_min(value as nat))),
    {
        let bytes = min_be_bytes(value);
        self.string(&bytes);
    }

    /// Appends a 256-bit integer given as 32 big-endian bytes.
    pub fn uint256(&mut self, value: &[u8; 32])
        requires
            old(self).wf(),
        ensures
            final(self).wf(),
            final(self).items() == old(self).items().push((false, be_min(be_value(value@)))),
    {
        let mut start: usize = 0;
        assert(value@.skip(0) =~= value@);
        while start < 32 && value[start] == 0
            invariant
                start <= 32,
                be_value(value@.skip(start as int)) == be_value(value@),
            decreases 32 - start,
        {
            proof {
                lemma_be_value_split(value@.skip(start as int));
                assert(value@.skip(start as int).drop_first() =~= value@.skip(start + 1));
                assert(0 * be_limit((32 - start - 1) as nat) == 0) by (nonlinear_arith);
            }
            start = start + 1;
        }
        let slice: &[u8] = value.as_slice();
        let trimmed = vstd::slice::slice_subrange(slice, start, 32);
        proof {
            assert(trimmed@ =~= value@.skip(start as int));
            lemma_be_min_of_value(trimmed@);
        }
        self.string(trimmed);
    }

    /// Appends a nested list.
    pub fn list(&mut self, inner: &ListWriter)
        requires
            old(self).wf(),
            inner.wf(),
        ensures
            final(self).wf(),
            final(self).items() == old(self).items().push((true, rlp_items(inner.items()))),
    {
        proof {
            lemma_items_push(self.items@, (true, inner.payload@));
        }
        let ghost before = self.payload@;
        rlp_put_list_header(&mut self.payload, inner.payload.len());
        append_bytes(&mut self.payload, &inner.payload);
        assert(self.payload@ =~= before + rlp_item(true, inner.payload@));
        self.items = Ghost(self.items@.push((true, inner.payload@)));
    }

    /// The finished list.
    pub fn finish(self) -> (bytes: Vec<u8>)
        requires
            self.wf(),
        ensures
            bytes@ == rlp_list(self.items()),
    {
        let mut out: Vec<u8> = Vec::new();
        rlp_put_list_header(&mut out, self.payload.len());
        append_bytes(&mut out, &self.payload);
        assert(out@ =~= rlp_list(self.items@));
        out
    }
}

/// Appends every byte of `bytes`.
pub fn append_bytes(out: &mut Vec<u8>, bytes: &[u8])
    ensures
        final(out)@ == old(out)@ + bytes@,
{
    let mut i: usize = 0;
    assert(out@ =~= old(out)@ + bytes@.take(0));
    while i < bytes.len()
        invariant
            i <= bytes@.len(),
            out@ == old(out)@ + bytes@.take(i as int),
        decreases bytes@.len() - i,
    {
        out.push(bytes[i]);
        i = i + 1;
        assert(out@ =~= old(out)@ + bytes@.take(i as int));
    }
    assert(bytes@.take(i as int) =~= bytes@);
}

/// The shortest big-endian form of `value`.
pub fn min_be_bytes(value: u64) -> (bytes: Vec<u8>)
    ensures
        bytes@ == be_min(value as nat),
    decreases value,
{
    if value == 0 {
        let bytes: Vec<u8> = Vec::new();
        assert(bytes@ =~= be_min(0));
        bytes
    } else {
        let mut bytes = min_be_bytes(value / 256);
        bytes.push((value % 256) as u8);
        bytes
    }
}

/// Reads an integer item of at most `width` bytes; `None` for lists, leading
/// zeros and longer payloads.
pub fn read_uint(item: &RlpItem, width: usize) -> (value: Option<u64>)
    requires
        width <= 8,
    ensures
        match value {
            Some(value) => is_uint(item@, width as nat) && value as nat == uint_of(item@) && value
                < be_limit(width as nat),
            None => !is_uint(item@, width as nat),
        },
{
    if item.list || item.payload.len() > width {
        return None;
    }
    if item.payload.len() > 0 && item.payload[0] == 0 {
        return None;
    }
    let value: u64 = read_be(item.payload);
    proof {
        lemma_be_bytes_of_value(item.payload@);
        lemma_be_limit_monotonic(item.payload@.len(), width as nat);
    }
    Some(value)
}

/// Reads an integer item of at most four bytes.
pub fn read_u32(item: &RlpItem) -> (value: Option<u32>)
    ensures
        match value {
            Some(value) => is_uint(item@, 4) && value as nat == uint_of(item@),
            None => !is_uint(item@, 4),
        },
{
    proof {
        lemma_be_limit_values();
    }
    match read_uint(item, 4) {
        Some(value) => Some(value as u32),
        None => None,
    }
}

/// Reads an integer item of at most one byte.
pub fn read_u8(item: &RlpItem) -> (value: Option<u8>)
    ensures
        match value {
            Some(value) => is_uint(item@, 1) && value as nat == uint_of(item@),
            None => !is_uint(item@, 1),
        },
{
    proof {
        lemma_be_limit_values();
    }
    match read_uint(item, 1) {
        Some(value) => Some(value as u8),
        None => None,
    }
}

proof fn lemma_be_limit_monotonic(a: nat, b: nat)
    requires
        a <= b,
    ensures
        be_limit(a) <= be_limit(b),
        be_limit(a) >= 1,
    decreases b,
{
    if a < b {
        lemma_be_limit_monotonic(a, (b - 1) as nat);
    } else if a > 0 {
        lemma_be_limit_monotonic((a - 1) as nat, (a - 1) as nat);
    }
}

/// Reads a 256-bit integer item into 32 big-endian bytes.
pub fn read_uint256(item: &RlpItem) -> (value: Option<[u8; 32]>)
    ensures
        match value {
            Some(value) => is_uint(item@, 32) && be_value(value@) == uint_of(item@),
            None => !is_uint(item@, 32),
        },
{
    if item.list || item.payload.len() > 32 {
        return None;
    }
    if item.payload.len() > 0 && item.payload[0] == 0 {
        return None;
    }
    let pad: usize = 32 - item.payload.len();
    let mut value: [u8; 32] = [0u8; 32];
    let mut i: usize = 0;
    while i < item.payload.len()
        invariant
            i <= item.payload@.len() <= 32,
            pad == 32 - item.payload@.len(),
            forall|j: int| 0 <= j < pad ==> value@[j] == 0,
            forall|j: int| 0 <= j < i ==> value@[pad + j] == item.payload@[j],
        decreases item.payload@.len() - i,
    {
        value[pad + i] = item.payload[i];
        i = i + 1;
    }
    proof {
        lemma_leading_zeros(value@, pad as int);
        assert(value@.skip(pad as int) =~= item.payload@);
    }
    Some(value)
}

/// Leading zero bytes do not change a number.
proof fn lemma_leading_zeros(s: Seq<u8>, n: int)
    requires
        0 <= n <= s.len(),
        forall|j: int| 0 <= j < n ==> s[j] == 0,
    ensures
        be_value(s.skip(n)) == be_value(s),
    decreases n,
{
    if n == 0 {
        assert(s.skip(0) =~= s);
    } else {
        lemma_leading_zeros(s, n - 1);
        lemma_be_value_split(s.skip(n - 1));
        assert(s.skip(n - 1).drop_first() =~= s.skip(n));
        assert(0 * be_limit((s.len() - n) as nat) == 0) by (nonlinear_arith);
    }
}

/// Reads a 20-byte string item.
pub fn read_bytes20(item: &RlpItem) -> (value: Option<[u8; 20]>)
    ensures
        match value {
            Some(value) => is_fixed(item@, 20) && value@ == item@.1,
            None => !is_fixed(item@, 20),
        },
{
    if item.list || item.payload.len() != 20 {
        return None;
    }
    Some(array20(item.payload))
}

/// Reads a 32-byte string item.
pub fn read_bytes32(item: &RlpItem) -> (value: Option<[u8; 32]>)
    ensures
        match value {
            Some(value) => is_fixed(item@, 32) && value@ == item@.1,
            None => !is_fixed(item@, 32),
        },
{
    if item.list || item.payload.len() != 32 {
        return None;
    }
    Some(array32(item.payload))
}

/// Copies a slice of 20 bytes into an array.
pub fn array20(bytes: &[u8]) -> (value: [u8; 20])
    requires
        bytes@.len() == 20,
    ensures
        value@ == bytes@,
{
    let mut value: [u8; 20] = [0u8; 20];
    let mut i: usize = 0;
    while i < 20
        invariant
            i <= 20,
            bytes@.len() == 20,
            forall|j: int| 0 <= j < i ==> value@[j] == bytes@[j],
        decreases 20 - i,
    {
        value[i] = bytes[i];
        i = i + 1;
    }
    assert(value@ =~= bytes@);
    value
}

/// Copies a slice of 32 bytes into an array.
pub fn array32(bytes: &[u8]) -> (value: [u8; 32])
    requires
        bytes@.len() == 32,
    ensures
        value@ == bytes@,
{
    let mut value: [u8; 32] = [0u8; 32];
    let mut i: usize = 0;
    while i < 32
        invariant
            i <= 32,
            bytes@.len() == 32,
            forall|j: int| 0 <= j < i ==> value@[j] == bytes@[j],
        decreases 32 - i,
    {
        value[i] = bytes[i];
        i = i + 1;
    }
    assert(value@ =~= bytes@);
    value
}

} // verus!
