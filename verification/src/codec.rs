//! The field types of Stratum V2 messages and their binary encoding:
//! little-endian integers, byte strings behind a one- or two-byte length
//! (`B0255`, `B064K`), a counted list of six-byte short transaction ids, and
//! fixed 32-byte numbers (`U256`).
//!
//! Each encoding has a spec writer (`enc_*`) and a spec reader (`parse_*`)
//! that returns the value and the bytes after it; the readers fail only when
//! the input runs out.
use crate::byte_order::{
    byte_bound, le_bytes, le_value, lemma_byte_bound_values, lemma_le_bytes_len, lemma_le_bytes_of_le_value,
    lemma_le_value_bound, lemma_le_value_of_le_bytes, push_le, read_le,
};
use crate::error::Error;
use vstd::prelude::*;

verus! {

broadcast use vstd::seq_lib::group_seq_properties;

// ---------------------------------------------------------------- spec side

/// The first `n` bytes of `s` and what follows them.
pub open spec fn parse_fixed(s: Seq<u8>, n: nat) -> Option<(Seq<u8>, Seq<u8>)> {
    if n <= s.len() {
        Some((s.take(n as int), s.skip(n as int)))
    } else {
        None
    }
}

/// An `n`-byte little-endian integer and what follows it.
pub open spec fn parse_uint(s: Seq<u8>, n: nat) -> Option<(nat, Seq<u8>)> {
    match parse_fixed(s, n) {
        Some((b, rest)) => Some((le_value(b), rest)),
        None => None,
    }
}

/// A byte string behind a length of `w` bytes.
pub open spec fn parse_prefixed(s: Seq<u8>, w: nat) -> Option<(Seq<u8>, Seq<u8>)> {
    match parse_uint(s, w) {
        Some((len, rest)) => parse_fixed(rest, len),
        None => None,
    }
}

/// A byte string behind a length of `w` bytes.
pub open spec fn enc_prefixed(b: Seq<u8>, w: nat) -> Seq<u8> {
    le_bytes(b.len(), w) + b
}

/// The bytes of a `B0255` field.
pub open spec fn enc_b0255(b: Seq<u8>) -> Seq<u8> {
    enc_prefixed(b, 1)
}

/// The bytes of a `B064K` field.
pub open spec fn enc_b064k(b: Seq<u8>) -> Seq<u8> {
    enc_prefixed(b, 2)
}

/// The six-byte chunks of `s` (the first `n` of them).
pub open spec fn chunks6(s: Seq<u8>, n: nat) -> Seq<Seq<u8>> {
    Seq::new(n, |i: int| s.subrange(6 * i, 6 * i + 6))
}

/// Every item of `ids` is six bytes long.
pub open spec fn all_six(ids: Seq<Seq<u8>>) -> bool {
    forall|i: int| 0 <= i < ids.len() ==> (#[trigger] ids[i]).len() == 6
}

/// The bytes of a list of short transaction ids: a two-byte count, then the
/// ids one after the other.
pub open spec fn enc_ids(ids: Seq<Seq<u8>>) -> Seq<u8> {
    le_bytes(ids.len(), 2) + ids.flatten()
}

/// A list of short transaction ids and what follows it.
pub open spec fn parse_ids(s: Seq<u8>) -> Option<(Seq<Seq<u8>>, Seq<u8>)> {
    match parse_uint(s, 2) {
        Some((n, rest)) => if 6 * n <= rest.len() {
            Some((chunks6(rest, n), rest.skip(6 * n as int)))
        } else {
            None
        },
        None => None,
    }
}

// ------------------------------------------------------------------- lemmas

pub proof fn lemma_assoc(a: Seq<u8>, b: Seq<u8>, c: Seq<u8>)
    ensures
        (a + b) + c == a + (b + c),
{
    assert((a + b) + c =~= a + (b + c));
}

/// Where a piece stands in a byte string: if the bytes from `o` on are `a`
/// then `rest`, then `a` is at `o..o + a.len()` and `rest` after it.
pub proof fn lemma_at(s: Seq<u8>, o: int, a: Seq<u8>, rest: Seq<u8>)
    requires
        0 <= o <= s.len(),
        s.skip(o) == a + rest,
    ensures
        o + a.len() <= s.len(),
        s.subrange(o, o + a.len()) == a,
        s.skip(o + a.len()) == rest,
{
    assert(s.skip(o).len() == a.len() + rest.len());
    assert(s.subrange(o, o + a.len()) =~= s.skip(o).take(a.len() as int));
    assert(s.skip(o).take(a.len() as int) =~= a);
    assert(s.skip(o + a.len()) =~= s.skip(o).skip(a.len() as int));
    assert(s.skip(o).skip(a.len() as int) =~= rest);
}

/// An encoded integer of `w` bytes at `o` reads, little-endian, as the
/// integer.
pub proof fn lemma_uint_at(s: Seq<u8>, o: int, x: nat, w: nat, rest: Seq<u8>)
    requires
        0 <= o <= s.len(),
        x < byte_bound(w),
        s.skip(o) == le_bytes(x, w) + rest,
    ensures
        o + w <= s.len(),
        le_value(s.subrange(o, o + w)) == x,
        s.skip(o + w) == rest,
{
    lemma_le_bytes_len(x, w);
    lemma_at(s, o, le_bytes(x, w), rest);
    lemma_le_value_of_le_bytes(x, w);
}

/// A length-prefixed byte string at `o`: its length, read little-endian from
/// the `w` bytes at `o`, then the string itself, in order.
pub proof fn lemma_prefixed_at(s: Seq<u8>, o: int, b: Seq<u8>, w: nat, rest: Seq<u8>)
    requires
        0 <= o <= s.len(),
        b.len() < byte_bound(w),
        s.skip(o) == enc_prefixed(b, w) + rest,
    ensures
        o + w + b.len() <= s.len(),
        le_value(s.subrange(o, o + w)) == b.len(),
        s.subrange(o + w, o + w + b.len()) == b,
        s.skip(o + w + b.len()) == rest,
{
    lemma_assoc(le_bytes(b.len(), w), b, rest);
    lemma_uint_at(s, o, b.len(), w, b + rest);
    lemma_at(s, o + w, b, rest);
}

/// A list of short transaction ids at `o`: the count, read little-endian from
/// the two bytes at `o`, then id `i` at `o + 2 + 6 i`, for every `i`.
pub proof fn lemma_ids_at(s: Seq<u8>, o: int, ids: Seq<Seq<u8>>, rest: Seq<u8>)
    requires
        0 <= o <= s.len(),
        all_six(ids),
        ids.len() < byte_bound(2),
        s.skip(o) == enc_ids(ids) + rest,
    ensures
        o + 2 + 6 * ids.len() <= s.len(),
        le_value(s.subrange(o, o + 2)) == ids.len(),
        forall|i: int|
            0 <= i < ids.len() ==> #[trigger] s.subrange(o + 2 + 6 * i, o + 2 + 6 * i + 6)
                == ids[i],
        s.skip(o + 2 + 6 * ids.len()) == rest,
{
    let f = ids.flatten();
    lemma_flatten_six(ids);
    lemma_assoc(le_bytes(ids.len(), 2), f, rest);
    lemma_uint_at(s, o, ids.len(), 2, f + rest);
    lemma_at(s, o + 2, f, rest);
    assert forall|i: int| 0 <= i < ids.len() implies #[trigger] s.subrange(
        o + 2 + 6 * i,
        o + 2 + 6 * i + 6,
    ) == ids[i] by {
        assert(f.subrange(6 * i, 6 * i + 6) == ids[i]);
        assert(s.subrange(o + 2 + 6 * i, o + 2 + 6 * i + 6) =~= s.subrange(
            o + 2,
            o + 2 + f.len(),
        ).subrange(6 * i, 6 * i + 6));
    }
}

/// A decoded list of short ids: its length is the two-byte little-endian
/// count at the start, and id `i` is the six bytes at `2 + 6 i`.
pub proof fn lemma_ids_decoded_at(s: Seq<u8>)
    requires
        parse_ids(s) is Some,
    ensures
        parse_ids(s) matches Some((ids, rest)) && le_value(s.subrange(0, 2)) == ids.len() && (
        forall|i: int|
            0 <= i < ids.len() ==> #[trigger] s.subrange(2 + 6 * i, 2 + 6 * i + 6) == ids[i]) && rest
            == s.skip(2 + 6 * ids.len() as int),
{
    lemma_ids_parsed(s);
    let (ids, rest) = parse_ids(s).unwrap();
    assert(s.skip(0) =~= s);
    lemma_ids_at(s, 0, ids, rest);
}

/// Reading fixed-size bytes back.
pub proof fn lemma_fixed_roundtrip(b: Seq<u8>, rest: Seq<u8>)
    ensures
        parse_fixed(b + rest, b.len()) == Some((b, rest)),
{
    assert((b + rest).take(b.len() as int) =~= b);
    assert((b + rest).skip(b.len() as int) =~= rest);
}

/// What a fixed-size reader accepts is the bytes it returns.
pub proof fn lemma_fixed_parsed(s: Seq<u8>, n: nat)
    requires
        parse_fixed(s, n) is Some,
    ensures
        parse_fixed(s, n) matches Some((b, rest)) && b.len() == n && s == b + rest,
{
    assert(s =~= s.take(n as int) + s.skip(n as int));
}

/// Reading an integer back from its bytes.
pub proof fn lemma_uint_roundtrip(v: nat, w: nat, rest: Seq<u8>)
    requires
        v < byte_bound(w),
    ensures
        parse_uint(le_bytes(v, w) + rest, w) == Some((v, rest)),
{
    let s = le_bytes(v, w) + rest;
    lemma_le_bytes_len(v, w);
    assert(s.take(w as int) =~= le_bytes(v, w));
    assert(s.skip(w as int) =~= rest);
    lemma_le_value_of_le_bytes(v, w);
}

/// What an integer reader accepts is the integer's bytes.
pub proof fn lemma_uint_parsed(s: Seq<u8>, w: nat)
    requires
        parse_uint(s, w) is Some,
    ensures
        parse_uint(s, w) matches Some((v, rest)) && v < byte_bound(w) && s == le_bytes(v, w)
            + rest,
{
    let b = s.take(w as int);
    lemma_le_bytes_of_le_value(b);
    lemma_le_value_bound(b);
    assert(s =~= b + s.skip(w as int));
}

/// Reading a length-prefixed byte string back from its bytes.
pub proof fn lemma_prefixed_roundtrip(b: Seq<u8>, w: nat, rest: Seq<u8>)
    requires
        b.len() < byte_bound(w),
    ensures
        parse_prefixed(enc_prefixed(b, w) + rest, w) == Some((b, rest)),
{
    lemma_assoc(le_bytes(b.len(), w), b, rest);
    lemma_uint_roundtrip(b.len(), w, b + rest);
    assert((b + rest).take(b.len() as int) =~= b);
    assert((b + rest).skip(b.len() as int) =~= rest);
}

/// What a length-prefixed reader accepts is the string's bytes.
pub proof fn lemma_prefixed_parsed(s: Seq<u8>, w: nat)
    requires
        parse_prefixed(s, w) is Some,
    ensures
        parse_prefixed(s, w) matches Some((b, rest)) && b.len() < byte_bound(w) && s
            == enc_prefixed(b, w) + rest,
{
    lemma_uint_parsed(s, w);
    let (len, r) = parse_uint(s, w).unwrap();
    let b = r.take(len as int);
    assert(r =~= b + r.skip(len as int));
    lemma_assoc(le_bytes(len, w), b, r.skip(len as int));
}

/// The bytes of six-byte ids, one after the other.
pub proof fn lemma_flatten_six(ids: Seq<Seq<u8>>)
    requires
        all_six(ids),
    ensures
        ids.flatten().len() == 6 * ids.len(),
        forall|i: int|
            0 <= i < ids.len() ==> #[trigger] ids.flatten().subrange(6 * i, 6 * i + 6) == ids[i],
    decreases ids.len(),
{
    if ids.len() > 0 {
        let tail = ids.drop_first();
        assert(all_six(tail)) by {
            assert forall|i: int| 0 <= i < tail.len() implies (#[trigger] tail[i]).len() == 6 by {
                assert(tail[i] == ids[i + 1]);
            }
        }
        lemma_flatten_six(tail);
        let f = ids.flatten();
        assert(f == ids[0] + tail.flatten());
        assert forall|i: int| 0 <= i < ids.len() implies #[trigger] f.subrange(6 * i, 6 * i + 6)
            == ids[i] by {
            if i == 0 {
                assert(f.subrange(0, 6) =~= ids[0]);
            } else {
                assert(tail.flatten().subrange(6 * (i - 1), 6 * (i - 1) + 6) == tail[i - 1]);
                assert(f.subrange(6 * i, 6 * i + 6) =~= tail.flatten().subrange(
                    6 * (i - 1),
                    6 * (i - 1) + 6,
                ));
            }
        }
    }
}

/// Six-byte chunks put back together give the bytes they were cut from.
pub proof fn lemma_chunks6_flatten(s: Seq<u8>, n: nat)
    requires
        6 * n <= s.len(),
    ensures
        chunks6(s, n).flatten() == s.take(6 * n as int),
        all_six(chunks6(s, n)),
    decreases n,
{
    if n > 0 {
        lemma_chunks6_flatten(s.skip(6), (n - 1) as nat);
        assert forall|i: int| 0 <= i < n - 1 implies #[trigger] chunks6(s, n).drop_first()[i]
            == chunks6(s.skip(6), (n - 1) as nat)[i] by {
            assert(s.subrange(6 * (i + 1), 6 * (i + 1) + 6) =~= s.skip(6).subrange(6 * i, 6 * i + 6));
        }
        assert(chunks6(s, n).drop_first() =~= chunks6(s.skip(6), (n - 1) as nat));
        assert(chunks6(s, n).flatten() =~= s.take(6 * n as int));
    }
}

/// Reading a list of ids back from its bytes.
pub proof fn lemma_ids_roundtrip(ids: Seq<Seq<u8>>, rest: Seq<u8>)
    requires
        all_six(ids),
        ids.len() < byte_bound(2),
    ensures
        parse_ids(enc_ids(ids) + rest) == Some((ids, rest)),
{
    lemma_flatten_six(ids);
    let f = ids.flatten();
    lemma_assoc(le_bytes(ids.len(), 2), f, rest);
    lemma_uint_roundtrip(ids.len(), 2, f + rest);
    let r = f + rest;
    assert(chunks6(r, ids.len()) =~= ids) by {
        assert forall|i: int| 0 <= i < ids.len() implies #[trigger] chunks6(r, ids.len())[i]
            == ids[i] by {
            assert(f.subrange(6 * i, 6 * i + 6) == ids[i]);
            assert(r.subrange(6 * i, 6 * i + 6) =~= f.subrange(6 * i, 6 * i + 6));
        }
    }
    assert(r.skip(6 * ids.len() as int) =~= rest);
}

/// What the list reader accepts is the list's bytes.
pub proof fn lemma_ids_parsed(s: Seq<u8>)
    requires
        parse_ids(s) is Some,
    ensures
        parse_ids(s) matches Some((ids, rest)) && all_six(ids) && ids.len() < byte_bound(2) && s
            == enc_ids(ids) + rest,
{
    lemma_uint_parsed(s, 2);
    let (n, r) = parse_uint(s, 2).unwrap();
    lemma_chunks6_flatten(r, n);
    let ids = chunks6(r, n);
    assert(r =~= ids.flatten() + r.skip(6 * n as int));
    lemma_assoc(le_bytes(n, 2), ids.flatten(), r.skip(6 * n as int));
}

// ------------------------------------------------------------ field types

/// A byte string of at most 255 bytes, written behind a one-byte length.
#[derive(Debug, PartialEq, Eq)]
pub struct B0255 {
    inner: Vec<u8>,
}

impl View for B0255 {
    type V = Seq<u8>;

    closed spec fn view(&self) -> Seq<u8> {
        self.inner@
    }
}

impl B0255 {
    #[verifier::type_invariant]
    spec fn fits(self) -> bool {
        self.inner@.len() <= 255
    }

    /// Takes `bytes` if they fit.
    pub fn new(bytes: Vec<u8>) -> (r: Result<B0255, Error>)
        ensures
            bytes@.len() <= 255 ==> (r matches Ok(b) && b@ == bytes@),
            bytes@.len() > 255 ==> r == Err::<B0255, Error>(Error::InvalidB0255Size(
                bytes@.len() as usize,
            )),
    {
        if bytes.len() <= 255 {
            Ok(B0255 { inner: bytes })
        } else {
            Err(Error::InvalidB0255Size(bytes.len()))
        }
    }

    /// The bytes held.
    pub fn inner_as_ref(&self) -> (r: &[u8])
        ensures
            r@ == self@,
            r@.len() <= 255,
    {
        proof {
            use_type_invariant(self);
        }
        self.inner.as_slice()
    }
}


impl Clone for B0255 {
    fn clone(&self) -> (r: Self)
        ensures
            r@ == self@,
    {
        proof {
            use_type_invariant(self);
        }
        let inner = self.inner.clone();
        assert(inner@ =~= self.inner@);
        B0255 { inner }
    }
}

/// A byte string of at most 65535 bytes, written behind a two-byte length.
#[derive(Debug, PartialEq, Eq)]
pub struct B064K {
    inner: Vec<u8>,
}

impl View for B064K {
    type V = Seq<u8>;

    closed spec fn view(&self) -> Seq<u8> {
        self.inner@
    }
}

impl B064K {
    #[verifier::type_invariant]
    spec fn fits(self) -> bool {
        self.inner@.len() <= 65535
    }

    /// Takes `bytes` if they fit.
    pub fn new(bytes: Vec<u8>) -> (r: Result<B064K, Error>)
        ensures
            bytes@.len() <= 65535 ==> (r matches Ok(b) && b@ == bytes@),
            bytes@.len() > 65535 ==> r == Err::<B064K, Error>(Error::InvalidB064KSize(
                bytes@.len() as usize,
            )),
    {
        if bytes.len() <= 65535 {
            Ok(B064K { inner: bytes })
        } else {
            Err(Error::InvalidB064KSize(bytes.len()))
        }
    }

    /// The bytes held.
    pub fn inner_as_ref(&self) -> (r: &[u8])
        ensures
            r@ == self@,
            r@.len() <= 65535,
    {
        proof {
            use_type_invariant(self);
        }
        self.inner.as_slice()
    }
}


impl Clone for B064K {
    fn clone(&self) -> (r: Self)
        ensures
            r@ == self@,
    {
        proof {
            use_type_invariant(self);
        }
        let inner = self.inner.clone();
        assert(inner@ =~= self.inner@);
        B064K { inner }
    }
}

/// A short transaction id: six bytes.
#[derive(Debug, Clone, Copy, PartialEq, Eq)]
pub struct ShortTxId {
    pub bytes: [u8; 6],
}

/// A 256-bit number as 32 bytes, written as they are.
#[derive(Debug, Clone, Copy, PartialEq, Eq)]
pub struct U256 {
    pub bytes: [u8; 32],
}

impl U256 {
    /// Takes `bytes` if there are exactly 32 of them.
    pub fn from_slice(bytes: &[u8]) -> (r: Result<U256, Error>)
        ensures
            bytes@.len() == 32 ==> (r matches Ok(u) && u.bytes@ == bytes@),
            bytes@.len() != 32 ==> r == Err::<U256, Error>(Error::InvalidU256(
                bytes@.len() as usize,
            )),
    {
        if bytes.len() != 32 {
            return Err(Error::InvalidU256(bytes.len()));
        }
        let mut a = [0u8; 32];
        let mut i: usize = 0;
        while i < 32
            invariant
                i <= 32,
                bytes@.len() == 32,
                forall|j: int| 0 <= j < i ==> a@[j] == bytes@[j],
            decreases 32 - i,
        {
            a[i] = bytes[i];
            i = i + 1;
        }
        assert(a@ =~= bytes@);
        Ok(U256 { bytes: a })
    }
}

/// A list of at most 65535 short transaction ids, written behind a two-byte
/// count.
#[derive(Debug, PartialEq, Eq)]
pub struct ShortTxIdList {
    inner: Vec<ShortTxId>,
}

/// The bytes of each id, in order.
pub open spec fn ids_view(ids: Seq<ShortTxId>) -> Seq<Seq<u8>> {
    ids.map_values(|x: ShortTxId| x.bytes@)
}

/// The bytes of each id are six bytes long.
pub proof fn lemma_ids_view_six(ids: Seq<ShortTxId>)
    ensures
        all_six(ids_view(ids)),
{
    assert forall|i: int| 0 <= i < ids_view(ids).len() implies (#[trigger] ids_view(ids)[i]).len()
        == 6 by {
        assert(ids_view(ids)[i] == ids[i].bytes@);
    }
}

impl View for ShortTxIdList {
    type V = Seq<Seq<u8>>;

    closed spec fn view(&self) -> Seq<Seq<u8>> {
        ids_view(self.inner@)
    }
}

impl ShortTxIdList {
    #[verifier::type_invariant]
    spec fn fits(self) -> bool {
        self.inner@.len() <= 65535
    }

    /// Takes `ids` if there are not too many.
    pub fn new(ids: Vec<ShortTxId>) -> (r: Result<ShortTxIdList, Error>)
        ensures
            ids@.len() <= 65535 ==> (r matches Ok(l) && l@ == ids_view(ids@)),
            ids@.len() > 65535 ==> r == Err::<ShortTxIdList, Error>(Error::InvalidSeq064KSize(
                ids@.len() as usize,
            )),
    {
        if ids.len() <= 65535 {
            Ok(ShortTxIdList { inner: ids })
        } else {
            Err(Error::InvalidSeq064KSize(ids.len()))
        }
    }

    /// The ids held.
    pub fn inner_as_ref(&self) -> (r: &[ShortTxId])
        ensures
            ids_view(r@) == self@,
            r@.len() <= 65535,
    {
        proof {
            use_type_invariant(self);
        }
        self.inner.as_slice()
    }
}


impl Clone for ShortTxIdList {
    fn clone(&self) -> (r: Self)
        ensures
            r@ == self@,
    {
        proof {
            use_type_invariant(self);
        }
        let inner = self.inner.clone();
        assert(ids_view(inner@) =~= ids_view(self.inner@));
        ShortTxIdList { inner }
    }
}

// ------------------------------------------------------------- exec side

/// Appends `bytes`.
pub fn push_bytes(out: &mut Vec<u8>, bytes: &[u8])
    ensures
        final(out)@ == old(out)@ + bytes@,
{
    let mut i: usize = 0;
    while i < bytes.len()
        invariant
            i <= bytes@.len(),
            out@ == old(out)@ + bytes@.take(i as int),
        decreases bytes@.len() - i,
    {
        out.push(bytes[i]);
        assert(bytes@.take(i + 1) =~= bytes@.take(i as int).push(bytes@[i as int]));
        i = i + 1;
    }
    assert(bytes@.take(i as int) =~= bytes@);
}

/// Appends the bytes of a `B0255` field.
pub fn push_b0255(out: &mut Vec<u8>, b: &B0255)
    ensures
        final(out)@ == old(out)@ + enc_b0255(b@),
{
    let bytes = b.inner_as_ref();
    push_le(out, bytes.len() as u64, 1);
    push_bytes(out, bytes);
    proof {
        lemma_assoc(old(out)@, le_bytes(b@.len(), 1), b@);
    }
}

/// Appends the bytes of a `B064K` field.
pub fn push_b064k(out: &mut Vec<u8>, b: &B064K)
    ensures
        final(out)@ == old(out)@ + enc_b064k(b@),
{
    let bytes = b.inner_as_ref();
    push_le(out, bytes.len() as u64, 2);
    push_bytes(out, bytes);
    proof {
        lemma_assoc(old(out)@, le_bytes(b@.len(), 2), b@);
    }
}

/// Appends the bytes of a list of short transaction ids.
pub fn push_ids(out: &mut Vec<u8>, l: &ShortTxIdList)
    ensures
        final(out)@ == old(out)@ + enc_ids(l@),
{
    let ids = l.inner_as_ref();
    push_le(out, ids.len() as u64, 2);
    let ghost start = out@;
    let mut i: usize = 0;
    while i < ids.len()
        invariant
            i <= ids@.len(),
            out@ == start + ids_view(ids@).take(i as int).flatten(),
        decreases ids@.len() - i,
    {
        let id = ids[i];
        push_bytes(out, id.bytes.as_slice());
        proof {
            let v = ids_view(ids@);
            assert(v.take(i + 1) =~= v.take(i as int).push(id.bytes@));
            v.take(i as int).lemma_flatten_push(id.bytes@);
            lemma_assoc(start, v.take(i as int).flatten(), id.bytes@);
        }
        i = i + 1;
    }
    assert(ids_view(ids@).take(i as int) =~= l@);
    proof {
        lemma_assoc(old(out)@, le_bytes(l@.len(), 2), l@.flatten());
    }
}

/// The `n` bytes at `pos`.
pub fn read_bytes(bytes: &[u8], pos: usize, n: usize) -> (r: Vec<u8>)
    requires
        pos + n <= bytes@.len(),
    ensures
        r@ == bytes@.subrange(pos as int, pos + n),
{
    let len = bytes.len();
    let mut r: Vec<u8> = Vec::new();
    let mut i: usize = 0;
    while i < n
        invariant
            i <= n,
            bytes@.len() == len,
            pos + n <= bytes@.len(),
            r@ == bytes@.subrange(pos as int, pos + i),
        decreases n - i,
    {
        r.push(bytes[pos + i]);
        assert(r@ =~= bytes@.subrange(pos as int, pos + i + 1));
        i = i + 1;
    }
    r
}

/// The outcome of an exec reader at `pos` matches the spec reader on the
/// bytes from `pos` on.
pub open spec fn read_matches<T, V>(
    bytes: Seq<u8>,
    spec_result: Option<(V, Seq<u8>)>,
    r: Result<(T, usize), Error>,
    view: spec_fn(T) -> V,
) -> bool {
    match spec_result {
        None => r == Err::<(T, usize), Error>(Error::OutOfBound),
        Some((v, rest)) => r matches Ok((t, np)) && view(t) == v && np <= bytes.len()
            && bytes.skip(np as int) == rest,
    }
}

/// Reads a `w`-byte little-endian integer at `pos`.
pub fn read_uint(bytes: &[u8], pos: usize, w: usize) -> (r: Result<(u64, usize), Error>)
    requires
        pos <= bytes@.len(),
        w <= 8,
    ensures
        read_matches(bytes@, parse_uint(bytes@.skip(pos as int), w as nat), r, |t: u64| t as nat),
{
    if bytes.len() - pos < w {
        return Err(Error::OutOfBound);
    }
    let v = read_le(bytes, pos, w);
    assert(bytes@.skip(pos as int).take(w as int) =~= bytes@.subrange(pos as int, pos + w));
    assert(bytes@.skip(pos as int).skip(w as int) =~= bytes@.skip(pos + w));
    Ok((v, pos + w))
}

/// Reads `n` bytes at `pos`.
pub fn read_fixed(bytes: &[u8], pos: usize, n: usize) -> (r: Result<(Vec<u8>, usize), Error>)
    requires
        pos <= bytes@.len(),
    ensures
        read_matches(bytes@, parse_fixed(bytes@.skip(pos as int), n as nat), r, |t: Vec<u8>| t@),
{
    if bytes.len() - pos < n {
        return Err(Error::OutOfBound);
    }
    let v = read_bytes(bytes, pos, n);
    assert(bytes@.skip(pos as int).take(n as int) =~= bytes@.subrange(pos as int, pos + n));
    assert(bytes@.skip(pos as int).skip(n as int) =~= bytes@.skip(pos + n));
    Ok((v, pos + n))
}

/// Reads a two-byte little-endian integer at `pos`.
pub fn read_u16(bytes: &[u8], pos: usize) -> (r: Result<(u16, usize), Error>)
    requires
        pos <= bytes@.len(),
    ensures
        read_matches(bytes@, parse_uint(bytes@.skip(pos as int), 2), r, |t: u16| t as nat),
{
    match read_uint(bytes, pos, 2) {
        Ok((v, p)) => {
            proof {
                lemma_le_value_bound(bytes@.skip(pos as int).take(2));
                lemma_byte_bound_values();
            }
            Ok((v as u16, p))
        },
        Err(e) => Err(e),
    }
}

/// Reads a four-byte little-endian integer at `pos`.
pub fn read_u32(bytes: &[u8], pos: usize) -> (r: Result<(u32, usize), Error>)
    requires
        pos <= bytes@.len(),
    ensures
        read_matches(bytes@, parse_uint(bytes@.skip(pos as int), 4), r, |t: u32| t as nat),
{
    match read_uint(bytes, pos, 4) {
        Ok((v, p)) => {
            proof {
                lemma_le_value_bound(bytes@.skip(pos as int).take(4));
                lemma_byte_bound_values();
            }
            Ok((v as u32, p))
        },
        Err(e) => Err(e),
    }
}

/// Reads an eight-byte little-endian integer at `pos`.
pub fn read_u64(bytes: &[u8], pos: usize) -> (r: Result<(u64, usize), Error>)
    requires
        pos <= bytes@.len(),
    ensures
        read_matches(bytes@, parse_uint(bytes@.skip(pos as int), 8), r, |t: u64| t as nat),
{
    read_uint(bytes, pos, 8)
}

/// Reads a `B0255` field at `pos`.
pub fn read_b0255(bytes: &[u8], pos: usize) -> (r: Result<(B0255, usize), Error>)
    requires
        pos <= bytes@.len(),
    ensures
        read_matches(bytes@, parse_prefixed(bytes@.skip(pos as int), 1), r, |t: B0255| t@),
{
    let (len, p1) = match read_uint(bytes, pos, 1) {
        Ok(x) => x,
        Err(e) => return Err(e),
    };
    proof {
        lemma_le_value_bound(bytes@.skip(pos as int).take(1));
        lemma_byte_bound_values();
        assert(bytes@.skip(p1 as int) == bytes@.skip(pos as int).skip(1));
    }
    let (data, p2) = match read_fixed(bytes, p1, len as usize) {
        Ok(x) => x,
        Err(e) => return Err(e),
    };
    Ok((B0255 { inner: data }, p2))
}

/// Reads a `B064K` field at `pos`.
pub fn read_b064k(bytes: &[u8], pos: usize) -> (r: Result<(B064K, usize), Error>)
    requires
        pos <= bytes@.len(),
    ensures
        read_matches(bytes@, parse_prefixed(bytes@.skip(pos as int), 2), r, |t: B064K| t@),
{
    let (len, p1) = match read_uint(bytes, pos, 2) {
        Ok(x) => x,
        Err(e) => return Err(e),
    };
    proof {
        lemma_le_value_bound(bytes@.skip(pos as int).take(2));
        lemma_byte_bound_values();
    }
    let (data, p2) = match read_fixed(bytes, p1, len as usize) {
        Ok(x) => x,
        Err(e) => return Err(e),
    };
    Ok((B064K { inner: data }, p2))
}

/// Reads a `U256` field at `pos`.
pub fn read_u256(bytes: &[u8], pos: usize) -> (r: Result<(U256, usize), Error>)
    requires
        pos <= bytes@.len(),
    ensures
        read_matches(bytes@, parse_fixed(bytes@.skip(pos as int), 32), r, |t: U256| t.bytes@),
{
    let (data, p1) = match read_fixed(bytes, pos, 32) {
        Ok(x) => x,
        Err(e) => return Err(e),
    };
    match U256::from_slice(data.as_slice()) {
        Ok(u) => Ok((u, p1)),
        Err(e) => Err(e),
    }
}

/// Reads a list of short transaction ids at `pos`.
pub fn read_ids(bytes: &[u8], pos: usize) -> (r: Result<(ShortTxIdList, usize), Error>)
    requires
        pos <= bytes@.len(),
    ensures
        read_matches(bytes@, parse_ids(bytes@.skip(pos as int)), r, |t: ShortTxIdList| t@),
{
    let (n, p1) = match read_uint(bytes, pos, 2) {
        Ok(x) => x,
        Err(e) => return Err(e),
    };
    proof {
        lemma_le_value_bound(bytes@.skip(pos as int).take(2));
        lemma_byte_bound_values();
    }
    let n = n as usize;
    if (bytes.len() - p1) / 6 < n {
        return Err(Error::OutOfBound);
    }
    let ghost rest = bytes@.skip(p1 as int);
    let len = bytes.len();
    let mut ids: Vec<ShortTxId> = Vec::new();
    let mut i: usize = 0;
    let mut p: usize = p1;
    while i < n
        invariant
            i <= n <= 65535,
            p1 + 6 * n <= bytes@.len(),
            bytes@.len() == len,
            p == p1 + 6 * i,
            rest == bytes@.skip(p1 as int),
            ids_view(ids@) == chunks6(rest, i as nat),
            ids@.len() == i,
        decreases n - i,
    {
        let mut a = [0u8; 6];
        let mut k: usize = 0;
        while k < 6
            invariant
                k <= 6,
                p + 6 <= bytes@.len(),
                bytes@.len() == len,
                forall|j: int| 0 <= j < k ==> a@[j] == bytes@[p + j],
            decreases 6 - k,
        {
            a[k] = bytes[p + k];
            k = k + 1;
        }
        assert(a@ =~= rest.subrange(6 * i, 6 * i + 6));
        let ghost before = ids@;
        ids.push(ShortTxId { bytes: a });
        assert forall|j: int| 0 <= j <= i implies #[trigger] ids_view(ids@)[j] == chunks6(
            rest,
            (i + 1) as nat,
        )[j] by {
            if j < i {
                assert(ids@[j] == before[j]);
                assert(ids_view(before)[j] == chunks6(rest, i as nat)[j]);
            }
        }
        assert(ids_view(ids@) =~= chunks6(rest, (i + 1) as nat));
        i = i + 1;
        p = p + 6;
    }
    assert(rest.skip(6 * n as int) =~= bytes@.skip(p as int));
    Ok((ShortTxIdList { inner: ids }, p))
}

} // verus!
