//! The compact binary encoding of the index files: little-endian integers of
//! fixed width, text and sequences prefixed with their length as a 64-bit
//! integer, an optional value prefixed with a tag byte.
//!
//! Each shape has a serializer and a parser as ghost functions, the
//! executable writer and reader are proved against them, and parsing what was
//! serialized gives the value back.

use vstd::prelude::*;
use vstd::bytes::*;
use vstd::slice::*;
use vstd::string::*;
use vstd::utf8::*;

verus! {

/// A 32-bit integer: four bytes, least significant first.
pub open spec fn ser_u32(x: u32) -> Seq<u8> {
    spec_u32_to_le_bytes(x)
}

/// A 64-bit integer: eight bytes, least significant first.
pub open spec fn ser_u64(x: u64) -> Seq<u8> {
    spec_u64_to_le_bytes(x)
}

/// A length, as a 64-bit integer.
pub open spec fn ser_len(n: nat) -> Seq<u8> {
    ser_u64(#[verifier::truncate] (n as u64))
}

/// A text: the length of its UTF-8 encoding, then the encoding.
pub open spec fn ser_text(s: Seq<char>) -> Seq<u8> {
    ser_len(encode_utf8(s).len()) + encode_utf8(s)
}

/// An optional text: the tag 0, or the tag 1 and the text.
pub open spec fn ser_opt_text(o: Option<Seq<char>>) -> Seq<u8> {
    match o {
        None => seq![0u8],
        Some(s) => seq![1u8] + ser_text(s),
    }
}

/// The items one after the other.
pub open spec fn ser_many<T>(ser: spec_fn(T) -> Seq<u8>, items: Seq<T>) -> Seq<u8>
    decreases items.len(),
{
    if items.len() == 0 {
        Seq::empty()
    } else {
        ser(items.first()) + ser_many(ser, items.drop_first())
    }
}

/// A sequence: its length, then its items.
pub open spec fn ser_seq<T>(ser: spec_fn(T) -> Seq<u8>, items: Seq<T>) -> Seq<u8> {
    ser_len(items.len()) + ser_many(ser, items)
}

/// A 32-bit integer at the head of the bytes. Each parser gives the value at
/// the head of the bytes and the bytes that follow it, or `None` where the head
/// is no encoding of such a value.
pub open spec fn parse_u32(b: Seq<u8>) -> Option<(u32, Seq<u8>)> {
    if b.len() >= 4 {
        Some((spec_u32_from_le_bytes(b.take(4)), b.skip(4)))
    } else {
        None
    }
}

/// A 64-bit integer at the head of the bytes.
pub open spec fn parse_u64(b: Seq<u8>) -> Option<(u64, Seq<u8>)> {
    if b.len() >= 8 {
        Some((spec_u64_from_le_bytes(b.take(8)), b.skip(8)))
    } else {
        None
    }
}

/// A text at the head of the bytes: a length, then that many bytes of valid
/// UTF-8.
pub open spec fn parse_text(b: Seq<u8>) -> Option<(Seq<char>, Seq<u8>)> {
    match parse_u64(b) {
        Some((n, rest)) => if n <= rest.len() && valid_utf8(rest.take(n as int)) {
            Some((decode_utf8(rest.take(n as int)), rest.skip(n as int)))
        } else {
            None
        },
        None => None,
    }
}

/// An optional text at the head of the bytes: the tag 0, or the tag 1 and a
/// text.
pub open spec fn parse_opt_text(b: Seq<u8>) -> Option<(Option<Seq<char>>, Seq<u8>)> {
    if b.len() == 0 {
        None
    } else if b[0] == 0 {
        Some((None, b.skip(1)))
    } else if b[0] == 1 {
        match parse_text(b.skip(1)) {
            Some((s, rest)) => Some((Some(s), rest)),
            None => None,
        }
    } else {
        None
    }
}

/// The value with one more item in front.
pub open spec fn prepended<T>(x: T, tail: Option<(Seq<T>, Seq<u8>)>) -> Option<(Seq<T>, Seq<u8>)> {
    match tail {
        Some((xs, rest)) => Some((seq![x] + xs, rest)),
        None => None,
    }
}

/// `n` items one after the other.
pub open spec fn parse_many<T>(
    parse: spec_fn(Seq<u8>) -> Option<(T, Seq<u8>)>,
    n: nat,
    b: Seq<u8>,
) -> Option<(Seq<T>, Seq<u8>)>
    decreases n,
{
    if n == 0 {
        Some((Seq::empty(), b))
    } else {
        match parse(b) {
            Some((x, rest)) => prepended(x, parse_many(parse, (n - 1) as nat, rest)),
            None => None,
        }
    }
}

/// A sequence: its length, then that many items.
pub open spec fn parse_seq<T>(parse: spec_fn(Seq<u8>) -> Option<(T, Seq<u8>)>, b: Seq<u8>) -> Option<
    (Seq<T>, Seq<u8>),
> {
    match parse_u64(b) {
        Some((n, rest)) => parse_many(parse, n as nat, rest),
        None => None,
    }
}

/// The items read so far, followed by what the rest of the parse gives.
pub open spec fn continued<T>(done: Seq<T>, tail: Option<(Seq<T>, Seq<u8>)>) -> Option<
    (Seq<T>, Seq<u8>),
> {
    match tail {
        Some((xs, rest)) => Some((done + xs, rest)),
        None => None,
    }
}

/// Parsing a serialized 32-bit integer gives it back, with what followed.
pub proof fn lemma_u32_round_trip(x: u32, rest: Seq<u8>)
    ensures
        ser_u32(x).len() == 4,
        parse_u32(ser_u32(x) + rest) == Some((x, rest)),
{
    lemma_auto_spec_u32_to_from_le_bytes();
    let b = ser_u32(x) + rest;
    assert(b.take(4) =~= ser_u32(x));
    assert(b.skip(4) =~= rest);
}

/// Parsing a serialized 64-bit integer gives it back, with what followed.
pub proof fn lemma_u64_round_trip(x: u64, rest: Seq<u8>)
    ensures
        ser_u64(x).len() == 8,
        parse_u64(ser_u64(x) + rest) == Some((x, rest)),
{
    lemma_auto_spec_u64_to_from_le_bytes();
    let b = ser_u64(x) + rest;
    assert(b.take(8) =~= ser_u64(x));
    assert(b.skip(8) =~= rest);
}

/// Parsing a serialized text gives it back, with what followed.
pub proof fn lemma_text_round_trip(s: Seq<char>, rest: Seq<u8>)
    requires
        encode_utf8(s).len() <= u64::MAX,
    ensures
        parse_text(ser_text(s) + rest) == Some((s, rest)),
{
    let body = encode_utf8(s);
    let n = body.len() as u64;
    lemma_u64_round_trip(n, body + rest);
    assert(ser_text(s) + rest =~= ser_u64(n) + (body + rest));
    assert((body + rest).take(n as int) =~= body);
    assert((body + rest).skip(n as int) =~= rest);
    encode_utf8_valid_utf8(s);
    encode_utf8_decode_utf8(s);
}

/// Whether the encoding of an optional text fits a 64-bit length.
pub open spec fn opt_text_fits(o: Option<Seq<char>>) -> bool {
    match o {
        Some(s) => encode_utf8(s).len() <= u64::MAX,
        None => true,
    }
}

/// Parsing a serialized optional text gives it back, with what followed.
pub proof fn lemma_opt_text_round_trip(o: Option<Seq<char>>, rest: Seq<u8>)
    requires
        opt_text_fits(o),
    ensures
        parse_opt_text(ser_opt_text(o) + rest) == Some((o, rest)),
{
    let b = ser_opt_text(o) + rest;
    match o {
        None => {
            assert(b.skip(1) =~= rest);
        },
        Some(s) => {
            assert(b.skip(1) =~= ser_text(s) + rest);
            lemma_text_round_trip(s, rest);
        },
    }
}

/// Where parsing an item gives back what was serialized, so does parsing a
/// run of items.
pub proof fn lemma_many_round_trip<T>(
    ser: spec_fn(T) -> Seq<u8>,
    parse: spec_fn(Seq<u8>) -> Option<(T, Seq<u8>)>,
    items: Seq<T>,
    rest: Seq<u8>,
)
    requires
        forall|i: int, r: Seq<u8>|
            0 <= i < items.len() ==> #[trigger] parse(ser(items[i]) + r) == Some((items[i], r)),
    ensures
        parse_many(parse, items.len(), ser_many(ser, items) + rest) == Some((items, rest)),
    decreases items.len(),
{
    if items.len() == 0 {
        assert(ser_many(ser, items) + rest =~= rest);
        assert(items =~= Seq::<T>::empty());
    } else {
        let x = items.first();
        let tail = items.drop_first();
        assert forall|i: int, r: Seq<u8>| 0 <= i < tail.len() implies #[trigger] parse(ser(tail[i]) + r)
            == Some((tail[i], r)) by {
            assert(tail[i] == items[i + 1]);
        }
        lemma_many_round_trip(ser, parse, tail, rest);
        let after = ser_many(ser, tail) + rest;
        assert(ser_many(ser, items) + rest =~= ser(x) + after);
        assert(items[0] == x);
        assert(parse(ser(items[0]) + after) == Some((x, after)));
        assert(seq![x] + tail =~= items);
    }
}

/// Where parsing an item gives back what was serialized, so does parsing a
/// sequence.
pub proof fn lemma_seq_round_trip<T>(
    ser: spec_fn(T) -> Seq<u8>,
    parse: spec_fn(Seq<u8>) -> Option<(T, Seq<u8>)>,
    items: Seq<T>,
    rest: Seq<u8>,
)
    requires
        items.len() <= u64::MAX,
        forall|i: int, r: Seq<u8>|
            0 <= i < items.len() ==> #[trigger] parse(ser(items[i]) + r) == Some((items[i], r)),
    ensures
        parse_seq(parse, ser_seq(ser, items) + rest) == Some((items, rest)),
{
    let body = ser_many(ser, items) + rest;
    lemma_u64_round_trip(items.len() as u64, body);
    assert(ser_seq(ser, items) + rest =~= ser_u64(items.len() as u64) + body);
    lemma_many_round_trip(ser, parse, items, rest);
}

/// One step of a run of items: with the next item read, what remains is a run
/// of one item less.
pub proof fn lemma_many_step<T>(
    parse: spec_fn(Seq<u8>) -> Option<(T, Seq<u8>)>,
    done: Seq<T>,
    left: nat,
    b: Seq<u8>,
)
    requires
        left > 0,
    ensures
        continued(done, parse_many(parse, left, b)) == match parse(b) {
            Some((x, rest)) => continued(done.push(x), parse_many(parse, (left - 1) as nat, rest)),
            None => None,
        },
{
    match parse(b) {
        Some((x, rest)) => {
            match parse_many(parse, (left - 1) as nat, rest) {
                Some((xs, after)) => {
                    assert(done + (seq![x] + xs) =~= done.push(x) + xs);
                },
                None => {},
            }
        },
        None => {},
    }
}

/// Appending serializes the items one after the other.
pub proof fn lemma_ser_many_push<T>(ser: spec_fn(T) -> Seq<u8>, items: Seq<T>, x: T)
    ensures
        ser_many(ser, items.push(x)) == ser_many(ser, items) + ser(x),
    decreases items.len(),
{
    if items.len() == 0 {
        let one = items.push(x);
        assert(one.first() == x);
        assert(one.drop_first() =~= Seq::<T>::empty());
        assert(ser_many(ser, one.drop_first()) =~= Seq::<u8>::empty());
        assert(ser_many(ser, items) =~= Seq::<u8>::empty());
        assert(ser_many(ser, one) =~= ser_many(ser, items) + ser(x));
    } else {
        lemma_ser_many_push(ser, items.drop_first(), x);
        assert(items.push(x).drop_first() =~= items.drop_first().push(x));
        assert(ser_many(ser, items.push(x)) =~= ser_many(ser, items) + ser(x));
    }
}

/// Calls `std::str::from_utf8` and copies the text. Trusted: the bytes are
/// accepted exactly when they are valid UTF-8, and the text is then their
/// decoding.
#[verifier::external_body]
fn text_from_utf8(bytes: &[u8]) -> (r: Option<String>)
    ensures
        match r {
            Some(s) => valid_utf8(bytes@) && s@ == decode_utf8(bytes@),
            None => !valid_utf8(bytes@),
        },
{
    std::str::from_utf8(bytes).ok().map(|s| s.to_owned())
}

/// Appends a 32-bit integer.
pub fn write_u32(out: &mut Vec<u8>, x: u32)
    ensures
        final(out)@ == old(out)@ + ser_u32(x),
{
    let b = u32_to_le_bytes(x);
    out.extend_from_slice(b.as_slice());
}

/// Appends a 64-bit integer.
pub fn write_u64(out: &mut Vec<u8>, x: u64)
    ensures
        final(out)@ == old(out)@ + ser_u64(x),
{
    let b = u64_to_le_bytes(x);
    out.extend_from_slice(b.as_slice());
}

/// Appends a length.
pub fn write_len(out: &mut Vec<u8>, n: usize)
    ensures
        final(out)@ == old(out)@ + ser_len(n as nat),
{
    write_u64(out, n as u64);
}

/// Appends a text.
pub fn write_text(out: &mut Vec<u8>, s: &str)
    ensures
        final(out)@ == old(out)@ + ser_text(s@),
{
    let bytes = s.as_bytes();
    write_len(out, bytes.len());
    out.extend_from_slice(bytes);
    assert(out@ =~= old(out)@ + ser_text(s@));
}

/// Appends an optional text.
pub fn write_opt_text(out: &mut Vec<u8>, o: &Option<String>)
    ensures
        final(out)@ == old(out)@ + ser_opt_text(crate::index::opt_text(*o)),
{
    match o {
        None => {
            out.push(0u8);
            assert(out@ =~= old(out)@ + seq![0u8]);
        },
        Some(s) => {
            out.push(1u8);
            write_text(out, s.as_str());
            assert(out@ =~= old(out)@ + (seq![1u8] + ser_text(s@)));
        },
    }
}

/// A cursor over the bytes of a file.
pub struct Reader<'a> {
    bytes: &'a [u8],
    pos: usize,
}

impl<'a> Reader<'a> {
    /// The bytes not yet read.
    pub closed spec fn rest(&self) -> Seq<u8> {
        self.bytes@.skip(self.pos as int)
    }

    /// The cursor stands within the bytes.
    pub closed spec fn wf(&self) -> bool {
        self.pos <= self.bytes@.len()
    }

    /// A cursor at the start of the bytes.
    pub fn new(bytes: &'a [u8]) -> (r: Reader<'a>)
        ensures
            r.wf(),
            r.rest() == bytes@,
    {
        let r = Reader { bytes, pos: 0 };
        assert(r.rest() =~= bytes@);
        r
    }

    /// Reads one byte, if there is one.
    pub fn read_u8(&mut self) -> (r: Option<u8>)
        requires
            old(self).wf(),
        ensures
            final(self).wf(),
            match r {
                Some(x) => old(self).rest().len() > 0 && x == old(self).rest()[0] && final(self).rest()
                    == old(self).rest().skip(1),
                None => old(self).rest().len() == 0,
            },
    {
        if self.pos < self.bytes.len() {
            let x = self.bytes[self.pos];
            self.pos += 1;
            assert(self.rest() =~= old(self).rest().skip(1));
            Some(x)
        } else {
            None
        }
    }

    /// Reads a 32-bit integer; the cursor moves past it.
    pub fn read_u32(&mut self) -> (r: Option<u32>)
        requires
            old(self).wf(),
        ensures
            final(self).wf(),
            match r {
                Some(x) => parse_u32(old(self).rest()) == Some((x, final(self).rest())),
                None => parse_u32(old(self).rest()) is None,
            },
    {
        if self.bytes.len() - self.pos < 4 {
            return None;
        }
        let x = u32_from_le_bytes(slice_subrange(self.bytes, self.pos, self.pos + 4));
        proof {
            assert(old(self).rest().take(4) =~= self.bytes@.subrange(
                self.pos as int,
                self.pos + 4,
            ));
        }
        self.pos += 4;
        assert(self.rest() =~= old(self).rest().skip(4));
        Some(x)
    }

    /// Reads a 64-bit integer; the cursor moves past it.
    pub fn read_u64(&mut self) -> (r: Option<u64>)
        requires
            old(self).wf(),
        ensures
            final(self).wf(),
            match r {
                Some(x) => parse_u64(old(self).rest()) == Some((x, final(self).rest())),
                None => parse_u64(old(self).rest()) is None,
            },
    {
        if self.bytes.len() - self.pos < 8 {
            return None;
        }
        let x = u64_from_le_bytes(slice_subrange(self.bytes, self.pos, self.pos + 8));
        proof {
            assert(old(self).rest().take(8) =~= self.bytes@.subrange(
                self.pos as int,
                self.pos + 8,
            ));
        }
        self.pos += 8;
        assert(self.rest() =~= old(self).rest().skip(8));
        Some(x)
    }

    /// Reads a text; the cursor moves past it.
    pub fn read_text(&mut self) -> (r: Option<String>)
        requires
            old(self).wf(),
        ensures
            final(self).wf(),
            match r {
                Some(s) => parse_text(old(self).rest()) == Some((s@, final(self).rest())),
                None => parse_text(old(self).rest()) is None,
            },
    {
        let n = match self.read_u64() {
            Some(n) => n,
            None => {
                return None;
            },
        };
        let ghost body = self.rest();
        if n > (self.bytes.len() - self.pos) as u64 {
            return None;
        }
        let len = n as usize;
        let slice = slice_subrange(self.bytes, self.pos, self.pos + len);
        proof {
            assert(body.take(n as int) =~= slice@);
        }
        match text_from_utf8(slice) {
            Some(s) => {
                self.pos += len;
                assert(self.rest() =~= body.skip(n as int));
                Some(s)
            },
            None => None,
        }
    }

    /// Reads an optional text; the cursor moves past it.
    pub fn read_opt_text(&mut self) -> (r: Option<Option<String>>)
        requires
            old(self).wf(),
        ensures
            final(self).wf(),
            match r {
                Some(o) => parse_opt_text(old(self).rest()) == Some(
                    (crate::index::opt_text(o), final(self).rest()),
                ),
                None => parse_opt_text(old(self).rest()) is None,
            },
    {
        match self.read_u8() {
            None => None,
            Some(tag) => {
                if tag == 0 {
                    Some(None)
                } else if tag == 1 {
                    match self.read_text() {
                        Some(s) => Some(Some(s)),
                        None => None,
                    }
                } else {
                    None
                }
            },
        }
    }
}

} // verus!
