pub mod proto;

use vstd::prelude::*;
use crate::streamer::proto::UtMsg;

verus! {

/// What `prost::encoding::decode_varint` gives for a buffer holding `bytes`: the
/// decoded value where decoding succeeds, and the bytes left in the buffer.
pub uninterp spec fn varint_prefix(bytes: Seq<u8>) -> (Option<u64>, Seq<u8>);

/// The value of little-endian base-128 digits, each digit the low seven bits of a byte.
pub open spec fn leb128_value(digits: Seq<u8>) -> nat
    decreases digits.len(),
{
    if digits.len() == 0 {
        0
    } else {
        (digits[0] % 128) as nat + 128 * leb128_value(digits.skip(1))
    }
}

/// The length of the base-128 varint at the start of `b`, looking from position `i`:
/// the position after the first byte below 0x80, among the first ten bytes.
pub open spec fn varint_end(b: Seq<u8>, i: nat) -> Option<nat>
    decreases 10 - i,
{
    if i >= 10 || i >= b.len() {
        None
    } else if b[i as int] < 0x80 {
        Some(i + 1)
    } else {
        varint_end(b, i + 1)
    }
}

/// Whether `b` starts with a varint that decodes: one that ends within ten bytes
/// and, where it takes all ten, whose value fits in 64 bits.
pub open spec fn varint_ok(b: Seq<u8>) -> bool {
    varint_end(b, 0) matches Some(n) && (n < 10 || b[9] < 2)
}

/// The length of the varint at the start of `b`, where it decodes.
pub open spec fn varint_len(b: Seq<u8>) -> nat {
    varint_end(b, 0).unwrap()
}

/// Whether the decoder, failing on `b`, leaves all of it: where `b` is empty, longer
/// than ten bytes, or ends in a byte below 0x80. Otherwise a failing decoder reads
/// every byte of `b`.
pub open spec fn failure_keeps_all(b: Seq<u8>) -> bool {
    b.len() == 0 || b.len() > 10 || b.last() < 0x80
}

/// The number of bytes that the decoder takes from the start of `b`: the varint
/// where it decodes; otherwise none or all of them (see `failure_keeps_all`).
pub open spec fn prefix_len(b: Seq<u8>) -> nat {
    if varint_ok(b) {
        varint_len(b)
    } else if failure_keeps_all(b) {
        0
    } else {
        b.len()
    }
}

/// Decodes the varint at the start of `bytes` with `prost::encoding::decode_varint`.
///
/// Trusted: the result is `varint_prefix` of the input; decoding succeeds exactly
/// where the input starts with a varint of at most ten bytes whose value fits in 64
/// bits, and then consumes that varint and gives its base-128 value; a failing
/// decoding leaves the whole input where it is empty, longer than ten bytes or ends
/// in a byte below 0x80, and nothing of it otherwise.
#[verifier::external_body]
fn decode_varint<'a>(bytes: &'a [u8]) -> (r: (Option<u64>, &'a [u8]))
    ensures
        (r.0, r.1@) == varint_prefix(bytes@),
        r.1@.len() <= bytes@.len(),
        r.1@ == bytes@.skip(bytes@.len() - r.1@.len()),
        r.0 is Some <==> varint_ok(bytes@),
        r.0 matches Some(v) ==> bytes@.len() - r.1@.len() == varint_len(bytes@)
            && v == leb128_value(bytes@.take(varint_len(bytes@) as int)),
        r.1@ == bytes@.skip(prefix_len(bytes@) as int),
{
    let mut rest: &[u8] = bytes;
    match prost::encoding::decode_varint(&mut rest) {
        Ok(v) => (Some(v), rest),
        Err(_) => (None, rest),
    }
}

/// The abstract value of a streamer.
pub struct StreamerView {
    /// The bytes read and not yet consumed.
    pub buf: Seq<u8>,
    /// Whether the stream has ended.
    pub end: bool,
    /// The symbols whose instructions are wanted; all are wanted where there are none.
    pub symbols: Seq<Seq<char>>,
}

impl StreamerView {
    /// The size of the next frame, as its length prefix gives it; zero where the
    /// prefix does not decode.
    pub open spec fn frame_size(self) -> nat {
        if varint_ok(self.buf) {
            leb128_value(self.buf.take(varint_len(self.buf) as int))
        } else {
            0
        }
    }

    /// The bytes after the length prefix, as the decoder leaves them.
    pub open spec fn after_prefix(self) -> Seq<u8> {
        self.buf.skip(prefix_len(self.buf) as int)
    }

    /// Whether taking the next frame stays within the bytes read: it does where the
    /// stream has ended, where fewer than two bytes are left, and where the frame
    /// size is at most the number of bytes after the prefix.
    pub open spec fn frame_fits(self) -> bool {
        self.end || self.buf.len() < 2 || self.frame_size() <= self.after_prefix().len()
    }

    /// What taking the next frame gives, and the state after it: nothing where the
    /// stream has ended; nothing, ending the stream, where fewer than two bytes are
    /// left; otherwise the bytes that the length prefix announces.
    pub open spec fn next_frame_step(self) -> (Option<Seq<u8>>, StreamerView) {
        if self.end {
            (None, self)
        } else if self.buf.len() < 2 {
            (None, StreamerView { end: true, ..self })
        } else {
            (
                Some(self.after_prefix().take(self.frame_size() as int)),
                StreamerView { buf: self.after_prefix().skip(self.frame_size() as int), ..self },
            )
        }
    }

    /// The state after `k` frames are taken.
    pub open spec fn after_frames(self, k: nat) -> StreamerView
        decreases k,
    {
        if k == 0 {
            self
        } else {
            self.next_frame_step().1.after_frames((k - 1) as nat)
        }
    }
}

/// Whether `buf` holds the frames of `payloads` and nothing more: each payload in
/// turn, after a varint prefix that gives its length.
pub open spec fn holds_frames(buf: Seq<u8>, payloads: Seq<Seq<u8>>) -> bool
    decreases payloads.len(),
{
    if payloads.len() == 0 {
        buf.len() == 0
    } else {
        let n = varint_len(buf);
        let p = payloads[0];
        &&& varint_ok(buf)
        &&& leb128_value(buf.take(n as int)) == p.len()
        &&& n + p.len() <= buf.len()
        &&& buf.subrange(n as int, (n + p.len()) as int) == p
        &&& holds_frames(buf.skip((n + p.len()) as int), payloads.skip(1))
    }
}

/// A varint found from position `i` on ends after `i`, within the bytes.
proof fn lemma_varint_end_bound(b: Seq<u8>, i: nat)
    ensures
        varint_end(b, i) matches Some(m) ==> i < m <= b.len(),
    decreases 10 - i,
{
    if i < 10 && i < b.len() && b[i as int] >= 0x80 {
        lemma_varint_end_bound(b, i + 1);
    }
}

/// A varint reads the same in any prefix of the bytes that holds it whole.
proof fn lemma_varint_end_prefix(b: Seq<u8>, full: Seq<u8>, i: nat)
    requires
        b == full.take(b.len() as int),
        b.len() <= full.len(),
        varint_end(full, i) matches Some(m) && m <= b.len(),
    ensures
        varint_end(b, i) == varint_end(full, i),
    decreases 10 - i,
{
    lemma_varint_end_bound(full, i);
    assert(b[i as int] == full[i as int]);
    if full[i as int] >= 0x80 {
        lemma_varint_end_prefix(b, full, i + 1);
    }
}

/// Taking a frame from bytes read so far: where they are the start of a stream of
/// frames and hold its first frame whole, taking stays within them and gives the
/// first payload, and what is left is the start of the stream of the other frames.
pub proof fn lemma_frame_from_prefix(v: StreamerView, full: Seq<u8>, payloads: Seq<Seq<u8>>)
    requires
        !v.end,
        holds_frames(full, payloads),
        payloads.len() > 0,
        payloads[0].len() > 0,
        v.buf.len() <= full.len(),
        v.buf == full.take(v.buf.len() as int),
        varint_len(full) + payloads[0].len() <= v.buf.len(),
    ensures
        v.frame_fits(),
        v.next_frame_step().0 == Some(payloads[0]),
        ({
            let rest = full.skip((varint_len(full) + payloads[0].len()) as int);
            let w = v.next_frame_step().1;
            &&& holds_frames(rest, payloads.skip(1))
            &&& !w.end
            &&& w.symbols == v.symbols
            &&& w.buf.len() <= rest.len()
            &&& w.buf == rest.take(w.buf.len() as int)
        }),
{
    let b = v.buf;
    let n = varint_len(full);
    let p = payloads[0];
    lemma_varint_end_bound(full, 0);
    lemma_varint_end_prefix(b, full, 0);
    assert(varint_len(b) == n);
    if n == 10 {
        assert(b[9] == full[9]);
    }
    assert(varint_ok(b));
    assert(b.take(n as int) =~= full.take(n as int));
    assert(prefix_len(b) == n);
    assert(v.frame_size() == p.len());
    assert(v.after_prefix().take(p.len() as int) =~= full.subrange(n as int, (n + p.len()) as int));
    let rest = full.skip((n + p.len()) as int);
    let w = v.next_frame_step().1;
    assert(w.buf =~= b.skip((n + p.len()) as int));
    assert(w.buf =~= rest.take(w.buf.len() as int));
}

/// A stream whose bytes are the frames of non-empty payloads gives those payloads,
/// one per take, in order, each take staying within the bytes read; the take after
/// the last gives nothing and ends the stream.
pub proof fn lemma_frames_round_trip(v: StreamerView, payloads: Seq<Seq<u8>>)
    requires
        !v.end,
        holds_frames(v.buf, payloads),
        forall|i: int| 0 <= i < payloads.len() ==> #[trigger] payloads[i].len() > 0,
    ensures
        forall|i: nat| i <= payloads.len() ==> (#[trigger] v.after_frames(i)).frame_fits(),
        forall|i: nat| i < payloads.len() ==> (#[trigger] v.after_frames(i)).next_frame_step().0
            == Some(payloads[i as int]),
        v.after_frames(payloads.len()).next_frame_step().0 is None,
        v.after_frames(payloads.len() + 1).end,
    decreases payloads.len(),
{
    if payloads.len() == 0 {
        assert(v.after_frames(0) == v);
        assert(v.after_frames(1) == v.next_frame_step().1.after_frames(0));
    } else {
        let b = v.buf;
        let n = varint_len(b);
        let p = payloads[0];
        lemma_varint_end_bound(b, 0);
        assert(prefix_len(b) == n);
        assert(v.frame_size() == p.len());
        assert(b.len() >= 2);
        assert(v.after_prefix().take(p.len() as int) =~= p);
        assert(v.after_prefix().skip(p.len() as int) =~= b.skip((n + p.len()) as int));
        let w = v.next_frame_step().1;
        let rest = payloads.skip(1);
        assert forall|i: int| 0 <= i < rest.len() implies #[trigger] rest[i].len() > 0 by {
            assert(rest[i] == payloads[i + 1]);
        }
        lemma_frames_round_trip(w, rest);
        assert forall|i: nat| i <= payloads.len() implies (#[trigger] v.after_frames(i)).frame_fits() by {
            if i > 0 {
                assert(v.after_frames(i) == w.after_frames((i - 1) as nat));
            } else {
                assert(v.after_frames(0) == v);
            }
        }
        assert forall|i: nat| i < payloads.len() implies (#[trigger] v.after_frames(i)).next_frame_step().0
            == Some(payloads[i as int]) by {
            if i > 0 {
                assert(v.after_frames(i) == w.after_frames((i - 1) as nat));
                assert(rest[i - 1] == payloads[i as int]);
            } else {
                assert(v.after_frames(0) == v);
            }
        }
        assert(v.after_frames(payloads.len()) == w.after_frames(rest.len()));
        assert(v.after_frames(payloads.len() + 1) == w.after_frames(rest.len() + 1));
    }
}

/// Splits a trace of length-prefixed messages into frames, keeping the symbols of
/// interest. The bytes are handed in as they are read.
pub struct Streamer {
    buf: Vec<u8>,
    end: bool,
    symbol_of_interest: Vec<String>,
}

/// The views of a sequence of strings.
pub open spec fn string_views(s: Seq<String>) -> Seq<Seq<char>> {
    s.map_values(|t: String| t@)
}

/// The views of a sequence of string slices.
pub open spec fn str_views(s: Seq<&str>) -> Seq<Seq<char>> {
    s.map_values(|t: &str| t@)
}

impl View for Streamer {
    type V = StreamerView;

    closed spec fn view(&self) -> StreamerView {
        StreamerView { buf: self.buf@, end: self.end, symbols: string_views(self.symbol_of_interest@) }
    }
}

impl Streamer {
    /// A streamer with nothing read yet, keeping the instructions of the given
    /// symbols, or all instructions where none is given.
    pub fn new(symbol_of_interest: &[&str]) -> (r: Streamer)
        ensures
            r@ == (StreamerView { buf: Seq::empty(), end: false, symbols: str_views(symbol_of_interest@) }),
    {
        let mut symbols: Vec<String> = Vec::new();
        let mut i: usize = 0;
        while i < symbol_of_interest.len()
            invariant
                i <= symbol_of_interest@.len(),
                symbols@.len() == i,
                string_views(symbols@) == str_views(symbol_of_interest@.take(i as int)),
            decreases symbol_of_interest@.len() - i,
        {
            let sym: &str = symbol_of_interest[i];
            let s = sym.to_owned();
            let ghost before = symbols@;
            symbols.push(s);
            proof {
                assert(s@ == symbol_of_interest@[i as int]@);
                assert(symbols@ == before.push(s));
                assert(str_views(symbol_of_interest@.take(i + 1))[i as int] == symbol_of_interest@[i as int]@);
                assert forall|j: int| 0 <= j < i + 1 implies #[trigger] string_views(symbols@)[j]
                    == str_views(symbol_of_interest@.take(i + 1))[j] by {
                    if j < i {
                        assert(string_views(before)[j] == str_views(symbol_of_interest@.take(i as int))[j]);
                        assert(symbols@[j] == before[j]);
                    }
                }
                assert(string_views(symbols@) =~= str_views(symbol_of_interest@.take(i + 1)));
            }
            i = i + 1;
        }
        proof {
            assert(symbol_of_interest@.take(symbol_of_interest@.len() as int) =~= symbol_of_interest@);
        }
        Streamer { buf: Vec::new(), end: false, symbol_of_interest: symbols }
    }

    /// Whether more bytes are to be read before the next frame is taken: where the
    /// stream has not ended and fewer than 256 bytes are left.
    pub fn needs_input(&self) -> (r: bool)
        ensures
            r == (!self@.end && self@.buf.len() < 256),
    {
        !self.end && self.buf.len() < 256
    }

    /// Appends bytes read from the trace.
    pub fn feed(&mut self, bytes: &[u8])
        ensures
            final(self)@ == (StreamerView { buf: old(self)@.buf + bytes@, ..old(self)@ }),
    {
        let mut i: usize = 0;
        while i < bytes.len()
            invariant
                i <= bytes@.len(),
                self@ == (StreamerView { buf: old(self)@.buf + bytes@.take(i as int), ..old(self)@ }),
            decreases bytes@.len() - i,
        {
            self.buf.push(bytes[i]);
            proof {
                assert(self.buf@ =~= old(self)@.buf + bytes@.take(i + 1));
            }
            i = i + 1;
        }
        proof {
            assert(bytes@.take(bytes@.len() as int) =~= bytes@);
        }
    }

    /// Whether taking the next frame stays within the bytes read.
    pub fn frame_fits(&self) -> (r: bool)
        ensures
            r == self@.frame_fits(),
    {
        if self.end || self.buf.len() < 2 {
            return true;
        }
        let (size, rest) = decode_varint(self.buf.as_slice());
        let size = match size {
            Some(v) => v,
            None => 0,
        };
        size <= rest.len() as u64
    }

    /// Takes the next frame: none where the stream has ended, or where fewer than two
    /// bytes are left, which ends the stream; otherwise the bytes that the length
    /// prefix announces, after the prefix.
    pub fn next_frame(&mut self) -> (r: Option<Vec<u8>>)
        requires
            old(self)@.frame_fits(),
        ensures
            old(self)@.end ==> r is None && final(self)@ == old(self)@,
            !old(self)@.end && old(self)@.buf.len() < 2 ==> r is None
                && final(self)@ == (StreamerView { end: true, ..old(self)@ }),
            !old(self)@.end && old(self)@.buf.len() >= 2 ==> (r matches Some(f)
                && f@ == old(self)@.after_prefix().take(old(self)@.frame_size() as int)
                && final(self)@ == (StreamerView {
                    buf: old(self)@.after_prefix().skip(old(self)@.frame_size() as int),
                    ..old(self)@
                })),
            (match r {
                Some(f) => Some(f@),
                None => None,
            }) == old(self)@.next_frame_step().0,
            final(self)@ == old(self)@.next_frame_step().1,
            !old(self)@.end && old(self)@.buf.len() >= 2 && varint_ok(old(self)@.buf) ==> ({
                let n = varint_len(old(self)@.buf);
                let size = leb128_value(old(self)@.buf.take(n as int));
                r matches Some(f) && f@ == old(self)@.buf.subrange(n as int, (n + size) as int)
                    && final(self)@.buf == old(self)@.buf.skip((n + size) as int)
            }),
    {
        if self.end {
            return None;
        }
        if self.buf.len() < 2 {
            self.end = true;
            return None;
        }
        let (size, rest) = decode_varint(self.buf.as_slice());
        let consumed = self.buf.len() - rest.len();
        let ghost b = self.buf@;
        proof {
            assert(b.skip(consumed as int) == rest@);
        }
        let frame = self.take_decoded_frame(size, consumed);
        proof {
            let k = size.unwrap_or(0);
            assert(frame@ =~= rest@.take(k as int));
            assert(b.skip(consumed + k) =~= rest@.skip(k as int));
            assert(frame@ == b.subrange(consumed as int, consumed + k));
        }
        Some(frame)
    }

    /// Takes a frame whose length prefix, `consumed` bytes long, decoded to `size`
    /// (to zero where it did not decode): the `size` bytes after the prefix; the
    /// bytes after those are left.
    pub fn take_decoded_frame(&mut self, size: Option<u64>, consumed: usize) -> (r: Vec<u8>)
        requires
            consumed <= old(self)@.buf.len(),
            size.unwrap_or(0) <= old(self)@.buf.len() - consumed,
        ensures
            r@ == old(self)@.buf.subrange(consumed as int, consumed + size.unwrap_or(0)),
            final(self)@ == (StreamerView {
                buf: old(self)@.buf.skip(consumed + size.unwrap_or(0)),
                ..old(self)@
            }),
    {
        let wanted: u64 = match size {
            Some(v) => v,
            None => 0,
        };
        assert(wanted == size.unwrap_or(0));
        let n = self.buf.len();
        assert(wanted <= usize::MAX);
        let len = wanted as usize;
        assert(len == wanted);
        let ghost b = self.buf@;
        let mut frame = self.buf.split_off(consumed);
        assert(frame@ == b.subrange(consumed as int, b.len() as int));
        let remaining = frame.split_off(len);
        self.buf = remaining;
        proof {
            assert(frame@ =~= b.subrange(consumed as int, consumed + len));
            assert(self.buf@ =~= b.skip(consumed + len));
        }
        frame
    }

    /// Takes the next frame where it stays within the bytes read (see `next_frame`);
    /// gives none, with the streamer unchanged, where it does not.
    pub fn checked_next_frame(&mut self) -> (r: Option<Option<Vec<u8>>>)
        ensures
            !old(self)@.frame_fits() <==> r is None,
            r is None ==> final(self)@ == old(self)@,
            old(self)@.frame_fits() && old(self)@.end ==> r == Some(None::<Vec<u8>>) && final(self)@ == old(self)@,
            old(self)@.frame_fits() && !old(self)@.end && old(self)@.buf.len() < 2 ==> r == Some(None::<Vec<u8>>)
                && final(self)@ == (StreamerView { end: true, ..old(self)@ }),
            old(self)@.frame_fits() && !old(self)@.end && old(self)@.buf.len() >= 2 ==> (r matches Some(Some(f))
                && f@ == old(self)@.after_prefix().take(old(self)@.frame_size() as int)
                && final(self)@ == (StreamerView {
                    buf: old(self)@.after_prefix().skip(old(self)@.frame_size() as int),
                    ..old(self)@
                })),
    {
        if self.frame_fits() {
            Some(self.next_frame())
        } else {
            None
        }
    }

    /// Ends the stream, as a frame that fails to decode does.
    pub fn decode_failed(&mut self)
        ensures
            final(self)@ == (StreamerView { end: true, ..old(self)@ }),
    {
        self.end = true;
    }

    /// Whether the stream has ended.
    pub fn is_end(&self) -> (r: bool)
        ensures
            r == self@.end,
    {
        self.end
    }

    /// Whether a message is wanted: every message is where no symbol was given;
    /// otherwise those whose symbol, or the empty string where it has none, is one
    /// of the symbols given.
    pub fn is_of_interest(&self, msg: &UtMsg) -> (r: bool)
        ensures
            r == (self@.symbols.len() == 0 || self@.symbols.contains(msg.inst.spec_symbol())),
    {
        if self.symbol_of_interest.len() == 0 {
            return true;
        }
        let mut i: usize = 0;
        while i < self.symbol_of_interest.len()
            invariant
                i <= self.symbol_of_interest@.len(),
                forall|j: int| 0 <= j < i ==> #[trigger] self@.symbols[j] != msg.inst.spec_symbol(),
            decreases self.symbol_of_interest@.len() - i,
        {
            let symbol = &self.symbol_of_interest[i];
            let matches = match &msg.inst.symbol {
                Some(s) => *s == *symbol,
                None => symbol.as_str().is_empty(),
            };
            proof {
                assert(self@.symbols[i as int] == symbol@);
            }
            if matches {
                assert(self@.symbols[i as int] == msg.inst.spec_symbol());
                return true;
            }
            i = i + 1;
        }
        false
    }
}

} // verus!
