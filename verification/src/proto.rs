//! Request/response framing on the request and indication characteristics:
//! the framed message (constant token, little-endian length, JSON payload),
//! the property requests, the reassembly of the indication stream, and what
//! the property values mean.

use vstd::prelude::*;
use vstd::string::*;
use vstd::utf8::encode_utf8;
use crate::wire::{le32, le32_value, le32_bytes, le32_read, push_all, lemma_le32_roundtrip};
use crate::text::{str_eq, parse_u32, parse_u32_spec, key_lt, key_less, lemma_key_lt_total, lemma_bytes_lt_transitive};
use crate::job::{fragments, fragment, fragment_count};

verus! {

/// Constant token seen in every message in both directions.
pub const TOKEN: [u8; 16] = [0x96, 0xc2, 0xf7, 0x4a, 0x1d, 0x21, 0x42, 0x32, 0x86, 0x78, 0x20, 0xef, 0xe9, 0x7b, 0xc2, 0xd3];

/// The token as a byte sequence.
pub open spec fn token_bytes() -> Seq<u8> {
    seq![0x96u8, 0xc2, 0xf7, 0x4a, 0x1d, 0x21, 0x42, 0x32, 0x86, 0x78, 0x20, 0xef, 0xe9, 0x7b, 0xc2, 0xd3]
}

/// The subscribe request byte for byte as captured, spacing included.
pub const SUBSCRIBE_REQUEST: &'static str = r#"{"PropertySubscribeRequests":[{"ID": "0006"},{"ID": "0005"},{"ID": "000A"},{"ID": "001C"},{"ID": "0021"},{"ID": "0027"},{"ID": "0025"},{"ID": "0009"},{"ID": "0029"},{"ID": "0001"},{"ID": "0024"},{"ID": "0026"},{"ID": "000C"},{"ID": "000D"},{"ID": "000E"},{"ID": "000F"},{"ID": "0013"},{"ID": "0016" },{"ID": "0066"},{"ID": "0061"},{"ID": "005A"},{"ID": "004D"},{"ID": "001F" },{"ID": "0020" }]}"#;

pub const PROP_BATTERY: &'static str = "0001";
pub const PROP_CUT: &'static str = "0004";
pub const PROP_FEED: &'static str = "0007";
pub const PROP_LAST_JOB_FAILED: &'static str = "0009";
pub const PROP_WIDTH_MILS: &'static str = "000C";
pub const PROP_REMAINING_PCT: &'static str = "0016";
pub const PROP_READY: &'static str = "001F";
pub const PROP_FIRMWARE: &'static str = "0020";
pub const PROP_JOB_STATUS: &'static str = "0029";
pub const PROP_PART_NUMBER: &'static str = "004D";

/// The JSON text of a request that sets property `id` to `value`.
pub open spec fn set_request_text(id: Seq<char>, value: Seq<char>) -> Seq<char> {
    "{\"PropertySetRequests\":[{\"ID\": \""@ + id + "\", \"Value\": \""@ + value + "\"}]}"@
}

/// A request that sets property `id` to `value` (feed and cut are such writes).
pub fn set_request(id: &str, value: &str) -> (s: String)
    ensures
        s@ == set_request_text(id@, value@),
{
    let mut s = String::from_str("{\"PropertySetRequests\":[{\"ID\": \"");
    s.append(id);
    s.append("\", \"Value\": \"");
    s.append(value);
    s.append("\"}]}");
    s
}

/// A framed message: token, payload length as a little-endian `u32` (kept to
/// 32 bits), payload.
pub open spec fn framed(payload: Seq<u8>) -> Seq<u8> {
    token_bytes() + le32(payload.len() as u32) + payload
}

/// token + u32 LE length + payload.
pub fn frame(payload: &[u8]) -> (out: Vec<u8>)
    ensures
        out@ == framed(payload@),
{
    let mut out: Vec<u8> = Vec::new();
    push_all(&mut out, &TOKEN);
    assert(TOKEN@ =~= token_bytes());
    let len = le32_bytes(#[verifier::truncate] (payload.len() as u32));
    push_all(&mut out, &len);
    push_all(&mut out, payload);
    out
}

/// Fragments for the request characteristic: same 3-byte headers as jobs.
pub fn request_fragments(json: &str) -> (frags: Vec<Vec<u8>>)
    ensures
        frags@.len() == fragment_count(framed(json.spec_bytes()).len()),
        forall|i: int|
            0 <= i < frags@.len() ==> #[trigger] frags@[i]@ == fragment(framed(json.spec_bytes()), i as nat),
{
    let framed_bytes = frame(json.as_bytes());
    fragments(framed_bytes.as_slice())
}

/// The lowercase hexadecimal digit for `n` (0 to 15).
pub open spec fn hex_digit(n: u8) -> char {
    if n < 10 {
        (48 + n) as char
    } else {
        (87 + n) as char
    }
}

/// Bytes as lowercase hexadecimal, two digits per byte, high nibble first.
pub open spec fn hex_lower(b: Seq<u8>) -> Seq<char>
    decreases b.len(),
{
    if b.len() == 0 {
        Seq::empty()
    } else {
        seq![hex_digit(b[0] / 16), hex_digit(b[0] % 16)] + hex_lower(b.drop_first())
    }
}

/// `hex::encode`: the bytes as lowercase hexadecimal, two digits per byte, high
/// nibble first (the crate maps each nibble through "0123456789abcdef").
#[verifier::external_body]
fn hex_encode(bytes: &[u8]) -> (s: String)
    ensures
        s@ == hex_lower(bytes@),
{
    hex::encode(bytes)
}

/// The text reported for a message whose token is not the constant one.
pub open spec fn token_error(token: Seq<u8>) -> Seq<char> {
    "unexpected token "@ + hex_lower(token)
}

/// What one complete message contributes to the output: its payload, preceded
/// by an error naming the token when the token is not the constant one.
pub open spec fn message_results(token: Seq<u8>, payload: Seq<u8>) -> Seq<Result<Seq<u8>, Seq<char>>> {
    if token == token_bytes() {
        seq![Ok(payload)]
    } else {
        seq![Err(token_error(token)), Ok(payload)]
    }
}

/// The payload length that a buffered message header announces.
pub open spec fn announced_len(buf: Seq<u8>) -> nat {
    le32_value(buf.subrange(16, 20))
}

/// Splitting a byte stream into messages: while the buffer holds a whole
/// header and the payload it announces, that message is taken off the front;
/// what remains is kept for later.
pub open spec fn drain(buf: Seq<u8>) -> (Seq<Result<Seq<u8>, Seq<char>>>, Seq<u8>)
    decreases buf.len(),
{
    if buf.len() < 20 || buf.len() < 20 + announced_len(buf) {
        (Seq::empty(), buf)
    } else {
        let n = 20 + announced_len(buf);
        let (more, rest) = drain(buf.skip(n as int));
        (message_results(buf.take(16), buf.subrange(20, n as int)) + more, rest)
    }
}

/// The contents of reassembly results: payload bytes or error text.
pub open spec fn results_view(v: Seq<Result<Vec<u8>, String>>) -> Seq<Result<Seq<u8>, Seq<char>>> {
    v.map_values(|r: Result<Vec<u8>, String>| match r {
        Ok(p) => Ok(p@),
        Err(e) => Err(e@),
    })
}

/// Reassembles the indication byte stream into messages.
pub struct Reassembler {
    buf: Vec<u8>,
}

impl View for Reassembler {
    type V = Seq<u8>;

    /// The bytes received and not yet part of a complete message.
    closed spec fn view(&self) -> Seq<u8> {
        self.buf@
    }
}

impl Default for Reassembler {
    /// A reassembler that has received nothing.
    fn default() -> (r: Self)
        ensures
            r@ == Seq::<u8>::empty(),
    {
        Reassembler::new()
    }
}

impl Reassembler {
    /// A reassembler that has received nothing.
    pub fn new() -> (r: Self)
        ensures
            r@ == Seq::<u8>::empty(),
    {
        Reassembler { buf: Vec::new() }
    }

    /// Appends `bytes` to what was buffered and takes every complete message
    /// off the front: for each, an error naming the token when it is not the
    /// constant one, then the payload (for the caller to parse as JSON).
    pub fn push(&mut self, bytes: &[u8]) -> (out: Vec<Result<Vec<u8>, String>>)
        ensures
            (results_view(out@), final(self)@) == drain(old(self)@ + bytes@),
    {
        push_all(&mut self.buf, bytes);
        let ghost all = self.buf@;
        let mut out: Vec<Result<Vec<u8>, String>> = Vec::new();
        let mut pos: usize = 0;
        let blen = self.buf.len();
        assert(all.len() == blen);
        assert(all.skip(0) =~= all);
        assert(results_view(out@) =~= Seq::empty());
        while pos < self.buf.len() && self.buf.len() - pos >= 20
            invariant
                all == self.buf@,
                all.len() <= usize::MAX,
                pos <= all.len(),
                results_view(out@) + drain(all.skip(pos as int)).0 == drain(all).0,
                drain(all.skip(pos as int)).1 == drain(all).1,
            ensures
                all == self.buf@,
                pos <= all.len(),
                results_view(out@) + drain(all.skip(pos as int)).0 == drain(all).0,
                drain(all.skip(pos as int)).1 == drain(all).1,
                drain(all.skip(pos as int)).0 == Seq::<Result<Seq<u8>, Seq<char>>>::empty(),
                drain(all.skip(pos as int)).1 == all.skip(pos as int),
            decreases all.len() - pos,
        {
            let ghost cur = all.skip(pos as int);
            let len = le32_read(self.buf[pos + 16], self.buf[pos + 17], self.buf[pos + 18], self.buf[pos + 19]);
            assert(cur.subrange(16, 20) =~= seq![all[pos + 16], all[pos + 17], all[pos + 18], all[pos + 19]]);
            if (self.buf.len() - pos) as u64 - 20 < len as u64 {
                break;
            }
            let n: usize = 20 + len as usize;
            let mut token: Vec<u8> = Vec::new();
            let mut i: usize = 0;
            while i < 16
                invariant
                    i <= 16,
                    pos + 20 <= all.len() <= usize::MAX,
                    all == self.buf@,
                    token@ == all.subrange(pos as int, pos + i),
                decreases 16 - i,
            {
                token.push(self.buf[pos + i]);
                i = i + 1;
                assert(all.subrange(pos as int, pos + i) =~= all.subrange(pos as int, pos + i - 1).push(all[pos + i - 1]));
            }
            let mut payload: Vec<u8> = Vec::new();
            let mut j: usize = pos + 20;
            while j < pos + n
                invariant
                    pos + 20 <= j <= pos + n <= all.len() <= usize::MAX,
                    all == self.buf@,
                    payload@ == all.subrange(pos + 20, j as int),
                decreases pos + n - j,
            {
                payload.push(self.buf[j]);
                j = j + 1;
                assert(all.subrange(pos + 20, j as int) =~= all.subrange(pos + 20, j - 1).push(all[j - 1]));
            }
            let ghost before = out@;
            let mut k: usize = 0;
            let mut same = true;
            while k < 16
                invariant
                    k <= 16,
                    token@.len() == 16,
                    same == (forall|m: int| 0 <= m < k ==> token@[m] == TOKEN@[m]),
                decreases 16 - k,
            {
                if token[k] != TOKEN[k] {
                    same = false;
                }
                k = k + 1;
            }
            assert(TOKEN@ =~= token_bytes());
            assert(same == (token@ == token_bytes())) by {
                if same {
                    assert(token@ =~= token_bytes());
                }
            }
            if !same {
                let mut msg = String::from_str("unexpected token ");
                let h = hex_encode(token.as_slice());
                msg.append(h.as_str());
                out.push(Err(msg));
            }
            out.push(Ok(payload));
            proof {
                assert(cur.take(16) =~= token@);
                assert(cur.subrange(20, n as int) =~= all.subrange(pos + 20, pos + n));
                assert(cur.skip(n as int) =~= all.skip(pos + n));
                assert(results_view(out@) =~= results_view(before) + message_results(cur.take(16), cur.subrange(20, n as int)));
            }
            pos = pos + n;
        }
        let mut rest: Vec<u8> = Vec::new();
        let mut r: usize = pos;
        while r < self.buf.len()
            invariant
                pos <= r <= all.len(),
                all == self.buf@,
                rest@ == all.subrange(pos as int, r as int),
            decreases all.len() - r,
        {
            rest.push(self.buf[r]);
            r = r + 1;
            assert(all.subrange(pos as int, r as int) =~= all.subrange(pos as int, r - 1).push(all[r - 1]));
        }
        proof {
            assert(all.subrange(pos as int, all.len() as int) =~= all.skip(pos as int));
        }
        self.buf = rest;
        out
    }
}

/// Reassembly does not depend on how the stream is cut: draining `x + y` at
/// once gives the messages of `x`, then those of what `x` left over followed by
/// `y`, and the same leftover. So pushing `a` and then `b` into a reassembler
/// yields the same messages, in the same order, as pushing `a + b`.
pub proof fn lemma_drain_split(x: Seq<u8>, y: Seq<u8>)
    ensures
        drain(x + y).0 == drain(x).0 + drain(drain(x).1 + y).0,
        drain(x + y).1 == drain(drain(x).1 + y).1,
    decreases x.len(),
{
    let xy = x + y;
    if x.len() < 20 || x.len() < 20 + announced_len(x) {
        assert(drain(x).1 == x);
        assert(drain(x).0 =~= Seq::empty());
        assert(drain(x + y).0 =~= drain(x).0 + drain(drain(x).1 + y).0);
    } else {
        let n = 20 + announced_len(x);
        assert(xy.subrange(16, 20) =~= x.subrange(16, 20));
        assert(announced_len(xy) == announced_len(x));
        assert(xy.take(16) =~= x.take(16));
        assert(xy.subrange(20, n as int) =~= x.subrange(20, n as int));
        assert(xy.skip(n as int) =~= x.skip(n as int) + y);
        lemma_drain_split(x.skip(n as int), y);
        let mr = message_results(x.take(16), x.subrange(20, n as int));
        assert(drain(x).0 == mr + drain(x.skip(n as int)).0);
        assert(drain(xy).0 == mr + drain(xy.skip(n as int)).0);
        assert(drain(xy).0 =~= drain(x).0 + drain(drain(x).1 + y).0);
    }
}

/// A framed payload, pushed into an empty reassembler, comes back out as
/// exactly that payload, with nothing left over.
pub proof fn lemma_frame_roundtrip(payload: Seq<u8>)
    requires
        payload.len() <= u32::MAX,
    ensures
        drain(framed(payload)) == (seq![Ok::<Seq<u8>, Seq<char>>(payload)], Seq::<u8>::empty()),
{
    let f = framed(payload);
    let len = payload.len() as u32;
    lemma_le32_roundtrip(len);
    assert(f.subrange(16, 20) =~= le32(len));
    assert(announced_len(f) == payload.len());
    let n = 20 + payload.len();
    assert(f.take(16) =~= token_bytes());
    assert(f.subrange(20, n as int) =~= payload);
    assert(f.skip(n as int) =~= Seq::<u8>::empty());
    assert(drain(Seq::<u8>::empty()) == (Seq::<Result<Seq<u8>, Seq<char>>>::empty(), Seq::<u8>::empty()));
    assert(drain(f).0 =~= seq![Ok::<Seq<u8>, Seq<char>>(payload)]);
}

/// A map from text keys to values, kept as a list of entries in increasing
/// key order (the order of the keys' UTF-8 bytes, as a `BTreeMap<String, _>`
/// keeps them).
#[derive(Debug)]
pub struct TextMap<V> {
    entries: Vec<(String, V)>,
}

/// The property values the printer reported, by property id.
pub type Properties = TextMap<String>;

/// Whether the keys of `e` increase along it.
pub open spec fn sorted_keys<V>(e: Seq<(String, V)>) -> bool {
    forall|i: int, j: int| 0 <= i < j < e.len() ==> key_lt((#[trigger] e[i]).0@, (#[trigger] e[j]).0@)
}

impl<V> View for TextMap<V> {
    type V = Map<Seq<char>, V>;

    /// Each key, mapped to the value of the entry that holds it.
    closed spec fn view(&self) -> Map<Seq<char>, V> {
        Map::new(
            |k: Seq<char>| exists|i: int| 0 <= i < self.entries@.len() && (#[trigger] self.entries@[i]).0@ == k,
            |k: Seq<char>|
                self.entries@[choose|i: int| 0 <= i < self.entries@.len() && (#[trigger] self.entries@[i]).0@ == k].1,
        )
    }
}

impl<V> TextMap<V> {
    /// No two entries share a key, and the keys increase along the entries.
    pub closed spec fn wf(&self) -> bool {
        &&& forall|i: int, j: int|
            0 <= i < self.entries@.len() && 0 <= j < self.entries@.len() && i != j
                ==> (#[trigger] self.entries@[i]).0@ != (#[trigger] self.entries@[j]).0@
        &&& sorted_keys(self.entries@)
    }

    proof fn lemma_lookup(&self, i: int)
        requires
            self.wf(),
            0 <= i < self.entries@.len(),
        ensures
            self@.contains_key(self.entries@[i].0@),
            self@[self.entries@[i].0@] == self.entries@[i].1,
    {
        let k = self.entries@[i].0@;
        assert(self@.contains_key(k));
        let c = choose|c: int| 0 <= c < self.entries@.len() && (#[trigger] self.entries@[c]).0@ == k;
        assert(0 <= c < self.entries@.len() && self.entries@[c].0@ == k);
        assert(c == i);
    }

    /// An empty map.
    pub fn new() -> (m: Self)
        ensures
            m.wf(),
            m@ == Map::<Seq<char>, V>::empty(),
    {
        let m = TextMap { entries: Vec::new() };
        assert(m@ =~= Map::<Seq<char>, V>::empty());
        m
    }

    fn find(&self, key: &str) -> (r: Option<usize>)
        requires
            self.wf(),
        ensures
            match r {
                Some(i) => i < self.entries@.len() && self.entries@[i as int].0@ == key@,
                None => !self@.contains_key(key@),
            },
    {
        let mut i: usize = 0;
        while i < self.entries.len()
            invariant
                i <= self.entries@.len(),
                forall|j: int| 0 <= j < i ==> (#[trigger] self.entries@[j]).0@ != key@,
            decreases self.entries@.len() - i,
        {
            if str_eq(self.entries[i].0.as_str(), key) {
                return Some(i);
            }
            i = i + 1;
        }
        None
    }

    /// The value stored under `key`, if any.
    pub fn get(&self, key: &str) -> (r: Option<&V>)
        requires
            self.wf(),
        ensures
            match r {
                Some(v) => self@.contains_key(key@) && *v == self@[key@],
                None => !self@.contains_key(key@),
            },
    {
        match self.find(key) {
            Some(i) => {
                proof {
                    self.lemma_lookup(i as int);
                }
                Some(&self.entries[i].1)
            },
            None => None,
        }
    }

    /// Stores `value` under `key`, replacing any value it had.
    pub fn insert(&mut self, key: String, value: V)
        requires
            old(self).wf(),
        ensures
            final(self).wf(),
            final(self)@ == old(self)@.insert(key@, value),
    {
        let ghost k = key@;
        match self.find(key.as_str()) {
            Some(i) => {
                self.entries.set(i, (key, value));
                proof {
                    let e = self.entries@;
                    assert forall|a: int, b: int|
                        0 <= a < e.len() && 0 <= b < e.len() && a != b
                            implies (#[trigger] e[a]).0@ != (#[trigger] e[b]).0@ by {
                        assert(old(self).entries@[a].0@ != old(self).entries@[b].0@ || a == i || b == i);
                        if a == i {
                            assert(old(self).entries@[i as int].0@ == k);
                        }
                        if b == i {
                            assert(old(self).entries@[i as int].0@ == k);
                        }
                    }
                    assert forall|kk: Seq<char>| #[trigger] self@.contains_key(kk) == old(self)@.insert(k, value).contains_key(kk) by {
                        if kk == k {
                            assert(e[i as int].0@ == k);
                        } else if old(self)@.contains_key(kk) {
                            let c = choose|c: int| 0 <= c < old(self).entries@.len() && (#[trigger] old(self).entries@[c]).0@ == kk;
                            assert(e[c].0@ == kk);
                        } else if self@.contains_key(kk) {
                            let c = choose|c: int| 0 <= c < e.len() && (#[trigger] e[c]).0@ == kk;
                            assert(old(self).entries@[c].0@ == kk);
                        }
                    }
                    assert forall|kk: Seq<char>| self@.contains_key(kk) implies #[trigger] self@[kk] == old(self)@.insert(k, value)[kk] by {
                        let c = choose|c: int| 0 <= c < e.len() && (#[trigger] e[c]).0@ == kk;
                        self.lemma_lookup(c);
                        if kk != k {
                            assert(c != i);
                            old(self).lemma_lookup(c);
                        }
                    }
                    assert(self@ =~= old(self)@.insert(k, value));
                }
            },
            None => {
                let mut p: usize = 0;
                while p < self.entries.len() && !key_less(key.as_str(), self.entries[p].0.as_str())
                    invariant
                        self.wf(),
                        *self == *old(self),
                        key@ == k,
                        !old(self)@.contains_key(k),
                        p <= self.entries@.len(),
                        forall|j: int| 0 <= j < p ==> key_lt((#[trigger] self.entries@[j]).0@, k),
                    decreases self.entries@.len() - p,
                {
                    proof {
                        let kp = self.entries@[p as int].0@;
                        lemma_key_lt_total(k, kp);
                        if kp == k {
                            assert(old(self)@.contains_key(k));
                        }
                    }
                    p = p + 1;
                }
                let ghost before = self.entries@;
                self.entries.insert(p, (key, value));
                proof {
                    let e = self.entries@;
                    let n = before.len();
                    assert(e == before.insert(p as int, e[p as int]));
                    assert forall|a: int| 0 <= a < e.len() && a != p implies (#[trigger] e[a]) == before[if a < p { a } else { a - 1 }] by {}
                    assert forall|a: int, b: int|
                        0 <= a < e.len() && 0 <= b < e.len() && a != b
                            implies (#[trigger] e[a]).0@ != (#[trigger] e[b]).0@ by {
                        if a == p {
                            assert(!old(self)@.contains_key(k));
                            assert(e[b] == before[if b < p { b } else { b - 1 }]);
                        } else if b == p {
                            assert(!old(self)@.contains_key(k));
                            assert(e[a] == before[if a < p { a } else { a - 1 }]);
                        } else {
                            assert(e[a] == before[if a < p { a } else { a - 1 }]);
                            assert(e[b] == before[if b < p { b } else { b - 1 }]);
                        }
                    }
                    assert forall|a: int, b: int| 0 <= a < b < e.len() implies key_lt((#[trigger] e[a]).0@, (#[trigger] e[b]).0@) by {
                        if b == p {
                            assert(e[a] == before[a]);
                        } else if a == p {
                            assert(e[b] == before[b - 1]);
                            assert(key_lt(k, before[p as int].0@));
                            if b - 1 > p {
                                assert(key_lt(before[p as int].0@, before[b - 1].0@));
                                lemma_bytes_lt_transitive(encode_utf8(k), encode_utf8(before[p as int].0@), encode_utf8(before[b - 1].0@));
                            }
                        } else {
                            assert(e[a] == before[if a < p { a } else { a - 1 }]);
                            assert(e[b] == before[if b < p { b } else { b - 1 }]);
                        }
                    }
                    assert forall|kk: Seq<char>| #[trigger] self@.contains_key(kk) == old(self)@.insert(k, value).contains_key(kk) by {
                        if kk == k {
                            assert(e[p as int].0@ == k);
                        } else if old(self)@.contains_key(kk) {
                            let c = choose|c: int| 0 <= c < old(self).entries@.len() && (#[trigger] old(self).entries@[c]).0@ == kk;
                            let c2 = if c < p { c } else { c + 1 };
                            assert(e[c2] == before[c]);
                            assert(e[c2].0@ == kk);
                        } else if self@.contains_key(kk) {
                            let c = choose|c: int| 0 <= c < e.len() && (#[trigger] e[c]).0@ == kk;
                            let c0 = if c < p { c } else { c - 1 };
                            assert(c != p);
                            assert(old(self).entries@[c0].0@ == kk);
                        }
                    }
                    assert forall|kk: Seq<char>| self@.contains_key(kk) implies #[trigger] self@[kk] == old(self)@.insert(k, value)[kk] by {
                        let c = choose|c: int| 0 <= c < e.len() && (#[trigger] e[c]).0@ == kk;
                        self.lemma_lookup(c);
                        if kk != k {
                            assert(c != p);
                            let c0 = if c < p { c } else { c - 1 };
                            assert(e[c] == before[c0]);
                            old(self).lemma_lookup(c0);
                        }
                    }
                    assert(self@ =~= old(self)@.insert(k, value));
                }
            },
        }
    }

    /// The number of keys.
    pub fn len(&self) -> (n: usize)
        requires
            self.wf(),
        ensures
            n == self@.dom().len(),
    {
        proof {
            self.lemma_dom_len();
        }
        self.entries.len()
    }

    proof fn lemma_dom_len(&self)
        requires
            self.wf(),
        ensures
            self@.dom().finite(),
            self@.dom().len() == self.entries@.len(),
    {
        let keys = self.entries@.map_values(|e: (String, V)| e.0@);
        assert(self@.dom() =~= keys.to_set()) by {
            assert forall|k: Seq<char>| self@.dom().contains(k) implies keys.to_set().contains(k) by {
                let c = choose|c: int| 0 <= c < self.entries@.len() && (#[trigger] self.entries@[c]).0@ == k;
                assert(keys[c] == k);
            }
            assert forall|k: Seq<char>| keys.to_set().contains(k) implies self@.dom().contains(k) by {
                let c = choose|c: int| 0 <= c < keys.len() && keys[c] == k;
                assert(self.entries@[c].0@ == k);
            }
        }
        assert(keys.no_duplicates()) by {
            assert forall|a: int, b: int| 0 <= a < keys.len() && 0 <= b < keys.len() && a != b implies keys[a] != keys[b] by {
                assert(self.entries@[a].0@ != self.entries@[b].0@);
            }
        }
        keys.unique_seq_to_set();
    }

    /// The entries, one per key, in increasing key order.
    pub fn entries(&self) -> (e: &Vec<(String, V)>)
        requires
            self.wf(),
        ensures
            e@.len() == self@.dom().len(),
            sorted_keys(e@),
            forall|i: int| 0 <= i < e@.len() ==> self@.contains_key((#[trigger] e@[i]).0@) && self@[e@[i].0@] == e@[i].1,
            forall|k: Seq<char>| self@.contains_key(k) ==> exists|i: int| 0 <= i < e@.len() && (#[trigger] e@[i]).0@ == k,
    {
        proof {
            self.lemma_dom_len();
            assert forall|i: int| 0 <= i < self.entries@.len() implies self@.contains_key((#[trigger] self.entries@[i]).0@) && self@[self.entries@[i].0@] == self.entries@[i].1 by {
                self.lemma_lookup(i);
            }
        }
        &self.entries
    }
}

/// One entry of a `PropertyGetResponses` message.
#[derive(Debug)]
pub struct PropertyEntry {
    pub id: String,
    pub value: String,
    pub status: Option<String>,
}

/// A property message from the printer (its `PropertyGetResponses` list).
#[derive(Debug)]
pub struct Message {
    pub get_responses: Vec<PropertyEntry>,
}

/// The properties after storing each entry's value under its id, in order.
pub open spec fn apply_entries(m: Map<Seq<char>, String>, e: Seq<PropertyEntry>) -> Map<Seq<char>, String>
    decreases e.len(),
{
    if e.len() == 0 {
        m
    } else {
        apply_entries(m, e.drop_last()).insert(e.last().id@, e.last().value)
    }
}

/// The value that a list of property entries gives `id`: that of its last
/// entry with that id, if any.
pub open spec fn latest_value(e: Seq<PropertyEntry>, id: Seq<char>) -> Option<String>
    decreases e.len(),
{
    if e.len() == 0 {
        None
    } else if e.last().id@ == id {
        Some(e.last().value)
    } else {
        latest_value(e.drop_last(), id)
    }
}

/// Once a message is recorded, a property holds the value of the message's
/// last entry for it; a property the message does not mention keeps what it
/// held, or stays absent.
pub proof fn lemma_record_keeps_latest(m: Map<Seq<char>, String>, e: Seq<PropertyEntry>, id: Seq<char>)
    ensures
        match latest_value(e, id) {
            Some(v) => apply_entries(m, e).contains_key(id) && apply_entries(m, e)[id] == v,
            None => {
                &&& apply_entries(m, e).contains_key(id) == m.contains_key(id)
                &&& m.contains_key(id) ==> apply_entries(m, e)[id] == m[id]
            },
        },
    decreases e.len(),
{
    if e.len() > 0 {
        lemma_record_keeps_latest(m, e.drop_last(), id);
    }
}

impl TextMap<String> {
    /// Records the values of a property message, later entries overriding
    /// earlier ones with the same id.
    pub fn record(&mut self, m: Message)
        requires
            old(self).wf(),
        ensures
            final(self).wf(),
            final(self)@ == apply_entries(old(self)@, m.get_responses@),
    {
        let ghost entries = m.get_responses@;
        let ghost start = self@;
        let mut responses = m.get_responses;
        let mut rev: Vec<PropertyEntry> = Vec::new();
        while responses.len() > 0
            invariant
                responses@ + rev@.reverse() == entries,
            decreases responses@.len(),
        {
            let e = responses.pop().unwrap();
            proof {
                assert(responses@ + (rev@.push(e)).reverse() =~= entries);
            }
            rev.push(e);
        }
        assert(rev@.reverse() =~= entries);
        let ghost n = rev@.len();
        while rev.len() > 0
            invariant
                self.wf(),
                rev@.len() <= n,
                n == entries.len(),
                rev@.reverse() == entries.skip((n - rev@.len()) as int),
                self@ == apply_entries(start, entries.take((n - rev@.len()) as int)),
            decreases rev@.len(),
        {
            let ghost done = (n - rev@.len()) as int;
            let ghost old_rev = rev@;
            let e = rev.pop().unwrap();
            proof {
                assert(old_rev =~= rev@.push(e));
                assert(old_rev.reverse() =~= seq![e] + rev@.reverse());
                assert(entries.skip(done + 1) =~= entries.skip(done).drop_first());
                assert(entries.skip(done)[0] == e) by {
                    assert(rev@.push(e).reverse()[0] == e);
                }
                assert(rev@.reverse() =~= entries.skip(done + 1));
                assert(entries.take(done + 1).drop_last() =~= entries.take(done));
            }
            self.insert(e.id, e.value);
        }
        assert(entries.take(n as int) =~= entries);
    }
}

/// What the wire tells us, in the sidecar's vocabulary. Supply name and dpi come from the cartridge table.
#[derive(Debug)]
pub struct Status {
    pub firmware_version: Option<String>,
    pub supply_part_number: Option<String>,
    /// The supply width in mils as the printer wrote it (property 000C).
    pub supply_width_mils: Option<String>,
    pub supply_remaining_pct: Option<u32>,
    pub battery: Option<String>,
    pub last_job_failed: bool,
    pub last_job_status: Option<String>,
    pub ready: Option<bool>,
    pub flags: TextMap<bool>,
}

/// The text of a property, if the printer reported it.
pub open spec fn prop_text(p: Map<Seq<char>, String>, id: Seq<char>) -> Option<Seq<char>> {
    if p.contains_key(id) {
        Some(p[id]@)
    } else {
        None
    }
}

/// An optional string by its text.
pub open spec fn opt_text(s: Option<String>) -> Option<Seq<char>> {
    match s {
        Some(t) => Some(t@),
        None => None,
    }
}

/// Whether a property reads as a boolean flag.
pub open spec fn is_flag_text(t: Seq<char>) -> bool {
    t == "True"@ || t == "False"@
}

/// The flags a status lists: every property that reads `True` or `False`,
/// except the ready and last-job-failed properties, which have fields of their own.
pub open spec fn status_flags(p: Map<Seq<char>, String>) -> Map<Seq<char>, bool> {
    Map::new(
        |k: Seq<char>| p.contains_key(k) && is_flag_text(p[k]@) && k != PROP_READY@ && k != PROP_LAST_JOB_FAILED@,
        |k: Seq<char>| p[k]@ == "True"@,
    )
}

/// Whether one of the first `n` entries holds key `k`.
pub open spec fn listed_before<V>(e: Seq<(String, V)>, n: int, k: Seq<char>) -> bool {
    exists|j: int| 0 <= j < n && (#[trigger] e[j]).0@ == k
}

fn cloned_opt(v: Option<&String>) -> (r: Option<String>)
    ensures
        r == match v {
            Some(s) => Some(*s),
            None => None::<String>,
        },
{
    match v {
        Some(s) => Some(s.clone()),
        None => None,
    }
}

impl Status {
    /// The status the properties describe.
    pub fn from_props(p: &Properties) -> (s: Status)
        requires
            p.wf(),
        ensures
            opt_text(s.firmware_version) == prop_text(p@, PROP_FIRMWARE@),
            opt_text(s.supply_part_number) == prop_text(p@, PROP_PART_NUMBER@),
            opt_text(s.supply_width_mils) == prop_text(p@, PROP_WIDTH_MILS@),
            s.supply_remaining_pct == match prop_text(p@, PROP_REMAINING_PCT@) {
                Some(t) => parse_u32_spec(encode_utf8(t)),
                None => None,
            },
            opt_text(s.battery) == prop_text(p@, PROP_BATTERY@),
            s.last_job_failed == (prop_text(p@, PROP_LAST_JOB_FAILED@) == Some("True"@)),
            opt_text(s.last_job_status) == match prop_text(p@, PROP_JOB_STATUS@) {
                Some(t) => if t.len() > 0 { Some(t) } else { None },
                None => None,
            },
            s.ready == match prop_text(p@, PROP_READY@) {
                Some(t) => Some(t == "True"@),
                None => None,
            },
            s.flags.wf(),
            s.flags@ == status_flags(p@),
    {
        let firmware_version = cloned_opt(p.get(PROP_FIRMWARE));
        let supply_part_number = cloned_opt(p.get(PROP_PART_NUMBER));
        let supply_width_mils = cloned_opt(p.get(PROP_WIDTH_MILS));
        let supply_remaining_pct = match p.get(PROP_REMAINING_PCT) {
            Some(v) => parse_u32(v.as_str()),
            None => None,
        };
        let battery = cloned_opt(p.get(PROP_BATTERY));
        let last_job_failed = match p.get(PROP_LAST_JOB_FAILED) {
            Some(v) => str_eq(v.as_str(), "True"),
            None => false,
        };
        let last_job_status = match p.get(PROP_JOB_STATUS) {
            Some(v) => if v.as_str().is_empty() { None } else { Some(v.clone()) },
            None => None,
        };
        let ready = match p.get(PROP_READY) {
            Some(v) => Some(str_eq(v.as_str(), "True")),
            None => None,
        };
        let mut flags: TextMap<bool> = TextMap::new();
        let entries = p.entries();
        let mut i: usize = 0;
        while i < entries.len()
            invariant
                p.wf(),
                flags.wf(),
                i <= entries@.len(),
                entries@.len() == p@.dom().len(),
                forall|j: int| 0 <= j < entries@.len() ==> p@.contains_key((#[trigger] entries@[j]).0@) && p@[entries@[j].0@] == entries@[j].1,
                flags@ == Map::new(
                    |k: Seq<char>| listed_before(entries@, i as int, k) && status_flags(p@).contains_key(k),
                    |k: Seq<char>| p@[k]@ == "True"@,
                ),
            decreases entries@.len() - i,
        {
            let k = &entries[i].0;
            let v = &entries[i].1;
            let is_true = str_eq(v.as_str(), "True");
            let is_false = str_eq(v.as_str(), "False");
            let ghost old_flags = flags@;
            if (is_true || is_false) && !str_eq(k.as_str(), PROP_READY) && !str_eq(k.as_str(), PROP_LAST_JOB_FAILED) {
                flags.insert(k.clone(), is_true);
            }
            proof {
                assert(flags@ =~= Map::new(
                    |kk: Seq<char>| listed_before(entries@, i + 1, kk) && status_flags(p@).contains_key(kk),
                    |kk: Seq<char>| p@[kk]@ == "True"@,
                )) by {
                    assert forall|kk: Seq<char>| #[trigger] listed_before(entries@, i + 1, kk)
                        <==> (listed_before(entries@, i as int, kk) || kk == entries@[i as int].0@) by {
                        if kk == entries@[i as int].0@ {
                            assert(0 <= i < i + 1 && entries@[i as int].0@ == kk);
                        }
                    }
                }
            }
            i = i + 1;
        }
        proof {
            assert(flags@ =~= status_flags(p@)) by {
                assert forall|k: Seq<char>| #[trigger] status_flags(p@).contains_key(k) implies listed_before(entries@, i as int, k) by {
                    assert(p@.contains_key(k));
                }
            }
        }
        Status {
            firmware_version,
            supply_part_number,
            supply_width_mils,
            supply_remaining_pct,
            battery,
            last_job_failed,
            last_job_status,
            ready,
            flags,
        }
    }
}

} // verus!
