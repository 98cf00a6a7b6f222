use vstd::prelude::*;
use vstd::utf8::{decode_utf8, encode_utf8, valid_utf8};
use crate::store::{
    added, increment_weight, index_of, lemma_added_entry, lemma_added_total, lemma_increment_weight, lemma_index_of, lemma_total_weight_bound,
    total_weight, unique_paths, Entry, EntryView, Epoch, Rank, Store, MAX_ENTRIES, WEIGHT_LIMIT,
};
use crate::text::utf8_to_string;

verus! {

// The file holds, each integer as 8 bytes little-endian: the format version,
// the numerator and denominator of the store's scale, the number of entries,
// then for each entry the byte length of its path, the path in UTF-8, its
// weight and its last access time. A file that does not
// follow this layout exactly is rejected as a whole.

/// The version of the file layout that this library writes and reads.
pub const STORE_VERSION: u64 = 1;

/// Why stored bytes could not be read back.
#[derive(Debug, PartialEq, Eq, Structural)]
pub enum DecodeError {
    /// The header names a layout version other than `STORE_VERSION`.
    UnsupportedVersion,
    /// The bytes do not follow the layout, or do not hold a well-formed store
    /// (`valid_store`).
    Corrupt,
}

/// The 8 little-endian bytes of `x`.
pub open spec fn u64_bytes(x: u64) -> Seq<u8> {
    seq![
        x as u8,
        (x >> 8u64) as u8,
        (x >> 16u64) as u8,
        (x >> 24u64) as u8,
        (x >> 32u64) as u8,
        (x >> 40u64) as u8,
        (x >> 48u64) as u8,
        (x >> 56u64) as u8,
    ]
}

/// The integer held little-endian in the 8 bytes at `pos`.
pub open spec fn u64_at(b: Seq<u8>, pos: int) -> u64 {
    (b[pos] as u64) | ((b[pos + 1] as u64) << 8u64) | ((b[pos + 2] as u64) << 16u64) | ((b[pos + 3] as u64)
        << 24u64) | ((b[pos + 4] as u64) << 32u64) | ((b[pos + 5] as u64) << 40u64) | ((b[pos + 6] as u64)
        << 48u64) | ((b[pos + 7] as u64) << 56u64)
}

/// The bytes of one entry.
pub open spec fn encode_entry(e: EntryView) -> Seq<u8> {
    let p = encode_utf8(e.path);
    u64_bytes(p.len() as u64) + p + u64_bytes(e.weight) + u64_bytes(e.last_accessed)
}

/// The bytes of a list of entries, one after another.
pub open spec fn encode_entries(es: Seq<EntryView>) -> Seq<u8>
    decreases es.len(),
{
    if es.len() == 0 {
        Seq::empty()
    } else {
        encode_entry(es[0]) + encode_entries(es.drop_first())
    }
}

/// The bytes of a whole store.
pub open spec fn encoded(es: Seq<EntryView>, num: u64, den: u64) -> Seq<u8> {
    u64_bytes(STORE_VERSION) + u64_bytes(num) + u64_bytes(den) + u64_bytes(es.len() as u64) + encode_entries(es)
}

/// What a well-formed store holds (`Store::wf`).
pub open spec fn valid_store(es: Seq<EntryView>, num: u64, den: u64) -> bool {
    &&& unique_paths(es)
    &&& num >= 1
    &&& 1 <= den <= WEIGHT_LIMIT
    &&& total_weight(es) <= WEIGHT_LIMIT
    &&& es.len() <= MAX_ENTRIES
}

/// Reads the entry at `pos`: the entry and the position after it.
pub open spec fn parse_entry(b: Seq<u8>, pos: int) -> Option<(EntryView, int)> {
    if pos < 0 || pos + 8 > b.len() {
        None
    } else {
        let l = u64_at(b, pos) as int;
        let path_start = pos + 8;
        if path_start + l + 16 > b.len() {
            None
        } else {
            let pb = b.subrange(path_start, path_start + l);
            if !valid_utf8(pb) {
                None
            } else {
                Some(
                    (
                        EntryView {
                            path: decode_utf8(pb),
                            weight: u64_at(b, path_start + l),
                            last_accessed: u64_at(b, path_start + l + 8),
                        },
                        path_start + l + 16,
                    ),
                )
            }
        }
    }
}

/// Reads `n` entries from `pos` on after those in `acc`; the bytes must end
/// right after them.
pub open spec fn parse_entries(b: Seq<u8>, pos: int, n: nat, acc: Seq<EntryView>) -> Option<Seq<EntryView>>
    decreases n,
{
    if n == 0 {
        if pos == b.len() {
            Some(acc)
        } else {
            None
        }
    } else {
        match parse_entry(b, pos) {
            None => None,
            Some((e, next)) => parse_entries(b, next, (n - 1) as nat, acc.push(e)),
        }
    }
}

/// What decoding gives for some bytes: the entries and the scale.
pub open spec fn decoded(b: Seq<u8>) -> Result<(Seq<EntryView>, u64, u64), DecodeError> {
    if b.len() < 8 {
        Err(DecodeError::Corrupt)
    } else if u64_at(b, 0) != STORE_VERSION {
        Err(DecodeError::UnsupportedVersion)
    } else if b.len() < 32 {
        Err(DecodeError::Corrupt)
    } else {
        let num = u64_at(b, 8);
        let den = u64_at(b, 16);
        match parse_entries(b, 32, u64_at(b, 24) as nat, Seq::empty()) {
            Some(es) => if valid_store(es, num, den) {
                Ok((es, num, den))
            } else {
                Err(DecodeError::Corrupt)
            },
            None => Err(DecodeError::Corrupt),
        }
    }
}

/// Every path's UTF-8 length, and the number of entries, can be written in
/// 8 bytes.
pub open spec fn encodable(es: Seq<EntryView>) -> bool {
    &&& es.len() <= u64::MAX
    &&& forall|k: int| 0 <= k < es.len() ==> encode_utf8(#[trigger] es[k].path).len() <= u64::MAX
}

proof fn lemma_u64_round_trip(b: Seq<u8>, pos: int, x: u64)
    requires
        0 <= pos,
        pos + 8 <= b.len(),
        b.subrange(pos, pos + 8) == u64_bytes(x),
    ensures
        u64_at(b, pos) == x,
{
    let s = b.subrange(pos, pos + 8);
    assert(b[pos] == s[0] && b[pos + 1] == s[1] && b[pos + 2] == s[2] && b[pos + 3] == s[3]);
    assert(b[pos + 4] == s[4] && b[pos + 5] == s[5] && b[pos + 6] == s[6] && b[pos + 7] == s[7]);
    assert(((x as u8) as u64) | ((((x >> 8u64) as u8) as u64) << 8u64) | ((((x >> 16u64) as u8) as u64)
        << 16u64) | ((((x >> 24u64) as u8) as u64) << 24u64) | ((((x >> 32u64) as u8) as u64) << 32u64)
        | ((((x >> 40u64) as u8) as u64) << 40u64) | ((((x >> 48u64) as u8) as u64) << 48u64) | ((((x
        >> 56u64) as u8) as u64) << 56u64) == x) by (bit_vector);
}

proof fn lemma_encode_entries_push(es: Seq<EntryView>, e: EntryView)
    ensures
        encode_entries(es.push(e)) == encode_entries(es) + encode_entry(e),
    decreases es.len(),
{
    if es.len() == 0 {
        assert(es.push(e).drop_first() =~= Seq::<EntryView>::empty());
        assert(es.push(e)[0] == e);
        assert(encode_entries(Seq::<EntryView>::empty()) == Seq::<u8>::empty());
        assert(encode_entries(es) == Seq::<u8>::empty());
        assert(encode_entries(es.push(e)) =~= encode_entries(es) + encode_entry(e));
    } else {
        assert(es.push(e).drop_first() =~= es.drop_first().push(e));
        lemma_encode_entries_push(es.drop_first(), e);
        assert(encode_entries(es.push(e)) =~= encode_entries(es) + encode_entry(e));
    }
}

proof fn lemma_parse_entry(b: Seq<u8>, pos: int, e: EntryView, tail: Seq<u8>)
    requires
        0 <= pos <= b.len(),
        b.subrange(pos, b.len() as int) == encode_entry(e) + tail,
        encode_utf8(e.path).len() <= u64::MAX,
    ensures
        parse_entry(b, pos) == Some((e, pos + encode_entry(e).len())),
        b.subrange(pos + encode_entry(e).len(), b.len() as int) == tail,
{
    let p = encode_utf8(e.path);
    let l = p.len() as int;
    let enc = encode_entry(e);
    let whole = b.subrange(pos, b.len() as int);
    assert(enc == u64_bytes(l as u64) + p + u64_bytes(e.weight) + u64_bytes(e.last_accessed));
    assert(enc.len() == l + 24);
    assert(whole.len() == b.len() - pos);
    assert(whole.len() == enc.len() + tail.len());
    assert(whole.subrange(0, 8) =~= u64_bytes(l as u64));
    assert(b.subrange(pos, pos + 8) =~= whole.subrange(0, 8));
    lemma_u64_round_trip(b, pos, l as u64);
    let path_start = pos + 8;
    assert(whole.subrange(8, 8 + l) =~= p);
    assert(b.subrange(path_start, path_start + l) =~= whole.subrange(8, 8 + l));
    assert(whole.subrange(8 + l, 16 + l) =~= u64_bytes(e.weight));
    assert(b.subrange(path_start + l, path_start + l + 8) =~= whole.subrange(8 + l, 16 + l));
    assert(whole.subrange(16 + l, 24 + l) =~= u64_bytes(e.last_accessed));
    assert(b.subrange(path_start + l + 8, path_start + l + 16) =~= whole.subrange(16 + l, 24 + l));
    assert(whole.subrange(24 + l, whole.len() as int) =~= tail);
    lemma_u64_round_trip(b, path_start + l, e.weight);
    lemma_u64_round_trip(b, path_start + l + 8, e.last_accessed);
    vstd::utf8::encode_utf8_valid_utf8(e.path);
    vstd::utf8::encode_utf8_decode_utf8(e.path);
    assert(b.subrange(path_start + l + 16, b.len() as int) =~= tail);
}

proof fn lemma_parse_entries(b: Seq<u8>, pos: int, rest: Seq<EntryView>, acc: Seq<EntryView>)
    requires
        0 <= pos <= b.len(),
        b.subrange(pos, b.len() as int) == encode_entries(rest),
        encodable(rest),
    ensures
        parse_entries(b, pos, rest.len(), acc) == Some(acc + rest),
    decreases rest.len(),
{
    if rest.len() == 0 {
        assert(acc + rest =~= acc);
        assert(b.subrange(pos, b.len() as int).len() == 0);
    } else {
        let e = rest[0];
        let rest2 = rest.drop_first();
        assert(encode_utf8(rest[0].path).len() <= u64::MAX);
        lemma_parse_entry(b, pos, e, encode_entries(rest2));
        let next = pos + encode_entry(e).len();
        assert(encodable(rest2)) by {
            assert forall|k: int| 0 <= k < rest2.len() implies encode_utf8(#[trigger] rest2[k].path).len() <= u64::MAX by {
                assert(rest2[k] == rest[k + 1]);
            }
        }
        lemma_parse_entries(b, next, rest2, acc.push(e));
        assert(acc.push(e) + rest2 =~= acc + rest);
        assert(rest2.len() == (rest.len() - 1) as nat);
    }
}

/// Round trip: a store written to bytes reads back as the same entries, in
/// the same order, with the same weights and times, and the same scale.
pub proof fn lemma_round_trip(es: Seq<EntryView>, num: u64, den: u64)
    requires
        valid_store(es, num, den),
        encodable(es),
    ensures
        decoded(encoded(es, num, den)) == Ok::<(Seq<EntryView>, u64, u64), DecodeError>((es, num, den)),
{
    let b = encoded(es, num, den);
    assert(b.subrange(0, 8) =~= u64_bytes(STORE_VERSION));
    assert(b.subrange(8, 16) =~= u64_bytes(num));
    assert(b.subrange(16, 24) =~= u64_bytes(den));
    assert(b.subrange(24, 32) =~= u64_bytes(es.len() as u64));
    lemma_u64_round_trip(b, 0, STORE_VERSION);
    lemma_u64_round_trip(b, 8, num);
    lemma_u64_round_trip(b, 16, den);
    lemma_u64_round_trip(b, 24, es.len() as u64);
    assert(b.subrange(32, b.len() as int) =~= encode_entries(es));
    lemma_parse_entries(b, 32, es, Seq::empty());
    assert(Seq::<EntryView>::empty() + es =~= es);
}

proof fn lemma_added_encodable(es: Seq<EntryView>, p: Seq<char>, now: Epoch, weight: u64)
    requires
        encodable(es),
        es.len() < u64::MAX,
        encode_utf8(p).len() <= u64::MAX,
    ensures
        encodable(added(es, p, now, weight)),
{
    lemma_index_of(es, p);
    let r = added(es, p, now, weight);
    assert forall|k: int| 0 <= k < r.len() implies encode_utf8(#[trigger] r[k].path).len() <= u64::MAX by {
        if k < es.len() && k != index_of(es, p) {
            assert(r[k] == es[k]);
        }
    }
}

/// Two invocations, one after the other, each load the saved store, record a
/// visit of `p` and save it again: the second one sees the first one's visit,
/// and the weight of `p` ends up raised by the weights of both visits, each
/// of which stands for at least `increment` ranks.
/// A visit that fits leaves a store that is still well-formed and reads back
/// from its bytes as it is.
proof fn lemma_visit_round_trip(es: Seq<EntryView>, num: u64, den: u64, p: Seq<char>, t: Epoch, g: u64)
    requires
        valid_store(es, num, den),
        encodable(es),
        es.len() < MAX_ENTRIES,
        encode_utf8(p).len() <= u64::MAX,
        total_weight(es) + g <= WEIGHT_LIMIT,
    ensures
        valid_store(added(es, p, t, g), num, den),
        encodable(added(es, p, t, g)),
        total_weight(added(es, p, t, g)) == total_weight(es) + g,
        added(es, p, t, g).len() <= es.len() + 1,
        decoded(encoded(added(es, p, t, g), num, den)) == Ok::<(Seq<EntryView>, u64, u64), DecodeError>(
            (added(es, p, t, g), num, den),
        ),
{
    lemma_index_of(es, p);
    lemma_added_entry(es, p, t, g);
    lemma_added_total(es, p, t, g);
    lemma_added_encodable(es, p, t, g);
    lemma_round_trip(added(es, p, t, g), num, den);
}

#[verifier::rlimit(80)]
pub proof fn lemma_sequential_visits(
    es: Seq<EntryView>,
    num: u64,
    den: u64,
    p: Seq<char>,
    t1: Epoch,
    t2: Epoch,
    increment: Rank,
)
    requires
        valid_store(es, num, den),
        encodable(es),
        es.len() < MAX_ENTRIES,
        encode_utf8(p).len() <= u64::MAX,
        total_weight(es) + 2 * increment_weight(increment, num, den) <= WEIGHT_LIMIT,
    ensures
        ({
            let before = if index_of(es, p) >= 0 { es[index_of(es, p)].weight as int } else { 0 };
            let g = increment_weight(increment, num, den);
            let s1 = added(es, p, t1, g as u64);
            let s2 = added(s1, p, t2, g as u64);
            &&& g * num >= increment * den
            &&& decoded(encoded(s1, num, den)) == Ok::<(Seq<EntryView>, u64, u64), DecodeError>((s1, num, den))
            &&& decoded(encoded(s2, num, den)) == Ok::<(Seq<EntryView>, u64, u64), DecodeError>((s2, num, den))
            &&& index_of(s2, p) >= 0
            &&& s2[index_of(s2, p)].weight == before + 2 * g
            &&& s2[index_of(s2, p)].last_accessed == t2
        }),
{
    lemma_increment_weight(increment, num, den);
    let g = increment_weight(increment, num, den);
    assert(increment * den >= 0) by (nonlinear_arith)
        requires increment >= 0, den >= 0;
    assert(g >= 0) by (nonlinear_arith)
        requires g * num >= increment * den, increment * den >= 0, num >= 1;
    lemma_total_weight_bound(es);
    let w = g as u64;
    lemma_visit_round_trip(es, num, den, p, t1, w);
    let s1 = added(es, p, t1, w);
    lemma_index_of(es, p);
    lemma_added_entry(es, p, t1, w);
    lemma_added_total(es, p, t1, w);
    lemma_index_of(s1, p);
    lemma_added_entry(s1, p, t2, w);
    lemma_added_total(s1, p, t2, w);
    let s2 = added(s1, p, t2, w);
    lemma_index_of(s2, p);
    assert(s2.len() == s1.len());
    lemma_added_encodable(s1, p, t2, w);
    assert(valid_store(s2, num, den));
    lemma_round_trip(s2, num, den);

}

/// Appends the 8 little-endian bytes of `x`.
fn push_u64(out: &mut Vec<u8>, x: u64)
    ensures
        final(out)@ == old(out)@ + u64_bytes(x),
{
    out.push(x as u8);
    out.push((x >> 8u64) as u8);
    out.push((x >> 16u64) as u8);
    out.push((x >> 24u64) as u8);
    out.push((x >> 32u64) as u8);
    out.push((x >> 40u64) as u8);
    out.push((x >> 48u64) as u8);
    out.push((x >> 56u64) as u8);
    assert(final(out)@ =~= old(out)@ + u64_bytes(x));
}

/// Reads the 8 little-endian bytes at `pos`.
fn read_u64(b: &[u8], pos: usize) -> (r: u64)
    requires
        pos + 8 <= b@.len(),
    ensures
        r == u64_at(b@, pos as int),
{
    (b[pos] as u64) | ((b[pos + 1] as u64) << 8u64) | ((b[pos + 2] as u64) << 16u64) | ((b[pos + 3] as u64)
        << 24u64) | ((b[pos + 4] as u64) << 32u64) | ((b[pos + 5] as u64) << 40u64) | ((b[pos + 6] as u64)
        << 48u64) | ((b[pos + 7] as u64) << 56u64)
}

impl Store {
    /// Writes the store as bytes: the version, the scale, the number of
    /// entries, then each entry's path length, path, weight and last access
    /// time.
    pub fn encode(&self) -> (r: Vec<u8>)
        ensures
            r@ == encoded(self@, self.scale_num, self.scale_den),
            encodable(self@),
    {
        let n = self.entries.len();
        let mut out: Vec<u8> = Vec::new();
        push_u64(&mut out, STORE_VERSION);
        push_u64(&mut out, self.scale_num);
        push_u64(&mut out, self.scale_den);
        push_u64(&mut out, n as u64);
        let ghost header = u64_bytes(STORE_VERSION) + u64_bytes(self.scale_num) + u64_bytes(self.scale_den) + u64_bytes(n as u64);
        let mut i: usize = 0;
        assert(out@ =~= header + encode_entries(self@.subrange(0, 0)));
        while i < n
            invariant
                i <= n == self@.len() == self.entries@.len(),
                header == u64_bytes(STORE_VERSION) + u64_bytes(self.scale_num) + u64_bytes(self.scale_den) + u64_bytes(n as u64),
                out@ == header + encode_entries(self@.subrange(0, i as int)),
                forall|k: int| 0 <= k < i ==> encode_utf8(#[trigger] self@[k].path).len() <= u64::MAX,
            decreases n - i,
        {
            let e = &self.entries[i];
            let bytes = e.path.as_str().as_bytes();
            let l = bytes.len();
            let ghost before = out@;
            push_u64(&mut out, l as u64);
            let mut k: usize = 0;
            while k < l
                invariant
                    k <= l == bytes@.len(),
                    out@ == before + u64_bytes(l as u64) + bytes@.subrange(0, k as int),
                decreases l - k,
            {
                out.push(bytes[k]);
                assert(before + u64_bytes(l as u64) + bytes@.subrange(0, k + 1) =~= before + u64_bytes(l as u64)
                    + bytes@.subrange(0, k as int) + seq![bytes@[k as int]]);
                k = k + 1;
            }
            push_u64(&mut out, e.weight);
            push_u64(&mut out, e.last_accessed);
            proof {
                assert(bytes@.subrange(0, l as int) =~= bytes@);
                assert(self@[i as int] == e@);
                assert(self@.subrange(0, i + 1) =~= self@.subrange(0, i as int).push(e@));
                lemma_encode_entries_push(self@.subrange(0, i as int), e@);
                assert(out@ =~= header + encode_entries(self@.subrange(0, i + 1)));
            }
            i = i + 1;
        }
        assert(self@.subrange(0, n as int) =~= self@);
        out
    }

    /// Reads a store back from bytes. The whole input must follow the layout
    /// that `encode` writes, with no path recorded twice; otherwise nothing
    /// is recovered.
    pub fn decode(b: &[u8]) -> (r: Result<Store, DecodeError>)
        ensures
            match r {
                Ok(s) => decoded(b@) == Ok::<(Seq<EntryView>, u64, u64), DecodeError>((s@, s.scale_num, s.scale_den))
                    && s.wf(),
                Err(e) => decoded(b@) == Err::<(Seq<EntryView>, u64, u64), DecodeError>(e),
            },
    {
        let len = b.len();
        if len < 8 {
            return Err(DecodeError::Corrupt);
        }
        if read_u64(b, 0) != STORE_VERSION {
            return Err(DecodeError::UnsupportedVersion);
        }
        if len < 32 {
            return Err(DecodeError::Corrupt);
        }
        let scale_num = read_u64(b, 8);
        let scale_den = read_u64(b, 16);
        let n = read_u64(b, 24);
        let ghost goal = parse_entries(b@, 32, n as nat, Seq::empty());
        let mut entries: Vec<Entry> = Vec::new();
        let mut pos: usize = 32;
        let mut k: u64 = 0;
        assert(entries@.map_values(|e: Entry| e@) =~= Seq::<EntryView>::empty());
        while k < n
            invariant
                k <= n,
                pos <= len == b@.len(),
                len >= 32,
                u64_at(b@, 0) == STORE_VERSION,
                scale_num == u64_at(b@, 8),
                scale_den == u64_at(b@, 16),
                n == u64_at(b@, 24),
                goal == parse_entries(b@, 32, n as nat, Seq::empty()),
                parse_entries(b@, pos as int, (n - k) as nat, entries@.map_values(|e: Entry| e@)) == goal,
            decreases n - k,
        {
            let ghost acc = entries@.map_values(|e: Entry| e@);
            if len - pos < 8 {
                assert(parse_entry(b@, pos as int) is None);
                assert(parse_entries(b@, pos as int, (n - k) as nat, acc) is None);
                assert(decoded(b@) == Err::<(Seq<EntryView>, u64, u64), DecodeError>(DecodeError::Corrupt));
                return Err(DecodeError::Corrupt);
            }
            let l = read_u64(b, pos);
            let path_start = pos + 8;
            if l > (len - path_start) as u64 || (len - path_start) as u64 - l < 16 {
                assert(parse_entry(b@, pos as int) is None);
                assert(parse_entries(b@, pos as int, (n - k) as nat, acc) is None);
                assert(decoded(b@) == Err::<(Seq<EntryView>, u64, u64), DecodeError>(DecodeError::Corrupt));
                return Err(DecodeError::Corrupt);
            }
            let lu = l as usize;
            let mut pb: Vec<u8> = Vec::new();
            let mut j: usize = 0;
            while j < lu
                invariant
                    j <= lu,
                    path_start + lu <= len == b@.len(),
                    pb@ == b@.subrange(path_start as int, path_start + j),
                decreases lu - j,
            {
                pb.push(b[path_start + j]);
                assert(b@.subrange(path_start as int, path_start + j + 1) =~= b@.subrange(path_start as int, path_start + j).push(b@[path_start + j]));
                j = j + 1;
            }
            let path = match utf8_to_string(pb.as_slice()) {
                Some(s) => s,
                None => {
                    assert(pb@ =~= b@.subrange(path_start as int, path_start + lu));
                    assert(parse_entry(b@, pos as int) is None);
                    assert(parse_entries(b@, pos as int, (n - k) as nat, acc) is None);
                    return Err(DecodeError::Corrupt);
                },
            };
            let weight = read_u64(b, path_start + lu);
            let last_accessed = read_u64(b, path_start + lu + 8);
            let ghost e = EntryView { path: path@, weight, last_accessed };
            assert(parse_entry(b@, pos as int) == Some((e, path_start + lu + 16)));
            entries.push(Entry { path, weight, last_accessed });
            assert(entries@.map_values(|e: Entry| e@) =~= acc.push(e));
            pos = path_start + lu + 16;
            k = k + 1;
        }
        if pos != len {
            return Err(DecodeError::Corrupt);
        }
        let store = Store { entries, scale_num, scale_den };
        assert(goal == Some(store@));
        let total = store.total();
        if scale_num == 0 || scale_den == 0 || scale_den > WEIGHT_LIMIT || total > WEIGHT_LIMIT as u128
            || store.entries.len() as u64 > MAX_ENTRIES {
            assert(!valid_store(store@, scale_num, scale_den));
            return Err(DecodeError::Corrupt);
        }
        let ghost outcome = if unique_paths(store@) {
            Ok::<(Seq<EntryView>, u64, u64), DecodeError>((store@, scale_num, scale_den))
        } else {
            Err::<(Seq<EntryView>, u64, u64), DecodeError>(DecodeError::Corrupt)
        };
        assert(decoded(b@) == outcome);
        let m = store.entries.len();
        let mut a: usize = 0;
        while a < m
            invariant
                decoded(b@) == outcome,
                outcome == if unique_paths(store@) {
                    Ok::<(Seq<EntryView>, u64, u64), DecodeError>((store@, scale_num, scale_den))
                } else {
                    Err::<(Seq<EntryView>, u64, u64), DecodeError>(DecodeError::Corrupt)
                },
                store.scale_num == scale_num >= 1,
                store.scale_den == scale_den >= 1,
                scale_den <= WEIGHT_LIMIT,
                total_weight(store@) <= WEIGHT_LIMIT,
                store@.len() <= MAX_ENTRIES,
                a <= m == store@.len() == store.entries@.len(),
                forall|x: int, y: int| 0 <= x < a && 0 <= y < m && x != y ==> #[trigger] store@[x].path != #[trigger] store@[y].path,
            decreases m - a,
        {
            let mut c: usize = 0;
            while c < m
                invariant
                    decoded(b@) == outcome,
                    outcome == if unique_paths(store@) {
                        Ok::<(Seq<EntryView>, u64, u64), DecodeError>((store@, scale_num, scale_den))
                    } else {
                        Err::<(Seq<EntryView>, u64, u64), DecodeError>(DecodeError::Corrupt)
                    },
                    a < m == store@.len() == store.entries@.len(),
                    c <= m,
                    forall|x: int, y: int| 0 <= x < a && 0 <= y < m && x != y ==> #[trigger] store@[x].path != #[trigger] store@[y].path,
                    forall|y: int| 0 <= y < c && y != a ==> store@[a as int].path != #[trigger] store@[y].path,
                decreases m - c,
            {
                if c != a && store.entries[a].path == store.entries[c].path {
                    assert(store@[a as int].path == store@[c as int].path);
                    assert(!unique_paths(store@));
                    assert(decoded(b@) == Err::<(Seq<EntryView>, u64, u64), DecodeError>(DecodeError::Corrupt));
                    return Err(DecodeError::Corrupt);
                }
                c = c + 1;
            }
            a = a + 1;
        }
        Ok(store)
    }
}

} // verus!
