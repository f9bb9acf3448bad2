//! Binary layout of one record and of a whole segment file.
//!
//! A record is written as: an 8-byte little-endian length and the identifier
//! bytes; a tag byte (0 for a permanent record, 1 followed by 8 little-endian
//! bytes of retention seconds); an 8-byte little-endian length and the payload.
//! A segment is the concatenation of its records. Every field carries its own
//! length, so payload bytes never collide with the framing.
use vstd::prelude::*;

verus! {

/// One stored record: its identifier, its retention in seconds (`None` for a
/// permanent record) and its encoded payload.
#[derive(Clone, Debug, PartialEq, Eq)]
pub struct Entry {
    pub id: Vec<u8>,
    pub ttl: Option<u64>,
    pub data: Vec<u8>,
}

/// The mathematical value of an [`Entry`].
pub struct EntryModel {
    pub id: Seq<u8>,
    pub ttl: Option<u64>,
    pub data: Seq<u8>,
}

impl View for Entry {
    type V = EntryModel;

    open spec fn view(&self) -> EntryModel {
        EntryModel { id: self.id@, ttl: self.ttl, data: self.data@ }
    }
}

/// The models of a sequence of entries.
pub open spec fn models(es: Seq<Entry>) -> Seq<EntryModel> {
    es.map_values(|e: Entry| e@)
}

/// Eight little-endian bytes of `n`.
pub open spec fn le8(n: u64) -> Seq<u8> {
    seq![
        n as u8,
        (n >> 8u64) as u8,
        (n >> 16u64) as u8,
        (n >> 24u64) as u8,
        (n >> 32u64) as u8,
        (n >> 40u64) as u8,
        (n >> 48u64) as u8,
        (n >> 56u64) as u8,
    ]
}

/// The number whose little-endian bytes are `s[0..8]`.
pub open spec fn from_le8(s: Seq<u8>) -> u64
    recommends
        s.len() >= 8,
{
    (s[0] as u64) | ((s[1] as u64) << 8u64) | ((s[2] as u64) << 16u64) | ((s[3] as u64)
        << 24u64) | ((s[4] as u64) << 32u64) | ((s[5] as u64) << 40u64) | ((s[6] as u64)
        << 48u64) | ((s[7] as u64) << 56u64)
}

/// A byte string preceded by its length.
pub open spec fn field_bytes(b: Seq<u8>) -> Seq<u8> {
    le8(b.len() as u64) + b
}

pub open spec fn ttl_bytes(ttl: Option<u64>) -> Seq<u8> {
    match ttl {
        None => seq![0u8],
        Some(t) => seq![1u8] + le8(t),
    }
}

/// The bytes that represent one record.
pub open spec fn entry_bytes(e: EntryModel) -> Seq<u8> {
    field_bytes(e.id) + ttl_bytes(e.ttl) + field_bytes(e.data)
}

/// The bytes of a segment holding `es`, in order.
pub open spec fn segment_bytes(es: Seq<EntryModel>) -> Seq<u8>
    decreases es.len(),
{
    if es.len() == 0 {
        Seq::empty()
    } else {
        entry_bytes(es[0]) + segment_bytes(es.drop_first())
    }
}

/// Reads a length-prefixed field at the front of `s`: the field and what follows it.
pub open spec fn parse_field(s: Seq<u8>) -> Option<(Seq<u8>, Seq<u8>)> {
    if s.len() < 8 {
        None
    } else {
        let n = from_le8(s) as int;
        if s.len() - 8 < n {
            None
        } else {
            Some((s.subrange(8, 8 + n), s.skip(8 + n)))
        }
    }
}

pub open spec fn parse_ttl(s: Seq<u8>) -> Option<(Option<u64>, Seq<u8>)> {
    if s.len() < 1 {
        None
    } else if s[0] == 0 {
        Some((None, s.skip(1)))
    } else if s[0] == 1 && s.len() >= 9 {
        Some((Some(from_le8(s.skip(1))), s.skip(9)))
    } else {
        None
    }
}

/// Reads one record at the front of `s`: the record and what follows it.
pub open spec fn parse_entry(s: Seq<u8>) -> Option<(EntryModel, Seq<u8>)> {
    match parse_field(s) {
        None => None,
        Some((id, r1)) => match parse_ttl(r1) {
            None => None,
            Some((ttl, r2)) => match parse_field(r2) {
                None => None,
                Some((data, r3)) => Some((EntryModel { id, ttl, data }, r3)),
            },
        },
    }
}

/// The records of a segment file, or `None` where its bytes are not a
/// sequence of whole records.
pub open spec fn parse_segment(s: Seq<u8>) -> Option<Seq<EntryModel>>
    decreases s.len(),
{
    if s.len() == 0 {
        Some(Seq::empty())
    } else {
        match parse_entry(s) {
            None => None,
            Some((e, rest)) => if rest.len() < s.len() {
                match parse_segment(rest) {
                    None => None,
                    Some(es) => Some(seq![e] + es),
                }
            } else {
                None
            },
        }
    }
}

proof fn lemma_le8(n: u64)
    ensures
        from_le8(le8(n)) == n,
{
    let s = le8(n);
    assert(s[0] == n as u8 && s[1] == (n >> 8u64) as u8 && s[2] == (n >> 16u64) as u8 && s[3]
        == (n >> 24u64) as u8 && s[4] == (n >> 32u64) as u8 && s[5] == (n >> 40u64) as u8 && s[6]
        == (n >> 48u64) as u8 && s[7] == (n >> 56u64) as u8);
    assert(((n as u8) as u64) | ((((n >> 8u64) as u8) as u64) << 8u64) | ((((n >> 16u64) as u8)
        as u64) << 16u64) | ((((n >> 24u64) as u8) as u64) << 24u64) | ((((n >> 32u64) as u8)
        as u64) << 32u64) | ((((n >> 40u64) as u8) as u64) << 40u64) | ((((n >> 48u64) as u8)
        as u64) << 48u64) | ((((n >> 56u64) as u8) as u64) << 56u64) == n) by (bit_vector);
}

proof fn lemma_from_le8_prefix(s: Seq<u8>, t: Seq<u8>)
    requires
        s.len() >= 8,
    ensures
        from_le8(s + t) == from_le8(s),
{
    assert(forall|i: int| 0 <= i < 8 ==> (s + t)[i] == s[i]);
}

proof fn lemma_parse_field(b: Seq<u8>, rest: Seq<u8>)
    requires
        b.len() <= u64::MAX,
    ensures
        parse_field(field_bytes(b) + rest) == Some((b, rest)),
{
    let s = field_bytes(b) + rest;
    lemma_le8(b.len() as u64);
    assert(s =~= le8(b.len() as u64) + (b + rest));
    lemma_from_le8_prefix(le8(b.len() as u64), b + rest);
    assert(s.subrange(8, 8 + b.len() as int) =~= b);
    assert(s.skip(8 + b.len() as int) =~= rest);
}

proof fn lemma_parse_ttl(ttl: Option<u64>, rest: Seq<u8>)
    ensures
        parse_ttl(ttl_bytes(ttl) + rest) == Some((ttl, rest)),
{
    let s = ttl_bytes(ttl) + rest;
    match ttl {
        None => {
            assert(s.skip(1) =~= rest);
        },
        Some(t) => {
            assert(s.skip(1) =~= le8(t) + rest);
            lemma_le8(t);
            lemma_from_le8_prefix(le8(t), rest);
            assert(s.skip(9) =~= rest);
        },
    }
}

/// An entry whose fields have lengths that fit the 8-byte headers.
pub open spec fn entry_fits(e: EntryModel) -> bool {
    e.id.len() <= u64::MAX && e.data.len() <= u64::MAX
}

proof fn lemma_parse_entry(e: EntryModel, rest: Seq<u8>)
    requires
        entry_fits(e),
    ensures
        parse_entry(entry_bytes(e) + rest) == Some((e, rest)),
{
    let s = entry_bytes(e) + rest;
    let r1 = ttl_bytes(e.ttl) + field_bytes(e.data) + rest;
    let r2 = field_bytes(e.data) + rest;
    assert(s =~= field_bytes(e.id) + r1);
    lemma_parse_field(e.id, r1);
    assert(r1 =~= ttl_bytes(e.ttl) + r2);
    lemma_parse_ttl(e.ttl, r2);
    lemma_parse_field(e.data, rest);
}

proof fn lemma_parse_segment_cons(e: EntryModel, tail: Seq<EntryModel>)
    requires
        entry_fits(e),
        parse_segment(segment_bytes(tail)) == Some(tail),
    ensures
        parse_segment(segment_bytes(seq![e] + tail)) == Some(seq![e] + tail),
{
    let es = seq![e] + tail;
    assert(es.drop_first() =~= tail);
    assert(es[0] == e);
    let s = segment_bytes(es);
    let rest = segment_bytes(tail);
    assert(s == entry_bytes(e) + rest);
    lemma_parse_entry(e, rest);
    assert(entry_bytes(e).len() >= 8);
}

/// Decoding the bytes of a segment gives back exactly the records that were
/// encoded, in their order.
pub proof fn lemma_segment_round_trip(es: Seq<EntryModel>)
    requires
        forall|i: int| 0 <= i < es.len() ==> entry_fits(#[trigger] es[i]),
    ensures
        parse_segment(segment_bytes(es)) == Some(es),
    decreases es.len(),
{
    if es.len() == 0 {
        assert(segment_bytes(es) == Seq::<u8>::empty());
    } else {
        let tail = es.drop_first();
        assert forall|i: int| 0 <= i < tail.len() implies entry_fits(#[trigger] tail[i]) by {
            assert(tail[i] == es[i + 1]);
        }
        lemma_segment_round_trip(tail);
        assert(entry_fits(es[0]));
        lemma_parse_segment_cons(es[0], tail);
        assert(seq![es[0]] + tail =~= es);
    }
}

fn push_le8(out: &mut Vec<u8>, n: u64)
    ensures
        final(out)@ == old(out)@ + le8(n),
{
    out.push(n as u8);
    out.push((n >> 8u64) as u8);
    out.push((n >> 16u64) as u8);
    out.push((n >> 24u64) as u8);
    out.push((n >> 32u64) as u8);
    out.push((n >> 40u64) as u8);
    out.push((n >> 48u64) as u8);
    out.push((n >> 56u64) as u8);
    assert(final(out)@ =~= old(out)@ + le8(n));
}

fn read_le8(b: &Vec<u8>, pos: usize) -> (r: u64)
    requires
        pos + 8 <= b@.len(),
    ensures
        r == from_le8(b@.skip(pos as int)),
{
    let ghost s = b@.skip(pos as int);
    let _len = b.len();
    let b0 = b[pos] as u64;
    let b1 = b[pos + 1] as u64;
    let b2 = b[pos + 2] as u64;
    let b3 = b[pos + 3] as u64;
    let b4 = b[pos + 4] as u64;
    let b5 = b[pos + 5] as u64;
    let b6 = b[pos + 6] as u64;
    let b7 = b[pos + 7] as u64;
    assert(s[0] == b0 && s[1] == b1 && s[2] == b2 && s[3] == b3 && s[4] == b4 && s[5] == b5 && s[6]
        == b6 && s[7] == b7);
    b0 | (b1 << 8u64) | (b2 << 16u64) | (b3 << 24u64) | (b4 << 32u64) | (b5 << 40u64) | (b6
        << 48u64) | (b7 << 56u64)
}

pub(crate) fn push_bytes(out: &mut Vec<u8>, src: &Vec<u8>)
    ensures
        final(out)@ == old(out)@ + src@,
{
    let ghost start = out@;
    let mut i: usize = 0;
    while i < src.len()
        invariant
            i <= src@.len(),
            out@ == start + src@.take(i as int),
        decreases src@.len() - i,
    {
        out.push(src[i]);
        i = i + 1;
        assert(out@ =~= start + src@.take(i as int));
    }
    assert(src@.take(i as int) =~= src@);
}

fn push_field(out: &mut Vec<u8>, b: &Vec<u8>)
    ensures
        final(out)@ == old(out)@ + field_bytes(b@),
{
    push_le8(out, b.len() as u64);
    push_bytes(out, b);
    assert(final(out)@ =~= old(out)@ + field_bytes(b@));
}

/// Appends the bytes of one record to `out`.
pub fn encode_entry(out: &mut Vec<u8>, e: &Entry)
    ensures
        final(out)@ == old(out)@ + entry_bytes(e@),
{
    let ghost start = out@;
    push_field(out, &e.id);
    match e.ttl {
        None => out.push(0u8),
        Some(t) => {
            out.push(1u8);
            push_le8(out, t);
        },
    }
    push_field(out, &e.data);
    assert(out@ =~= start + entry_bytes(e@));
}

proof fn lemma_segment_bytes_push(es: Seq<EntryModel>, e: EntryModel)
    ensures
        segment_bytes(es.push(e)) == segment_bytes(es) + entry_bytes(e),
    decreases es.len(),
{
    if es.len() == 0 {
        assert(es.push(e).drop_first() =~= Seq::<EntryModel>::empty());
        assert(segment_bytes(es.push(e).drop_first()) == Seq::<u8>::empty());
        assert(segment_bytes(es.push(e)) =~= entry_bytes(e));
    } else {
        assert(es.push(e).drop_first() =~= es.drop_first().push(e));
        lemma_segment_bytes_push(es.drop_first(), e);
        assert(segment_bytes(es.push(e)) =~= segment_bytes(es) + entry_bytes(e));
    }
}

/// The bytes of a segment file that holds `es`, in order.
pub fn encode_segment(es: &Vec<Entry>) -> (r: Vec<u8>)
    ensures
        r@ == segment_bytes(models(es@)),
{
    let mut out: Vec<u8> = Vec::new();
    let mut i: usize = 0;
    while i < es.len()
        invariant
            i <= es@.len(),
            out@ == segment_bytes(models(es@.take(i as int))),
        decreases es@.len() - i,
    {
        encode_entry(&mut out, &es[i]);
        proof {
            lemma_segment_bytes_push(models(es@.take(i as int)), es@[i as int]@);
            assert(models(es@.take(i + 1)) =~= models(es@.take(i as int)).push(es@[i as int]@));
        }
        i = i + 1;
    }
    assert(es@.take(i as int) =~= es@);
    out
}

pub(crate) fn copy_range(b: &Vec<u8>, from: usize, to: usize) -> (r: Vec<u8>)
    requires
        from <= to <= b@.len(),
    ensures
        r@ == b@.subrange(from as int, to as int),
{
    let mut out: Vec<u8> = Vec::new();
    let mut i: usize = from;
    while i < to
        invariant
            from <= i <= to,
            to <= b@.len(),
            out@ == b@.subrange(from as int, i as int),
        decreases to - i,
    {
        out.push(b[i]);
        i = i + 1;
        assert(out@ =~= b@.subrange(from as int, i as int));
    }
    out
}

fn parse_field_at(b: &Vec<u8>, pos: usize) -> (r: Option<(Vec<u8>, usize)>)
    requires
        pos <= b@.len(),
    ensures
        match r {
            Some((f, next)) => pos < next <= b@.len() && parse_field(b@.skip(pos as int)) == Some(
                (f@, b@.skip(next as int)),
            ),
            None => parse_field(b@.skip(pos as int)) is None,
        },
{
    let ghost s = b@.skip(pos as int);
    if b.len() - pos < 8 {
        return None;
    }
    let n = read_le8(b, pos);
    if ((b.len() - pos - 8) as u64) < n {
        return None;
    }
    let start = pos + 8;
    let next = start + n as usize;
    let f = copy_range(b, start, next);
    assert(f@ =~= s.subrange(8, 8 + n as int));
    assert(b@.skip(next as int) =~= s.skip(8 + n as int));
    Some((f, next))
}

fn parse_entry_at(b: &Vec<u8>, pos: usize) -> (r: Option<(Entry, usize)>)
    requires
        pos <= b@.len(),
    ensures
        match r {
            Some((e, next)) => pos < next <= b@.len() && parse_entry(b@.skip(pos as int)) == Some(
                (e@, b@.skip(next as int)),
            ),
            None => parse_entry(b@.skip(pos as int)) is None,
        },
{
    let (id, after_id) = match parse_field_at(b, pos) {
        None => return None,
        Some(x) => x,
    };
    let ghost r1 = b@.skip(after_id as int);
    if after_id >= b.len() {
        return None;
    }
    let tag = b[after_id];
    let ttl: Option<u64>;
    let after_ttl: usize;
    if tag == 0 {
        ttl = None;
        after_ttl = after_id + 1;
        assert(b@.skip(after_ttl as int) =~= r1.skip(1));
    } else if tag == 1 && b.len() - after_id >= 9 {
        let t = read_le8(b, after_id + 1);
        assert(b@.skip(after_id + 1) =~= r1.skip(1));
        ttl = Some(t);
        after_ttl = after_id + 9;
        assert(b@.skip(after_ttl as int) =~= r1.skip(9));
    } else {
        return None;
    }
    assert(parse_ttl(r1) == Some((ttl, b@.skip(after_ttl as int))));
    let (data, after_data) = match parse_field_at(b, after_ttl) {
        None => return None,
        Some(x) => x,
    };
    let e = Entry { id, ttl, data };
    Some((e, after_data))
}

/// Decodes a segment file into its records, in order; `None` where the bytes
/// are not a sequence of whole records.
pub fn decode_segment(b: &Vec<u8>) -> (r: Option<Vec<Entry>>)
    ensures
        match r {
            Some(v) => parse_segment(b@) == Some(models(v@)),
            None => parse_segment(b@) is None,
        },
{
    let mut out: Vec<Entry> = Vec::new();
    let mut pos: usize = 0;
    assert(b@.skip(0) =~= b@);
    while pos < b.len()
        invariant
            pos <= b@.len(),
            match parse_segment(b@.skip(pos as int)) {
                None => parse_segment(b@) is None,
                Some(rest) => parse_segment(b@) == Some(models(out@) + rest),
            },
        decreases b@.len() - pos,
    {
        let ghost s = b@.skip(pos as int);
        match parse_entry_at(b, pos) {
            None => {
                return None;
            },
            Some((e, next)) => {
                assert(s.len() > 0);
                let ghost old_out = out@;
                out.push(e);
                proof {
                    assert(models(out@) =~= models(old_out).push(e@));
                    match parse_segment(b@.skip(next as int)) {
                        None => {},
                        Some(rest) => {
                            assert(parse_segment(s) == Some(seq![e@] + rest));
                            assert(models(old_out) + (seq![e@] + rest) =~= models(out@) + rest);
                        },
                    }
                }
                pos = next;
            },
        }
    }
    assert(b@.skip(pos as int) =~= Seq::<u8>::empty());
    assert(models(out@) + Seq::<EntryModel>::empty() =~= models(out@));
    Some(out)
}

} // verus!
