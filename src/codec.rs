use vstd::prelude::*;
use vstd::string::StringSliceAdditionalSpecFns;
use vstd::utf8::{decode_utf8, encode_utf8, valid_utf8, encode_utf8_decode_utf8, encode_utf8_valid_utf8};
use crate::value::{Value, ValueView, Node, NodeView, PropsView, props_view};

verus! {

/// Why a record could not be turned into bytes, or bytes back into a record.
#[derive(Debug, PartialEq, Eq)]
pub enum CodecError {
    Encode,
    Decode,
}

// ----- byte layout -----

pub open spec fn le_u32(x: u32) -> Seq<u8> {
    seq![x as u8, (x >> 8u32) as u8, (x >> 16u32) as u8, (x >> 24u32) as u8]
}

pub open spec fn le_u64(x: u64) -> Seq<u8> {
    seq![
        x as u8,
        (x >> 8u64) as u8,
        (x >> 16u64) as u8,
        (x >> 24u64) as u8,
        (x >> 32u64) as u8,
        (x >> 40u64) as u8,
        (x >> 48u64) as u8,
        (x >> 56u64) as u8,
    ]
}

/// A string: its UTF-8 length as eight little-endian bytes, then its UTF-8 bytes.
pub open spec fn str_bytes(s: Seq<char>) -> Seq<u8> {
    le_u64(encode_utf8(s).len() as u64) + encode_utf8(s)
}

pub open spec fn tag_of(v: ValueView) -> u32 {
    match v {
        ValueView::Empty => 0,
        ValueView::Boolean(_) => 1,
        ValueView::I64(_) => 2,
        ValueView::U64(_) => 3,
        ValueView::Str(_) => 4,
    }
}

pub open spec fn payload_bytes(v: ValueView) -> Seq<u8> {
    match v {
        ValueView::Empty => Seq::empty(),
        ValueView::Boolean(b) => seq![if b { 1u8 } else { 0u8 }],
        ValueView::I64(i) => le_u64(i as u64),
        ValueView::U64(u) => le_u64(u),
        ValueView::Str(s) => str_bytes(s),
    }
}

/// A value: its variant tag as four little-endian bytes, then its payload.
pub open spec fn value_bytes(v: ValueView) -> Seq<u8> {
    le_u32(tag_of(v)) + payload_bytes(v)
}

pub open spec fn entry_bytes(e: (Seq<char>, ValueView)) -> Seq<u8> {
    str_bytes(e.0) + value_bytes(e.1)
}

pub open spec fn props_bytes(ps: PropsView) -> Seq<u8>
    decreases ps.len(),
{
    if ps.len() == 0 {
        Seq::empty()
    } else {
        props_bytes(ps.drop_last()) + entry_bytes(ps.last())
    }
}

/// A node: its id as sixteen little-endian bytes, its label, the number of
/// properties as eight little-endian bytes, then each property in order.
pub open spec fn node_bytes(n: NodeView) -> Seq<u8> {
    le_u64(n.id as u64) + le_u64((n.id >> 64u128) as u64) + str_bytes(n.label) + le_u64(
        n.properties.len() as u64,
    ) + props_bytes(n.properties)
}

/// The node whose encoding is exactly `b`, if there is one.
pub open spec fn decoded(b: Seq<u8>) -> Option<NodeView> {
    if exists|n: NodeView| node_bytes(n) == b {
        Some(choose|n: NodeView| node_bytes(n) == b)
    } else {
        None
    }
}

// ----- outside serializer -----

/// Relies on bincode::serialize (fixed-width integers, little-endian, no size limit):
/// a u32 becomes its four little-endian bytes; writing into a Vec does not fail.
#[verifier::external_body]
fn ser_u32(x: u32) -> (r: Result<Vec<u8>, CodecError>)
    ensures
        r is Ok && r->Ok_0@ == le_u32(x),
{
    match bincode::serialize(&x) {
        Ok(b) => Ok(b),
        Err(_) => Err(CodecError::Encode),
    }
}

/// Relies on bincode::serialize (fixed-width integers, little-endian, no size limit):
/// a u64 becomes its eight little-endian bytes; writing into a Vec does not fail.
#[verifier::external_body]
fn ser_u64(x: u64) -> (r: Result<Vec<u8>, CodecError>)
    ensures
        r is Ok && r->Ok_0@ == le_u64(x),
{
    match bincode::serialize(&x) {
        Ok(b) => Ok(b),
        Err(_) => Err(CodecError::Encode),
    }
}

/// Relies on bincode::serialize (fixed-width integers, little-endian, no size limit):
/// a str becomes its byte length as a u64, then its UTF-8 bytes; writing into a Vec
/// does not fail.
#[verifier::external_body]
fn ser_str(s: &str) -> (r: Result<Vec<u8>, CodecError>)
    ensures
        r is Ok && r->Ok_0@ == le_u64(s.spec_bytes().len() as u64) + s.spec_bytes(),
{
    match bincode::serialize(s) {
        Ok(b) => Ok(b),
        Err(_) => Err(CodecError::Encode),
    }
}

/// Relies on String::from_utf8: it accepts exactly the valid UTF-8 sequences and
/// returns the characters that they encode.
#[verifier::external_body]
fn string_from_utf8(b: Vec<u8>) -> (r: Option<String>)
    ensures
        r is Some <==> valid_utf8(b@),
        r matches Some(s) ==> s@ == decode_utf8(b@),
{
    match String::from_utf8(b) {
        Ok(s) => Some(s),
        Err(_) => None,
    }
}

// ----- encoding -----

fn push_all(out: &mut Vec<u8>, bytes: Result<Vec<u8>, CodecError>) -> (r: Result<(), CodecError>)
    ensures
        match bytes {
            Ok(b) => r is Ok && final(out)@ == old(out)@ + b@,
            Err(_) => r is Err && final(out)@ == old(out)@,
        },
{
    match bytes {
        Ok(b) => {
            let mut b = b;
            out.append(&mut b);
            Ok(())
        },
        Err(e) => Err(e),
    }
}

fn encode_str_into(out: &mut Vec<u8>, s: &str) -> (r: Result<(), CodecError>)
    ensures
        r is Ok,
        final(out)@ == old(out)@ + str_bytes(s@),
{
    push_all(out, ser_str(s))
}

/// Appends the encoding of `v`; this never fails.
pub fn encode_value_into(out: &mut Vec<u8>, v: &Value) -> (r: Result<(), CodecError>)
    ensures
        r is Ok,
        final(out)@ == old(out)@ + value_bytes(v@),
{
    let ghost start = out@;
    match v {
        Value::Empty => {
            push_all(out, ser_u32(0))?;
        },
        Value::Boolean(b) => {
            push_all(out, ser_u32(1))?;
            out.push(if *b { 1u8 } else { 0u8 });
        },
        Value::I64(i) => {
            push_all(out, ser_u32(2))?;
            push_all(out, ser_u64(*i as u64))?;
        },
        Value::U64(u) => {
            push_all(out, ser_u32(3))?;
            push_all(out, ser_u64(*u))?;
        },
        Value::String(s) => {
            push_all(out, ser_u32(4))?;
            encode_str_into(out, s.as_str())?;
        },
    }
    assert(out@ =~= start + value_bytes(v@));
    Ok(())
}

/// The encoding of a value on its own; the key under which a secondary index
/// records a node.
pub fn encode_value(v: &Value) -> (r: Result<Vec<u8>, CodecError>)
    ensures
        r is Ok && r->Ok_0@ == value_bytes(v@),
{
    let mut out: Vec<u8> = Vec::new();
    encode_value_into(&mut out, v)?;
    assert(out@ =~= value_bytes(v@));
    Ok(out)
}

/// Encodes a node; this never fails.
pub fn encode_node(n: &Node) -> (r: Result<Vec<u8>, CodecError>)
    ensures
        r is Ok && r->Ok_0@ == node_bytes(n@),
{
    let mut out: Vec<u8> = Vec::new();
    push_all(&mut out, ser_u64(n.id as u64))?;
    push_all(&mut out, ser_u64((n.id >> 64u128) as u64))?;
    encode_str_into(&mut out, n.label.as_str())?;
    push_all(&mut out, ser_u64(n.properties.len() as u64))?;
    let ghost head = out@;
    let mut i: usize = 0;
    while i < n.properties.len()
        invariant
            i <= n.properties@.len(),
            out@ == head + props_bytes(props_view(n.properties@.subrange(0, i as int))),
        decreases n.properties@.len() - i,
    {
        let ghost pv = props_view(n.properties@.subrange(0, i + 1));
        assert(pv.drop_last() =~= props_view(n.properties@.subrange(0, i as int)));
        assert(pv.last() == (n.properties@[i as int].0@, n.properties@[i as int].1@));
        encode_str_into(&mut out, n.properties[i].0.as_str())?;
        encode_value_into(&mut out, &n.properties[i].1)?;
        assert(out@ =~= head + props_bytes(pv));
        i = i + 1;
    }
    assert(n.properties@.subrange(0, i as int) =~= n.properties@);
    assert(out@ =~= node_bytes(n@));
    Ok(out)
}

// ----- decoding -----

/// `e` stands in `b` from position `pos` on.
pub open spec fn encodes_at(b: Seq<u8>, pos: int, e: Seq<u8>) -> bool {
    0 <= pos && pos + e.len() <= b.len() && b.subrange(pos, pos + e.len()) == e
}

proof fn lemma_le_u32_injective(x: u32, y: u32)
    requires
        le_u32(x) == le_u32(y),
    ensures
        x == y,
{
    assert(le_u32(x)[0] == le_u32(y)[0]);
    assert(le_u32(x)[1] == le_u32(y)[1]);
    assert(le_u32(x)[2] == le_u32(y)[2]);
    assert(le_u32(x)[3] == le_u32(y)[3]);
    assert((x as u8 == y as u8 && (x >> 8u32) as u8 == (y >> 8u32) as u8 && (x >> 16u32) as u8 == (
    y >> 16u32) as u8 && (x >> 24u32) as u8 == (y >> 24u32) as u8) ==> x == y) by (bit_vector);
}

proof fn lemma_le_u64_injective(x: u64, y: u64)
    requires
        le_u64(x) == le_u64(y),
    ensures
        x == y,
{
    assert(le_u64(x)[0] == le_u64(y)[0]);
    assert(le_u64(x)[1] == le_u64(y)[1]);
    assert(le_u64(x)[2] == le_u64(y)[2]);
    assert(le_u64(x)[3] == le_u64(y)[3]);
    assert(le_u64(x)[4] == le_u64(y)[4]);
    assert(le_u64(x)[5] == le_u64(y)[5]);
    assert(le_u64(x)[6] == le_u64(y)[6]);
    assert(le_u64(x)[7] == le_u64(y)[7]);
    assert((x as u8 == y as u8 && (x >> 8u64) as u8 == (y >> 8u64) as u8 && (x >> 16u64) as u8 == (
    y >> 16u64) as u8 && (x >> 24u64) as u8 == (y >> 24u64) as u8 && (x >> 32u64) as u8 == (y
        >> 32u64) as u8 && (x >> 40u64) as u8 == (y >> 40u64) as u8 && (x >> 48u64) as u8 == (y
        >> 48u64) as u8 && (x >> 56u64) as u8 == (y >> 56u64) as u8) ==> x == y) by (bit_vector);
}

proof fn lemma_id_halves(id: u128)
    ensures
        ((id as u64) as u128) | (((id >> 64u128) as u64) as u128) << 64u128 == id,
{
    assert(((id as u64) as u128) | (((id >> 64u128) as u64) as u128) << 64u128 == id)
        by (bit_vector);
}

proof fn lemma_id_from_halves(lo: u64, hi: u64)
    ensures
        (((lo as u128) | ((hi as u128) << 64u128)) as u64) == lo,
        ((((lo as u128) | ((hi as u128) << 64u128)) >> 64u128) as u64) == hi,
{
    assert((((lo as u128) | ((hi as u128) << 64u128)) as u64) == lo) by (bit_vector);
    assert(((((lo as u128) | ((hi as u128) << 64u128)) >> 64u128) as u64) == hi) by (bit_vector);
}

/// Two strings encoded at one position are the same string.
proof fn lemma_str_unique(b: Seq<u8>, pos: int, s: Seq<char>, t: Seq<char>)
    requires
        b.len() <= u64::MAX,
        encodes_at(b, pos, str_bytes(s)),
        encodes_at(b, pos, str_bytes(t)),
    ensures
        s == t,
{
    let es = encode_utf8(s);
    let et = encode_utf8(t);
    assert(es.len() <= u64::MAX && et.len() <= u64::MAX);
    assert(b.subrange(pos, pos + 8) == le_u64(es.len() as u64)) by {
        assert(b.subrange(pos, pos + 8) =~= str_bytes(s).subrange(0, 8));
        assert(str_bytes(s).subrange(0, 8) =~= le_u64(es.len() as u64));
    }
    assert(b.subrange(pos, pos + 8) == le_u64(et.len() as u64)) by {
        assert(b.subrange(pos, pos + 8) =~= str_bytes(t).subrange(0, 8));
        assert(str_bytes(t).subrange(0, 8) =~= le_u64(et.len() as u64));
    }
    lemma_le_u64_injective(es.len() as u64, et.len() as u64);
    assert(es.len() <= b.len());
    assert(es =~= b.subrange(pos + 8, pos + 8 + es.len())) by {
        assert(str_bytes(s).subrange(8, 8 + es.len() as int) =~= es);
    }
    assert(et =~= b.subrange(pos + 8, pos + 8 + et.len())) by {
        assert(str_bytes(t).subrange(8, 8 + et.len() as int) =~= et);
    }
    encode_utf8_decode_utf8(s);
    encode_utf8_decode_utf8(t);
}

/// Two values encoded at one position are the same value.
proof fn lemma_value_unique(b: Seq<u8>, pos: int, v: ValueView, w: ValueView)
    requires
        b.len() <= u64::MAX,
        encodes_at(b, pos, value_bytes(v)),
        encodes_at(b, pos, value_bytes(w)),
    ensures
        v == w,
{
    assert(b.subrange(pos, pos + 4) =~= le_u32(tag_of(v))) by {
        assert(value_bytes(v).subrange(0, 4) =~= le_u32(tag_of(v)));
        assert(b.subrange(pos, pos + 4) =~= value_bytes(v).subrange(0, 4));
    }
    assert(b.subrange(pos, pos + 4) =~= le_u32(tag_of(w))) by {
        assert(value_bytes(w).subrange(0, 4) =~= le_u32(tag_of(w)));
        assert(b.subrange(pos, pos + 4) =~= value_bytes(w).subrange(0, 4));
    }
    lemma_le_u32_injective(tag_of(v), tag_of(w));
    let pv = payload_bytes(v);
    let pw = payload_bytes(w);
    assert(encodes_at(b, pos + 4, pv)) by {
        assert(value_bytes(v).subrange(4, 4 + pv.len() as int) =~= pv);
        assert(b.subrange(pos + 4, pos + 4 + pv.len()) =~= value_bytes(v).subrange(4, 4 + pv.len() as int));
    }
    assert(encodes_at(b, pos + 4, pw)) by {
        assert(value_bytes(w).subrange(4, 4 + pw.len() as int) =~= pw);
        assert(b.subrange(pos + 4, pos + 4 + pw.len()) =~= value_bytes(w).subrange(4, 4 + pw.len() as int));
    }
    match v {
        ValueView::Empty => {},
        ValueView::Boolean(x) => {
            let y = w->Boolean_0;
            assert(pv[0] == b[pos + 4]);
            assert(pw[0] == b[pos + 4]);
        },
        ValueView::I64(x) => {
            let y = w->I64_0;
            assert(pv =~= pw);
            lemma_le_u64_injective(x as u64, y as u64);
            assert(x == y) by (bit_vector)
                requires x as u64 == y as u64;
        },
        ValueView::U64(x) => {
            assert(pv =~= pw);
            lemma_le_u64_injective(x, w->U64_0);
        },
        ValueView::Str(x) => {
            lemma_str_unique(b, pos + 4, x, w->Str_0);
        },
    }
}

proof fn lemma_encodes_split(b: Seq<u8>, pos: int, x: Seq<u8>, y: Seq<u8>)
    ensures
        encodes_at(b, pos, x + y) <==> (encodes_at(b, pos, x) && encodes_at(b, pos + x.len(), y)),
{
    if encodes_at(b, pos, x + y) {
        assert((x + y).subrange(0, x.len() as int) =~= x);
        assert((x + y).subrange(x.len() as int, (x.len() + y.len()) as int) =~= y);
        assert(b.subrange(pos, pos + x.len()) =~= (x + y).subrange(0, x.len() as int));
        assert(b.subrange(pos + x.len(), pos + x.len() + y.len()) =~= (x + y).subrange(
            x.len() as int,
            (x.len() + y.len()) as int,
        ));
    }
    if encodes_at(b, pos, x) && encodes_at(b, pos + x.len(), y) {
        assert forall|i: int| 0 <= i < (x + y).len() implies b.subrange(pos, pos + (x + y).len())[i]
            == (x + y)[i] by {
            if i < x.len() {
                assert(b.subrange(pos, pos + x.len())[i] == x[i]);
            } else {
                assert(b.subrange(pos + x.len(), pos + x.len() + y.len())[i - x.len()] == y[i
                    - x.len()]);
            }
        }
        assert(b.subrange(pos, pos + (x + y).len()) =~= x + y);
    }
}

proof fn lemma_props_len(ps: PropsView)
    ensures
        props_bytes(ps).len() >= ps.len(),
    decreases ps.len(),
{
    if ps.len() > 0 {
        lemma_props_len(ps.drop_last());
    }
}

/// Two property lists of one length encoded at one position are the same list.
proof fn lemma_props_unique(b: Seq<u8>, pos: int, ps: PropsView, qs: PropsView)
    requires
        b.len() <= u64::MAX,
        ps.len() == qs.len(),
        encodes_at(b, pos, props_bytes(ps)),
        encodes_at(b, pos, props_bytes(qs)),
    ensures
        ps == qs,
    decreases ps.len(),
{
    if ps.len() == 0 {
        assert(ps =~= qs);
    } else {
        let (pl, ql) = (ps.drop_last(), qs.drop_last());
        lemma_encodes_split(b, pos, props_bytes(pl), entry_bytes(ps.last()));
        lemma_encodes_split(b, pos, props_bytes(ql), entry_bytes(qs.last()));
        lemma_props_unique(b, pos, pl, ql);
        let at = pos + props_bytes(pl).len();
        lemma_encodes_split(b, at, str_bytes(ps.last().0), value_bytes(ps.last().1));
        lemma_encodes_split(b, at, str_bytes(qs.last().0), value_bytes(qs.last().1));
        lemma_str_unique(b, at, ps.last().0, qs.last().0);
        lemma_value_unique(b, at + str_bytes(ps.last().0).len(), ps.last().1, qs.last().1);
        assert(ps =~= pl.push(ps.last()));
        assert(qs =~= ql.push(qs.last()));
    }
}

/// Two u64s encoded at one position are the same; this turns the two placements
/// into the equality of encodings that injectivity needs.
proof fn lemma_u64_unique(b: Seq<u8>, pos: int, x: u64, y: u64)
    requires
        encodes_at(b, pos, le_u64(x)),
        encodes_at(b, pos, le_u64(y)),
    ensures
        x == y,
{
    lemma_le_u64_injective(x, y);
}

/// The encoding of a node that fits in memory determines the node.
#[verifier::rlimit(60)]
proof fn lemma_node_unique(m: NodeView, n: NodeView)
    requires
        node_bytes(m) == node_bytes(n),
        node_bytes(m).len() <= u64::MAX,
    ensures
        m == n,
{
    let b = node_bytes(m);
    assert(encodes_at(b, 0, b)) by {
        assert(b.subrange(0, b.len() as int) =~= b);
    }
    let (lm, hm) = (le_u64(m.id as u64), le_u64((m.id >> 64u128) as u64));
    let (ln, hn) = (le_u64(n.id as u64), le_u64((n.id >> 64u128) as u64));
    let cm = le_u64(m.properties.len() as u64);
    let cn = le_u64(n.properties.len() as u64);
    lemma_encodes_split(b, 0, lm + hm + str_bytes(m.label) + cm, props_bytes(m.properties));
    lemma_encodes_split(b, 0, lm + hm + str_bytes(m.label), cm);
    lemma_encodes_split(b, 0, lm + hm, str_bytes(m.label));
    lemma_encodes_split(b, 0, lm, hm);
    lemma_encodes_split(b, 0, ln + hn + str_bytes(n.label) + cn, props_bytes(n.properties));
    lemma_encodes_split(b, 0, ln + hn + str_bytes(n.label), cn);
    lemma_encodes_split(b, 0, ln + hn, str_bytes(n.label));
    lemma_encodes_split(b, 0, ln, hn);
    lemma_u64_unique(b, 0, m.id as u64, n.id as u64);
    lemma_u64_unique(b, 8, (m.id >> 64u128) as u64, (n.id >> 64u128) as u64);
    lemma_id_halves(m.id);
    lemma_id_halves(n.id);
    lemma_str_unique(b, 16, m.label, n.label);
    let at: int = 16 + str_bytes(m.label).len() as int;
    lemma_props_len(m.properties);
    lemma_props_len(n.properties);
    lemma_u64_unique(b, at, m.properties.len() as u64, n.properties.len() as u64);
    lemma_props_unique(b, at + 8, m.properties, n.properties);
}

/// Decoding inverts encoding: the bytes of a node that fits in memory decode
/// to that same node.
pub proof fn lemma_round_trip(n: NodeView)
    requires
        node_bytes(n).len() <= usize::MAX,
    ensures
        decoded(node_bytes(n)) == Some(n),
{
    let m = choose|m: NodeView| node_bytes(m) == node_bytes(n);
    lemma_node_unique(m, n);
}

proof fn lemma_le_u32_compose(b0: u8, b1: u8, b2: u8, b3: u8)
    ensures
        le_u32(b0 as u32 | (b1 as u32) << 8u32 | (b2 as u32) << 16u32 | (b3 as u32) << 24u32)
            == seq![b0, b1, b2, b3],
{
    let x = b0 as u32 | (b1 as u32) << 8u32 | (b2 as u32) << 16u32 | (b3 as u32) << 24u32;
    assert(x as u8 == b0 && (x >> 8u32) as u8 == b1 && (x >> 16u32) as u8 == b2 && (x >> 24u32) as u8
        == b3) by (bit_vector)
        requires
            x == b0 as u32 | (b1 as u32) << 8u32 | (b2 as u32) << 16u32 | (b3 as u32) << 24u32,
    ;
    assert(le_u32(x) =~= seq![b0, b1, b2, b3]);
}

proof fn lemma_le_u64_compose(b0: u8, b1: u8, b2: u8, b3: u8, b4: u8, b5: u8, b6: u8, b7: u8)
    ensures
        le_u64(
            b0 as u64 | (b1 as u64) << 8u64 | (b2 as u64) << 16u64 | (b3 as u64) << 24u64 | (
            b4 as u64) << 32u64 | (b5 as u64) << 40u64 | (b6 as u64) << 48u64 | (b7 as u64)
                << 56u64,
        ) == seq![b0, b1, b2, b3, b4, b5, b6, b7],
{
    let x = b0 as u64 | (b1 as u64) << 8u64 | (b2 as u64) << 16u64 | (b3 as u64) << 24u64 | (
    b4 as u64) << 32u64 | (b5 as u64) << 40u64 | (b6 as u64) << 48u64 | (b7 as u64) << 56u64;
    assert(x as u8 == b0 && (x >> 8u64) as u8 == b1 && (x >> 16u64) as u8 == b2 && (x >> 24u64) as u8
        == b3 && (x >> 32u64) as u8 == b4 && (x >> 40u64) as u8 == b5 && (x >> 48u64) as u8 == b6
        && (x >> 56u64) as u8 == b7) by (bit_vector)
        requires
            x == b0 as u64 | (b1 as u64) << 8u64 | (b2 as u64) << 16u64 | (b3 as u64) << 24u64 | (
            b4 as u64) << 32u64 | (b5 as u64) << 40u64 | (b6 as u64) << 48u64 | (b7 as u64)
                << 56u64,
    ;
    assert(le_u64(x) =~= seq![b0, b1, b2, b3, b4, b5, b6, b7]);
}

fn read_u32(b: &Vec<u8>, pos: usize) -> (r: Option<(u32, usize)>)
    ensures
        match r {
            Some((x, p)) => p == pos + 4 && encodes_at(b@, pos as int, le_u32(x)),
            None => pos + 4 > b@.len(),
        },
{
    if pos > b.len() || b.len() - pos < 4 {
        return None;
    }
    let x = b[pos] as u32 | (b[pos + 1] as u32) << 8u32 | (b[pos + 2] as u32) << 16u32 | (b[pos
        + 3] as u32) << 24u32;
    proof {
        lemma_le_u32_compose(b[pos as int], b[pos + 1], b[pos + 2], b[pos + 3]);
        assert(b@.subrange(pos as int, pos + 4) =~= le_u32(x));
    }
    Some((x, pos + 4))
}

fn read_u64(b: &Vec<u8>, pos: usize) -> (r: Option<(u64, usize)>)
    ensures
        match r {
            Some((x, p)) => p == pos + 8 && encodes_at(b@, pos as int, le_u64(x)),
            None => pos + 8 > b@.len(),
        },
{
    if pos > b.len() || b.len() - pos < 8 {
        return None;
    }
    let x = b[pos] as u64 | (b[pos + 1] as u64) << 8u64 | (b[pos + 2] as u64) << 16u64 | (b[pos
        + 3] as u64) << 24u64 | (b[pos + 4] as u64) << 32u64 | (b[pos + 5] as u64) << 40u64 | (b[pos
        + 6] as u64) << 48u64 | (b[pos + 7] as u64) << 56u64;
    proof {
        lemma_le_u64_compose(
            b[pos as int],
            b[pos + 1],
            b[pos + 2],
            b[pos + 3],
            b[pos + 4],
            b[pos + 5],
            b[pos + 6],
            b[pos + 7],
        );
        assert(b@.subrange(pos as int, pos + 8) =~= le_u64(x));
    }
    Some((x, pos + 8))
}

fn read_str(b: &Vec<u8>, pos: usize) -> (r: Option<(String, usize)>)
    ensures
        r matches Some((s, p)) ==> p == pos + str_bytes(s@).len() && encodes_at(
            b@,
            pos as int,
            str_bytes(s@),
        ),
        forall|t: Seq<char>| encodes_at(b@, pos as int, #[trigger] str_bytes(t)) ==> r is Some,
{
    let (len, start) = match read_u64(b, pos) {
        Some(x) => x,
        None => {
            proof {
                assert forall|t: Seq<char>| encodes_at(b@, pos as int, #[trigger] str_bytes(t))
                    implies false by {
                    assert(str_bytes(t).len() >= 8);
                }
            }
            return None;
        },
    };
    let room = (b.len() - start) as u64;
    if room < len {
        proof {
            assert forall|t: Seq<char>| encodes_at(b@, pos as int, #[trigger] str_bytes(t))
                implies false by {
                let et = encode_utf8(t);
                lemma_encodes_split(b@, pos as int, le_u64(et.len() as u64), et);
                lemma_u64_unique(b@, pos as int, len, et.len() as u64);
            }
        }
        return None;
    }
    let end = start + len as usize;
    let mut bytes: Vec<u8> = Vec::new();
    let mut i: usize = start;
    while i < end
        invariant
            start <= i <= end <= b@.len(),
            bytes@ == b@.subrange(start as int, i as int),
        decreases end - i,
    {
        bytes.push(b[i]);
        assert(bytes@ =~= b@.subrange(start as int, i + 1));
        i = i + 1;
    }
    let ghost raw = bytes@;
    proof {
        assert forall|t: Seq<char>| encodes_at(b@, pos as int, #[trigger] str_bytes(t)) implies valid_utf8(
            raw,
        ) by {
            let et = encode_utf8(t);
            lemma_encodes_split(b@, pos as int, le_u64(et.len() as u64), et);
            lemma_u64_unique(b@, pos as int, len, et.len() as u64);
            assert(raw =~= et);
            encode_utf8_valid_utf8(t);
        }
    }
    match string_from_utf8(bytes) {
        Some(s) => {
            proof {
                vstd::utf8::decode_utf8_encode_utf8(raw);
                assert(encode_utf8(s@) == raw);
                lemma_encodes_split(b@, pos as int, le_u64(raw.len() as u64), raw);
                assert(str_bytes(s@) == le_u64(raw.len() as u64) + raw);
            }
            Some((s, end))
        },
        None => None,
    }
}

proof fn lemma_value_parts(b: Seq<u8>, pos: int, w: ValueView)
    requires
        encodes_at(b, pos, value_bytes(w)),
    ensures
        encodes_at(b, pos, le_u32(tag_of(w))),
        encodes_at(b, pos + 4, payload_bytes(w)),
{
    lemma_encodes_split(b, pos, le_u32(tag_of(w)), payload_bytes(w));
}

fn read_value(b: &Vec<u8>, pos: usize) -> (r: Option<(Value, usize)>)
    ensures
        r matches Some((v, p)) ==> p == pos + value_bytes(v@).len() && encodes_at(
            b@,
            pos as int,
            value_bytes(v@),
        ),
        forall|w: ValueView| encodes_at(b@, pos as int, #[trigger] value_bytes(w)) ==> r is Some,
{
    let (tag, at) = match read_u32(b, pos) {
        Some(x) => x,
        None => {
            proof {
                assert forall|w: ValueView| encodes_at(b@, pos as int, #[trigger] value_bytes(w))
                    implies false by {
                    lemma_value_parts(b@, pos as int, w);
                }
            }
            return None;
        },
    };
    proof {
        assert forall|w: ValueView| encodes_at(b@, pos as int, #[trigger] value_bytes(w)) implies tag
            == tag_of(w) && encodes_at(b@, at as int, payload_bytes(w)) by {
            lemma_value_parts(b@, pos as int, w);
            lemma_le_u32_injective(tag, tag_of(w));
        }
    }
    let ghost head = le_u32(tag);
    let r = if tag == 0 {
        Some((Value::Empty, at))
    } else if tag == 1 {
        if at >= b.len() || b[at] > 1 {
            proof {
                assert forall|w: ValueView| encodes_at(b@, pos as int, #[trigger] value_bytes(w))
                    implies false by {
                    assert(payload_bytes(w)[0] == b@[at as int]);
                }
            }
            None
        } else {
            let v = b[at] == 1;
            proof {
                assert(b@.subrange(at as int, at + 1) =~= payload_bytes(ValueView::Boolean(v)));
            }
            Some((Value::Boolean(v), at + 1))
        }
    } else if tag == 2 || tag == 3 {
        match read_u64(b, at) {
            Some((x, p)) => {
                if tag == 2 {
                    proof {
                        assert((x as i64) as u64 == x) by (bit_vector);
                    }
                    Some((Value::I64(x as i64), p))
                } else {
                    Some((Value::U64(x), p))
                }
            },
            None => None,
        }
    } else if tag == 4 {
        match read_str(b, at) {
            Some((s, p)) => Some((Value::String(s), p)),
            None => None,
        }
    } else {
        None
    };
    proof {
        if r is Some {
            let v = r->Some_0.0;
            lemma_encodes_split(b@, pos as int, head, payload_bytes(v@));
            assert(value_bytes(v@) == head + payload_bytes(v@));
        }
    }
    r
}

/// Decodes a node: succeeds exactly on the encodings of nodes.
pub fn decode_node(b: &Vec<u8>) -> (r: Result<Node, CodecError>)
    ensures
        r is Ok <==> decoded(b@) is Some,
        r matches Ok(n) ==> decoded(b@) == Some(n@),
        r matches Err(e) ==> e is Decode,
{
    // Reading the length tells the prover that the input fits in memory.
    let _size = b.len();
    let ghost target = decoded(b@);
    let ghost m = target->Some_0;
    proof {
        if target is Some {
            assert(node_bytes(m) == b@);
        }
    }
    let parsed = decode_parts(b);
    match parsed {
        Some(n) => {
            proof {
                lemma_node_unique(n@, choose|k: NodeView| node_bytes(k) == b@);
            }
            Ok(n)
        },
        None => Err(CodecError::Decode),
    }
}

#[verifier::rlimit(100)]
fn decode_parts(b: &Vec<u8>) -> (r: Option<Node>)
    ensures
        r matches Some(n) ==> node_bytes(n@) == b@,
        forall|m: NodeView| #[trigger] node_bytes(m) == b@ ==> r is Some,
{
    // Reading the length tells the prover that the input fits in memory.
    let _size = b.len();
    let ghost whole = b@;
    assert(whole.len() <= u64::MAX);
    assert(encodes_at(whole, 0, whole)) by {
        assert(whole.subrange(0, whole.len() as int) =~= whole);
    }
    let (id, label, count, after_count) = match read_head(b) {
        Some(x) => x,
        None => {
            return None;
        },
    };
    let ghost lo = id as u64;
    let ghost hi = (id >> 64u128) as u64;
    let ghost head = le_u64(lo) + le_u64(hi) + str_bytes(label@) + le_u64(count);
    let mut props: Vec<(String, Value)> = Vec::new();
    let mut pos = after_count;
    let mut i: u64 = 0;
    while i < count
        invariant
            i <= count,
            props@.len() == i,
            after_count == head.len(),
            pos == after_count + props_bytes(props_view(props@)).len(),
            encodes_at(whole, 0, head + props_bytes(props_view(props@))),
            whole == b@,
            whole.len() <= u64::MAX,
            forall|m: NodeView| #[trigger] node_bytes(m) == whole ==> m.properties.len() == count
                && encodes_at(whole, after_count as int, props_bytes(m.properties)),
            forall|m: NodeView| #[trigger] node_bytes(m) == whole ==> props_view(props@)
                =~= m.properties.subrange(0, i as int),
        decreases count - i,
    {
        let ghost before = props_view(props@);
        proof {
            assert forall|m: NodeView| #[trigger] node_bytes(m) == whole implies encodes_at(
                whole,
                pos as int,
                str_bytes(m.properties[i as int].0),
            ) && encodes_at(
                whole,
                pos + str_bytes(m.properties[i as int].0).len(),
                value_bytes(m.properties[i as int].1),
            ) by {
                lemma_entry_at(whole, after_count as int, m.properties, i as int);
            }
        }
        let (key, q1) = match read_str(b, pos) {
            Some(x) => x,
            None => {
                proof {
                    assert forall|m: NodeView| #[trigger] node_bytes(m) == whole implies false by {
                        assert(encodes_at(whole, pos as int, str_bytes(m.properties[i as int].0)));
                    }
                }
                return None;
            },
        };
        let (val, q2) = match read_value(b, q1) {
            Some(x) => x,
            None => {
                proof {
                    assert forall|m: NodeView| #[trigger] node_bytes(m) == whole implies false by {
                        let e = m.properties[i as int];
                        lemma_str_unique(whole, pos as int, key@, e.0);
                        assert(encodes_at(whole, q1 as int, value_bytes(e.1)));
                    }
                }
                return None;
            },
        };
        props.push((key, val));
        proof {
            let e = (key@, val@);
            assert(props_view(props@) =~= before.push(e));
            assert(props_view(props@).drop_last() =~= before);
            lemma_encodes_split(whole, pos as int, str_bytes(key@), value_bytes(val@));
            lemma_encodes_split(whole, 0, head + props_bytes(before), entry_bytes(e));
            assert(head + props_bytes(props_view(props@)) =~= head + props_bytes(before) + entry_bytes(e));
            assert forall|m: NodeView| #[trigger] node_bytes(m) == whole implies props_view(props@)
                =~= m.properties.subrange(0, i + 1) by {
                let f = m.properties[i as int];
                lemma_str_unique(whole, pos as int, key@, f.0);
                lemma_value_unique(whole, q1 as int, val@, f.1);
                assert(m.properties.subrange(0, i + 1) =~= m.properties.subrange(0, i as int).push(f));
            }
        }
        pos = q2;
        i = i + 1;
    }
    if pos != b.len() {
        proof {
            assert forall|m: NodeView| #[trigger] node_bytes(m) == whole implies false by {
                assert(m.properties.subrange(0, i as int) =~= m.properties);
                assert(node_bytes(m) =~= head + props_bytes(m.properties));
            }
        }
        return None;
    }
    let n = Node { id, label, properties: props };
    proof {
        assert(whole.subrange(0, whole.len() as int) =~= whole);
        assert(node_bytes(n@) =~= head + props_bytes(props_view(props@)));
    }
    Some(n)
}

/// Reads the id, label and property count that open an encoded node.
fn read_head(b: &Vec<u8>) -> (r: Option<(u128, String, u64, usize)>)
    ensures
        r matches Some((id, label, count, p)) ==> {
            let head = le_u64(id as u64) + le_u64((id >> 64u128) as u64) + str_bytes(label@) + le_u64(
                count,
            );
            &&& encodes_at(b@, 0, head)
            &&& p == head.len()
        },
        forall|m: NodeView| #[trigger] node_bytes(m) == b@ ==> (r matches Some((id, label, count, p))
            && m.id == id && m.label == label@ && m.properties.len() == count && encodes_at(
            b@,
            p as int,
            props_bytes(m.properties),
        )),
{
    // Reading the length tells the prover that the input fits in memory.
    let _size = b.len();
    let ghost whole = b@;
    assert(whole.len() <= u64::MAX);
    let (lo, after_lo) = match read_u64(b, 0) {
        Some(x) => x,
        None => {
            proof {
                assert forall|m: NodeView| #[trigger] node_bytes(m) == whole implies false by {
                    lemma_node_parts(whole, m);
                }
            }
            return None;
        },
    };
    let (hi, after_hi) = match read_u64(b, after_lo) {
        Some(x) => x,
        None => {
            proof {
                assert forall|m: NodeView| #[trigger] node_bytes(m) == whole implies false by {
                    lemma_node_parts(whole, m);
                }
            }
            return None;
        },
    };
    let (label, after_label) = match read_str(b, after_hi) {
        Some(x) => x,
        None => {
            proof {
                assert forall|m: NodeView| #[trigger] node_bytes(m) == whole implies false by {
                    lemma_node_parts(whole, m);
                }
            }
            return None;
        },
    };
    let (count, after_count) = match read_u64(b, after_label) {
        Some(x) => x,
        None => {
            proof {
                assert forall|m: NodeView| #[trigger] node_bytes(m) == whole implies false by {
                    lemma_node_parts(whole, m);
                    lemma_str_unique(whole, 16, label@, m.label);
                }
            }
            return None;
        },
    };
    let id: u128 = (lo as u128) | ((hi as u128) << 64u128);
    proof {
        lemma_id_from_halves(lo, hi);
        assert forall|m: NodeView| #[trigger] node_bytes(m) == whole implies m.id == id && m.label
            == label@ && m.properties.len() == count && encodes_at(
            whole,
            after_count as int,
            props_bytes(m.properties),
        ) by {
            lemma_node_parts(whole, m);
            lemma_u64_unique(whole, 0, lo, m.id as u64);
            lemma_u64_unique(whole, 8, hi, (m.id >> 64u128) as u64);
            lemma_id_halves(m.id);
            lemma_str_unique(whole, 16, label@, m.label);
            lemma_u64_unique(whole, after_label as int, count, m.properties.len() as u64);
            lemma_props_len(m.properties);
        }
        lemma_encodes_split(whole, 0, le_u64(lo), le_u64(hi));
        lemma_encodes_split(whole, 0, le_u64(lo) + le_u64(hi), str_bytes(label@));
        lemma_encodes_split(whole, 0, le_u64(lo) + le_u64(hi) + str_bytes(label@), le_u64(count));
    }
    Some((id, label, count, after_count))
}

proof fn lemma_node_parts(b: Seq<u8>, m: NodeView)
    requires
        node_bytes(m) == b,
    ensures
        encodes_at(b, 0, le_u64(m.id as u64)),
        encodes_at(b, 8, le_u64((m.id >> 64u128) as u64)),
        encodes_at(b, 16, str_bytes(m.label)),
        encodes_at(b, 16 + str_bytes(m.label).len() as int, le_u64(m.properties.len() as u64)),
        encodes_at(b, 24 + str_bytes(m.label).len() as int, props_bytes(m.properties)),
{
    assert(b.subrange(0, b.len() as int) =~= b);
    let (l, h, c) = (
        le_u64(m.id as u64),
        le_u64((m.id >> 64u128) as u64),
        le_u64(m.properties.len() as u64),
    );
    lemma_encodes_split(b, 0, l + h + str_bytes(m.label) + c, props_bytes(m.properties));
    lemma_encodes_split(b, 0, l + h + str_bytes(m.label), c);
    lemma_encodes_split(b, 0, l + h, str_bytes(m.label));
    lemma_encodes_split(b, 0, l, h);
}

proof fn lemma_props_encodes_prefix(b: Seq<u8>, p: int, ps: PropsView, k: int)
    requires
        encodes_at(b, p, props_bytes(ps)),
        0 <= k <= ps.len(),
    ensures
        encodes_at(b, p, props_bytes(ps.subrange(0, k))),
    decreases ps.len(),
{
    if k == ps.len() {
        assert(ps.subrange(0, k) =~= ps);
    } else {
        lemma_encodes_split(b, p, props_bytes(ps.drop_last()), entry_bytes(ps.last()));
        assert(ps.drop_last().subrange(0, k) =~= ps.subrange(0, k));
        lemma_props_encodes_prefix(b, p, ps.drop_last(), k);
    }
}

/// Where the `i`-th entry of an encoded property list stands.
proof fn lemma_entry_at(b: Seq<u8>, p: int, ps: PropsView, i: int)
    requires
        encodes_at(b, p, props_bytes(ps)),
        0 <= i < ps.len(),
    ensures
        encodes_at(b, p + props_bytes(ps.subrange(0, i)).len(), str_bytes(ps[i].0)),
        encodes_at(
            b,
            p + props_bytes(ps.subrange(0, i)).len() + str_bytes(ps[i].0).len(),
            value_bytes(ps[i].1),
        ),
{
    lemma_props_encodes_prefix(b, p, ps, i + 1);
    let upto = ps.subrange(0, i + 1);
    assert(upto.drop_last() =~= ps.subrange(0, i));
    lemma_encodes_split(b, p, props_bytes(ps.subrange(0, i)), entry_bytes(ps[i]));
    lemma_encodes_split(
        b,
        p + props_bytes(ps.subrange(0, i)).len(),
        str_bytes(ps[i].0),
        value_bytes(ps[i].1),
    );
}

} // verus!
