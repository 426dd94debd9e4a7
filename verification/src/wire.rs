//! The wire format both backends implement, as one mathematical model:
//! big-endian 4-byte integers, IEEE-754 single-precision bit patterns,
//! one-byte booleans and characters, zero-terminated strings,
//! count-prefixed arrays, and structs as the plain concatenation of their
//! fields.  The generated C and Typst codecs both promise exactly this
//! format, so the round-trip laws of the format are proved here, once.

use vstd::prelude::*;

verus! {

/// A wire schema: the fully resolved shape of one encoded value, with
/// every struct reference expanded to the list of its field schemas.
pub enum Wire {
    WInt,
    WFloat,
    WBool,
    WChar,
    WStr,
    WList(Box<Wire>),
    WStruct(Box<WireFields>),
}

/// The field schemas of a struct, in wire order.
pub enum WireFields {
    Nil,
    Cons(Box<Wire>, Box<WireFields>),
}

/// A structural size for wire schemas, used as a termination measure.
pub open spec fn wire_size(w: Wire) -> nat
    decreases w,
{
    match w {
        Wire::WList(e) => 1 + wire_size(*e),
        Wire::WStruct(fs) => 1 + fields_size(*fs),
        _ => 1,
    }
}

/// A structural size for field lists, used as a termination measure.
pub open spec fn fields_size(fs: WireFields) -> nat
    decreases fs,
{
    match fs {
        WireFields::Nil => 1,
        WireFields::Cons(w, rest) => 1 + wire_size(*w) + fields_size(*rest),
    }
}

/// The mathematical shape of a wire value.  A float is carried as its
/// IEEE-754 single-precision bit pattern; a string as its UTF-8 bytes
/// without the terminator.
pub enum WireVal {
    IntV(i32),
    FloatBits(u32),
    BoolV(bool),
    CharV(u8),
    StrV(Seq<u8>),
    ListV(Seq<WireVal>),
    StructV(Seq<WireVal>),
}

/// A runtime value of the wire format, mirroring `WireVal`.
#[derive(PartialEq, Eq, Debug)]
pub enum Value {
    IntV(i32),
    FloatBits(u32),
    BoolV(bool),
    CharV(u8),
    StrV(Vec<u8>),
    ListV(Vec<Value>),
    StructV(Vec<Value>),
}

/// Does the runtime value `v` stand for the mathematical value `m`?
pub open spec fn represents(v: Value, m: WireVal) -> bool
    decreases v,
{
    match (v, m) {
        (Value::IntV(x), WireVal::IntV(y)) => x == y,
        (Value::FloatBits(x), WireVal::FloatBits(y)) => x == y,
        (Value::BoolV(x), WireVal::BoolV(y)) => x == y,
        (Value::CharV(x), WireVal::CharV(y)) => x == y,
        (Value::StrV(s), WireVal::StrV(t)) => s@ == t,
        (Value::ListV(vs), WireVal::ListV(ms)) => vs@.len() == ms.len() && (forall|i: int|
            0 <= i < vs@.len() ==> represents(#[trigger] vs@[i], ms[i])),
        (Value::StructV(vs), WireVal::StructV(ms)) => vs@.len() == ms.len() && (forall|i: int|
            0 <= i < vs@.len() ==> represents(#[trigger] vs@[i], ms[i])),
        _ => false,
    }
}

/// The four big-endian bytes of a 32-bit word.
pub open spec fn be32(x: u32) -> Seq<u8> {
    seq![
        (x >> 24) as u8,
        ((x >> 16) & 0xff) as u8,
        ((x >> 8) & 0xff) as u8,
        (x & 0xff) as u8,
    ]
}

/// The 32-bit word read from four big-endian bytes.
pub open spec fn from_be32(b0: u8, b1: u8, b2: u8, b3: u8) -> u32 {
    (((b0 as u32) << 24) | ((b1 as u32) << 16) | ((b2 as u32) << 8) | (b3 as u32)) as u32
}

proof fn lemma_be32_round(x: u32)
    ensures
        from_be32(be32(x)[0], be32(x)[1], be32(x)[2], be32(x)[3]) == x,
{
    assert((((((x >> 24) as u8) as u32) << 24) | ((((x >> 16) & 0xff) as u8 as u32) << 16) | ((((
    x >> 8) & 0xff) as u8 as u32) << 8) | (((x & 0xff) as u8) as u32)) == x) by (bit_vector);
}

/// Does `v` have the shape `w` asks for, with every string free of the
/// terminator byte and every array count fitting the 4-byte signed count?
pub open spec fn val_matches(w: Wire, v: WireVal) -> bool
    decreases w, 0int,
{
    match (w, v) {
        (Wire::WInt, WireVal::IntV(_)) => true,
        // the wire collapses negative zero to the all-zero word, so the
        // negative-zero bit pattern is not a canonical wire value
        (Wire::WFloat, WireVal::FloatBits(b)) => b != 0x8000_0000u32,
        (Wire::WBool, WireVal::BoolV(_)) => true,
        (Wire::WChar, WireVal::CharV(_)) => true,
        (Wire::WStr, WireVal::StrV(s)) => forall|i: int| 0 <= i < s.len() ==> s[i] != 0u8,
        (Wire::WList(e), WireVal::ListV(vs)) => vs.len() < 0x8000_0000 && (forall|i: int|
            0 <= i < vs.len() ==> val_matches(*e, #[trigger] vs[i])),
        (Wire::WStruct(fs), WireVal::StructV(vs)) => fields_match(*fs, vs, 0),
        _ => false,
    }
}

/// Do the values of `vs` from index `i` on match the field schemas `fs`?
pub open spec fn fields_match(fs: WireFields, vs: Seq<WireVal>, i: int) -> bool
    decreases fs, 1int,
{
    match fs {
        WireFields::Nil => i == vs.len(),
        WireFields::Cons(w, rest) => 0 <= i < vs.len() && val_matches(*w, vs[i]) && fields_match(
            *rest,
            vs,
            i + 1,
        ),
    }
}

/// The encoding of `v` under schema `w`.  `None` when the value does not
/// match the schema.
pub open spec fn wire_encode(w: Wire, v: WireVal) -> Option<Seq<u8>>
    decreases w, 0int,
{
    match (w, v) {
        (Wire::WInt, WireVal::IntV(x)) => Option::Some(be32(x as u32)),
        (Wire::WFloat, WireVal::FloatBits(b)) => if b == 0x8000_0000u32 {
            // both backends collapse negative zero to the all-zero word
            Option::Some(be32(0))
        } else {
            Option::Some(be32(b))
        },
        (Wire::WBool, WireVal::BoolV(x)) => Option::Some(seq![if x { 1u8 } else { 0u8 }]),
        (Wire::WChar, WireVal::CharV(c)) => Option::Some(seq![c]),
        (Wire::WStr, WireVal::StrV(s)) => if forall|i: int| 0 <= i < s.len() ==> s[i] != 0u8 {
            Option::Some(s + seq![0u8])
        } else {
            Option::None
        },
        (Wire::WList(e), WireVal::ListV(vs)) => if vs.len() < 0x8000_0000 {
            match encode_elems(*e, vs, 0) {
                Option::Some(body) => Option::Some(be32(vs.len() as u32) + body),
                Option::None => Option::None,
            }
        } else {
            Option::None
        },
        (Wire::WStruct(fs), WireVal::StructV(vs)) => encode_fields(*fs, vs, 0),
        _ => Option::None,
    }
}

/// The concatenated encodings of the elements of `vs` from index `i` on.
pub open spec fn encode_elems(e: Wire, vs: Seq<WireVal>, i: int) -> Option<Seq<u8>>
    decreases e, vs.len() - i + 1,
{
    if i >= vs.len() {
        Option::Some(Seq::empty())
    } else if i < 0 {
        Option::None
    } else {
        match (wire_encode(e, vs[i]), encode_elems(e, vs, i + 1)) {
            (Option::Some(h), Option::Some(t)) => Option::Some(h + t),
            _ => Option::None,
        }
    }
}

/// The concatenated encodings of the values of `vs` from index `i` on,
/// each under its field schema.
pub open spec fn encode_fields(fs: WireFields, vs: Seq<WireVal>, i: int) -> Option<Seq<u8>>
    decreases fs, 1int,
{
    match fs {
        WireFields::Nil => if i == vs.len() {
            Option::Some(Seq::empty())
        } else {
            Option::None
        },
        WireFields::Cons(w, rest) => if 0 <= i < vs.len() {
            match (wire_encode(*w, vs[i]), encode_fields(*rest, vs, i + 1)) {
                (Option::Some(h), Option::Some(t)) => Option::Some(h + t),
                _ => Option::None,
            }
        } else {
            Option::None
        },
    }
}

/// The index of the first terminator byte of `b`, or `-1` when none.
pub open spec fn first_nul(b: Seq<u8>) -> int
    decreases b.len(),
{
    if b.len() == 0 {
        -1
    } else if b[0] == 0u8 {
        0
    } else {
        let t = first_nul(b.drop_first());
        if t < 0 {
            -1
        } else {
            t + 1
        }
    }
}

/// The decoding of a value of schema `w` from the front of `b`: the value
/// and how many bytes it consumed.  `None` when `b` is truncated or
/// malformed.
pub open spec fn wire_decode(w: Wire, b: Seq<u8>) -> Option<(WireVal, int)>
    decreases w, 0int,
{
    match w {
        Wire::WInt => if b.len() >= 4 {
            Option::Some((WireVal::IntV(from_be32(b[0], b[1], b[2], b[3]) as i32), 4))
        } else {
            Option::None
        },
        Wire::WFloat => if b.len() >= 4 {
            Option::Some((WireVal::FloatBits(from_be32(b[0], b[1], b[2], b[3])), 4))
        } else {
            Option::None
        },
        Wire::WBool => if b.len() >= 1 {
            Option::Some((WireVal::BoolV(b[0] != 0u8), 1))
        } else {
            Option::None
        },
        Wire::WChar => if b.len() >= 1 {
            Option::Some((WireVal::CharV(b[0]), 1))
        } else {
            Option::None
        },
        Wire::WStr => {
            let t = first_nul(b);
            if t < 0 {
                Option::None
            } else {
                Option::Some((WireVal::StrV(b.take(t)), t + 1))
            }
        },
        Wire::WList(e) => if b.len() >= 4 {
            let cnt = from_be32(b[0], b[1], b[2], b[3]) as i32;
            if cnt < 0 {
                Option::None
            } else {
                match decode_elems(*e, b.skip(4), cnt as int) {
                    Option::Some((vs, c)) => Option::Some((WireVal::ListV(vs), 4 + c)),
                    Option::None => Option::None,
                }
            }
        } else {
            Option::None
        },
        Wire::WStruct(fs) => match decode_fields(*fs, b) {
            Option::Some((vs, c)) => Option::Some((WireVal::StructV(vs), c)),
            Option::None => Option::None,
        },
    }
}

/// `cnt` successive values of schema `e` from the front of `b`.
pub open spec fn decode_elems(e: Wire, b: Seq<u8>, cnt: int) -> Option<(Seq<WireVal>, int)>
    decreases e, cnt + 1,
{
    if cnt <= 0 {
        Option::Some((Seq::empty(), 0))
    } else {
        match wire_decode(e, b) {
            Option::Some((v, c)) => match decode_elems(e, b.skip(c), cnt - 1) {
                Option::Some((vs, c2)) => Option::Some((seq![v] + vs, c + c2)),
                Option::None => Option::None,
            },
            Option::None => Option::None,
        }
    }
}

/// The values of the field schemas `fs`, decoded from the front of `b`.
pub open spec fn decode_fields(fs: WireFields, b: Seq<u8>) -> Option<(Seq<WireVal>, int)>
    decreases fs, 1int,
{
    match fs {
        WireFields::Nil => Option::Some((Seq::empty(), 0)),
        WireFields::Cons(w, rest) => match wire_decode(*w, b) {
            Option::Some((v, c)) => match decode_fields(*rest, b.skip(c)) {
                Option::Some((vs, c2)) => Option::Some((seq![v] + vs, c + c2)),
                Option::None => Option::None,
            },
            Option::None => Option::None,
        },
    }
}

/// Scanning for the terminator in `s + [0] + rest` finds exactly the end
/// of `s`, when `s` holds no terminator byte.
proof fn lemma_first_nul_concat(s: Seq<u8>, rest: Seq<u8>)
    requires
        forall|i: int| 0 <= i < s.len() ==> s[i] != 0u8,
    ensures
        first_nul(s + seq![0u8] + rest) == s.len(),
        (s + seq![0u8] + rest).take(s.len() as int) == s,
    decreases s.len(),
{
    let b = s + seq![0u8] + rest;
    assert((s + seq![0u8] + rest).take(s.len() as int) =~= s);
    if s.len() == 0 {
        assert(b[0] == 0u8);
    } else {
        assert(b[0] == s[0]);
        assert(b[0] != 0u8);
        lemma_first_nul_concat(s.drop_first(), rest);
        assert(b.drop_first() =~= s.drop_first() + seq![0u8] + rest);
    }
}

/// Round trip, one value: an encoded value decodes back to itself and
/// consumes exactly its own bytes, whatever follows them in the buffer.
/// This is the law both generated codecs inherit from the shared format.
pub proof fn lemma_round_trip(w: Wire, v: WireVal, rest: Seq<u8>)
    requires
        val_matches(w, v),
    ensures
        wire_encode(w, v) matches Option::Some(b) && wire_decode(w, b + rest) == Option::Some(
            (v, b.len() as int),
        ),
    decreases w, 0int,
{
    match (w, v) {
        (Wire::WInt, WireVal::IntV(x)) => {
            let b = be32(x as u32);
            lemma_be32_round(x as u32);
            assert(forall|k: int| 0 <= k < 4 ==> (b + rest)[k] == b[k]);
            assert(((x as u32) as i32) == x) by (bit_vector);
        },
        (Wire::WFloat, WireVal::FloatBits(bits)) => {
            let b = be32(bits);
            lemma_be32_round(bits);
            assert(forall|k: int| 0 <= k < 4 ==> (b + rest)[k] == b[k]);
        },
        (Wire::WBool, WireVal::BoolV(x)) => {
            let b = wire_encode(w, v).unwrap();
            assert((b + rest)[0] == b[0]);
        },
        (Wire::WChar, WireVal::CharV(c)) => {
            let b = wire_encode(w, v).unwrap();
            assert((b + rest)[0] == b[0]);
        },
        (Wire::WStr, WireVal::StrV(s)) => {
            let b = s + seq![0u8];
            assert(b + rest =~= s + seq![0u8] + rest);
            lemma_first_nul_concat(s, rest);
        },
        (Wire::WList(e), WireVal::ListV(vs)) => {
            lemma_elems_round_trip(*e, vs, 0, rest);
            let body = encode_elems(*e, vs, 0).unwrap();
            let b = be32(vs.len() as u32) + body;
            lemma_be32_round(vs.len() as u32);
            assert(forall|k: int| 0 <= k < 4 ==> (b + rest)[k] == be32(vs.len() as u32)[k]);
            let n32 = vs.len() as u32;
            assert(n32 < 0x8000_0000u32 ==> (n32 as i32) == n32 && (n32 as i32) >= 0)
                by (bit_vector);
            assert((b + rest).skip(4) =~= body + rest);
            assert(vs.skip(0) =~= vs);
        },
        (Wire::WStruct(fs), WireVal::StructV(vs)) => {
            lemma_fields_round_trip(*fs, vs, 0, rest);
            assert(vs.skip(0) =~= vs);
        },
        _ => {},
    }
}

/// Round trip for the elements of a list, from index `i` on.
proof fn lemma_elems_round_trip(e: Wire, vs: Seq<WireVal>, i: int, rest: Seq<u8>)
    requires
        0 <= i <= vs.len(),
        forall|j: int| 0 <= j < vs.len() ==> val_matches(e, #[trigger] vs[j]),
    ensures
        encode_elems(e, vs, i) matches Option::Some(b) && decode_elems(e, b + rest, vs.len() - i)
            == Option::Some((vs.skip(i), b.len() as int)),
    decreases e, vs.len() - i + 1,
{
    if i == vs.len() {
        assert(encode_elems(e, vs, i) == Option::Some(Seq::<u8>::empty()));
        assert(vs.skip(i) =~= Seq::<WireVal>::empty());
    } else {
        let tail = encode_elems(e, vs, i + 1);
        lemma_elems_round_trip(e, vs, i + 1, rest);
        let tb = tail.unwrap();
        lemma_round_trip(e, vs[i], tb + rest);
        let hb = wire_encode(e, vs[i]).unwrap();
        let b = hb + tb;
        assert(b + rest =~= hb + (tb + rest));
        assert((hb + (tb + rest)).skip(hb.len() as int) =~= tb + rest);
        assert(seq![vs[i]] + vs.skip(i + 1) =~= vs.skip(i));
    }
}

/// Round trip for the fields of a struct, from index `i` on.
proof fn lemma_fields_round_trip(fs: WireFields, vs: Seq<WireVal>, i: int, rest: Seq<u8>)
    requires
        fields_match(fs, vs, i),
        0 <= i <= vs.len(),
    ensures
        encode_fields(fs, vs, i) matches Option::Some(b) && decode_fields(fs, b + rest)
            == Option::Some((vs.skip(i), b.len() as int)),
    decreases fs, 1int,
{
    match fs {
        WireFields::Nil => {
            assert(vs.skip(i) =~= Seq::<WireVal>::empty());
        },
        WireFields::Cons(w, fr) => {
            lemma_fields_round_trip(*fr, vs, i + 1, rest);
            let tb = encode_fields(*fr, vs, i + 1).unwrap();
            lemma_round_trip(*w, vs[i], tb + rest);
            let hb = wire_encode(*w, vs[i]).unwrap();
            let b = hb + tb;
            assert(b + rest =~= hb + (tb + rest));
            assert((hb + (tb + rest)).skip(hb.len() as int) =~= tb + rest);
            assert(seq![vs[i]] + vs.skip(i + 1) =~= vs.skip(i));
        },
    }
}

/// Append the encoding of `v` under schema `w` to `out`.  Returns whether
/// the value matched the schema; on failure `out` may hold a partial
/// encoding.  The contract speaks of the mathematical value `v` stands
/// for: whatever it is, the appended bytes are its wire encoding.
pub fn encode_value(w: &Wire, v: &Value, out: &mut Vec<u8>) -> (ok: bool)
    ensures
        forall|m: WireVal|
            represents(*v, m) ==> (match wire_encode(*w, m) {
                Option::Some(b) => ok && final(out)@ == old(out)@ + b,
                Option::None => !ok,
            }),
    decreases wire_size(*w), 0int,
{
    match (w, v) {
        (Wire::WInt, Value::IntV(x)) => {
            push_be32(out, *x as u32);
            true
        },
        (Wire::WFloat, Value::FloatBits(bits)) => {
            if *bits == 0x8000_0000u32 {
                push_be32(out, 0);
            } else {
                push_be32(out, *bits);
            }
            true
        },
        (Wire::WBool, Value::BoolV(x)) => {
            out.push(if *x { 1u8 } else { 0u8 });
            proof {
                assert forall|m: WireVal| represents(*v, m) implies (match wire_encode(*w, m) {
                    Option::Some(b) => final(out)@ == old(out)@ + b,
                    Option::None => false,
                }) by {
                    assert(final(out)@ =~= old(out)@ + seq![if *x { 1u8 } else { 0u8 }]);
                }
            }
            true
        },
        (Wire::WChar, Value::CharV(c)) => {
            out.push(*c);
            proof {
                assert forall|m: WireVal| represents(*v, m) implies (match wire_encode(*w, m) {
                    Option::Some(b) => final(out)@ == old(out)@ + b,
                    Option::None => false,
                }) by {
                    assert(final(out)@ =~= old(out)@ + seq![*c]);
                }
            }
            true
        },
        (Wire::WStr, Value::StrV(s)) => {
            let mut k: usize = 0;
            while k < s.len()
                invariant
                    *w == Wire::WStr,
                    *v == Value::StrV(*s),
                    0 <= k <= s@.len(),
                    forall|j: int| 0 <= j < k ==> s@[j] != 0u8,
                    out@ == old(out)@ + s@.take(k as int),
                decreases s@.len() - k,
            {
                let byte = s[k];
                if byte == 0u8 {
                    proof {
                        assert forall|m: WireVal| represents(*v, m) implies wire_encode(
                            *w,
                            m,
                        ) is None by {
                            if let WireVal::StrV(t) = m {
                                assert(t[k as int] == 0u8);
                            }
                        }
                    }
                    return false;
                }
                out.push(byte);
                proof {
                    assert(out@ =~= old(out)@ + s@.take(k + 1));
                }
                k += 1;
            }
            out.push(0u8);
            proof {
                assert(s@.take(s@.len() as int) =~= s@);
                assert(out@ =~= old(out)@ + (s@ + seq![0u8]));
            }
            true
        },
        (Wire::WList(e), Value::ListV(vs)) => {
            if vs.len() >= 0x8000_0000usize {
                proof {
                    assert forall|m: WireVal| represents(*v, m) implies wire_encode(
                        *w,
                        m,
                    ) is None by {
                        if let WireVal::ListV(ms) = m {
                            assert(ms.len() == vs@.len());
                        }
                    }
                }
                return false;
            }
            push_be32(out, vs.len() as u32);
            let ghost mid = out@;
            let okk = encode_list(&**e, vs, 0, out);
            proof {
                if okk {
                    assert forall|m: WireVal| represents(*v, m) implies (match wire_encode(
                        *w,
                        m,
                    ) {
                        Option::Some(b) => final(out)@ == old(out)@ + b,
                        Option::None => false,
                    }) by {
                        if let WireVal::ListV(ms) = m {
                            assert(ms.len() == vs@.len());
                            assert(!(encode_elems(**e, ms, 0) is None));
                            match encode_elems(**e, ms, 0) {
                                Option::Some(body) => {
                                    assert(final(out)@ =~= old(out)@ + (be32(ms.len() as u32)
                                        + body));
                                },
                                Option::None => {},
                            }
                        }
                    }
                } else {
                    assert forall|m: WireVal| represents(*v, m) implies wire_encode(
                        *w,
                        m,
                    ) is None by {
                        if let WireVal::ListV(ms) = m {
                            assert(ms.len() == vs@.len());
                            assert(encode_elems(**e, ms, 0) is None);
                        }
                    }
                }
            }
            okk
        },
        (Wire::WStruct(fs), Value::StructV(vs)) => {
            let okk = encode_struct(&**fs, vs, 0, out);
            proof {
                assert forall|m: WireVal| represents(*v, m) implies (match wire_encode(*w, m) {
                    Option::Some(b) => okk && final(out)@ == old(out)@ + b,
                    Option::None => !okk,
                }) by {
                    if let WireVal::StructV(ms) = m {
                        assert(ms.len() == vs@.len());
                        match encode_fields(**fs, ms, 0) {
                            Option::Some(b2) => {},
                            Option::None => {},
                        }
                    }
                }
            }
            okk
        },
        _ => {
            proof {
                assert forall|m: WireVal| represents(*v, m) implies wire_encode(*w, m)
                    is None by {
                    match m {
                        WireVal::IntV(_) => {},
                        WireVal::FloatBits(_) => {},
                        WireVal::BoolV(_) => {},
                        WireVal::CharV(_) => {},
                        WireVal::StrV(_) => {},
                        WireVal::ListV(_) => {},
                        WireVal::StructV(_) => {},
                    }
                }
            }
            false
        },
    }
}

/// Append the encodings of the list elements of `vs` from index `i` on,
/// each under the element schema `e`.
fn encode_list(e: &Wire, vs: &Vec<Value>, i: usize, out: &mut Vec<u8>) -> (ok: bool)
    requires
        i <= vs@.len(),
    ensures
        forall|ms: Seq<WireVal>|
            #![trigger encode_elems(*e, ms, i as int)]
            (ms.len() == vs@.len() && (forall|j: int|
                0 <= j < vs@.len() ==> represents(#[trigger] vs@[j], ms[j])))
                ==> (match encode_elems(*e, ms, i as int) {
                Option::Some(b) => ok && final(out)@ == old(out)@ + b,
                Option::None => !ok,
            }),
    decreases wire_size(*e), vs@.len() - i + 1,
{
    if i == vs.len() {
        proof {
            assert(final(out)@ =~= old(out)@ + Seq::<u8>::empty());
        }
        return true;
    }
    let ok1 = encode_value(e, &vs[i], out);
    if !ok1 {
        proof {
            assert forall|ms: Seq<WireVal>|
                #![trigger encode_elems(*e, ms, i as int)]
                (ms.len() == vs@.len() && (forall|j: int|
                    0 <= j < vs@.len() ==> represents(
                        #[trigger] vs@[j],
                        ms[j],
                    ))) implies encode_elems(*e, ms, i as int) is None by {
                assert(represents(vs@[i as int], ms[i as int]));
            }
        }
        return false;
    }
    let ok2 = encode_list(e, vs, i + 1, out);
    if !ok2 {
        proof {
            assert forall|ms: Seq<WireVal>|
                #![trigger encode_elems(*e, ms, i as int)]
                (ms.len() == vs@.len() && (forall|j: int|
                    0 <= j < vs@.len() ==> represents(
                        #[trigger] vs@[j],
                        ms[j],
                    ))) implies encode_elems(*e, ms, i as int) is None by {
                assert(represents(vs@[i as int], ms[i as int]));
                assert(encode_elems(*e, ms, i + 1) is None);
            }
        }
        return false;
    }
    proof {
        assert forall|ms: Seq<WireVal>|
            #![trigger encode_elems(*e, ms, i as int)]
            (ms.len() == vs@.len() && (forall|j: int|
                0 <= j < vs@.len() ==> represents(#[trigger] vs@[j], ms[j]))) implies (match
        encode_elems(*e, ms, i as int) {
            Option::Some(b) => final(out)@ == old(out)@ + b,
            Option::None => false,
        }) by {
            assert(represents(vs@[i as int], ms[i as int]));
            match (wire_encode(*e, ms[i as int]), encode_elems(*e, ms, i + 1)) {
                (Option::Some(h), Option::Some(t)) => {
                    assert(final(out)@ =~= old(out)@ + (h + t));
                },
                _ => {},
            }
        }
    }
    true
}

/// Append the encodings of the struct fields `fs` against the values of
/// `vs` from index `i` on.
fn encode_struct(fs: &WireFields, vs: &Vec<Value>, i: usize, out: &mut Vec<u8>) -> (ok: bool)
    requires
        i <= vs@.len(),
    ensures
        forall|ms: Seq<WireVal>|
            #![trigger encode_fields(*fs, ms, i as int)]
            (ms.len() == vs@.len() && (forall|j: int|
                0 <= j < vs@.len() ==> represents(#[trigger] vs@[j], ms[j])))
                ==> (match encode_fields(*fs, ms, i as int) {
                Option::Some(b) => ok && final(out)@ == old(out)@ + b,
                Option::None => !ok,
            }),
    decreases fields_size(*fs), 0int,
{
    match fs {
        WireFields::Nil => {
            if i == vs.len() {
                proof {
                    assert(final(out)@ =~= old(out)@ + Seq::<u8>::empty());
                }
                true
            } else {
                false
            }
        },
        WireFields::Cons(wh, rest) => {
            if i >= vs.len() {
                return false;
            }
            let ok1 = encode_value(wh, &vs[i], out);
            if !ok1 {
                proof {
                    assert forall|ms: Seq<WireVal>|
                        #![trigger encode_fields(*fs, ms, i as int)]
                        (ms.len() == vs@.len() && (forall|j: int|
                            0 <= j < vs@.len() ==> represents(
                                #[trigger] vs@[j],
                                ms[j],
                            ))) implies encode_fields(*fs, ms, i as int) is None by {
                        assert(represents(vs@[i as int], ms[i as int]));
                    }
                }
                return false;
            }
            let ghost mid = out@;
            let ok2 = encode_struct(rest, vs, i + 1, out);
            if !ok2 {
                proof {
                    assert forall|ms: Seq<WireVal>|
                        #![trigger encode_fields(*fs, ms, i as int)]
                        (ms.len() == vs@.len() && (forall|j: int|
                            0 <= j < vs@.len() ==> represents(
                                #[trigger] vs@[j],
                                ms[j],
                            ))) implies encode_fields(*fs, ms, i as int) is None by {
                        assert(represents(vs@[i as int], ms[i as int]));
                        assert(encode_fields(**rest, ms, i + 1) is None);
                    }
                }
                return false;
            }
            proof {
                assert forall|ms: Seq<WireVal>|
                    #![trigger encode_fields(*fs, ms, i as int)]
                    (ms.len() == vs@.len() && (forall|j: int|
                        0 <= j < vs@.len() ==> represents(#[trigger] vs@[j], ms[j]))) implies (
                match encode_fields(*fs, ms, i as int) {
                    Option::Some(b) => final(out)@ == old(out)@ + b,
                    Option::None => false,
                }) by {
                    assert(represents(vs@[i as int], ms[i as int]));
                    match (wire_encode(**wh, ms[i as int]), encode_fields(
                        **rest,
                        ms,
                        i + 1,
                    )) {
                        (Option::Some(h), Option::Some(t)) => {
                            assert(final(out)@ =~= old(out)@ + (h + t));
                        },
                        _ => {},
                    }
                }
            }
            true
        },
    }
}

/// Append the four big-endian bytes of `x`.
fn push_be32(out: &mut Vec<u8>, x: u32)
    ensures
        final(out)@ == old(out)@ + be32(x),
{
    out.push((x >> 24) as u8);
    out.push(((x >> 16) & 0xff) as u8);
    out.push(((x >> 8) & 0xff) as u8);
    out.push((x & 0xff) as u8);
    proof {
        assert(out@ =~= old(out)@ + be32(x));
    }
}

/// The zero float encodes as four zero bytes, and four zero bytes decode
/// to the zero float: the all-zero word is the wire form of `0.0`.
pub proof fn lemma_float_zero()
    ensures
        wire_encode(Wire::WFloat, WireVal::FloatBits(0)) == Option::Some(
            seq![0u8, 0u8, 0u8, 0u8],
        ),
        wire_decode(Wire::WFloat, seq![0u8, 0u8, 0u8, 0u8]) == Option::Some(
            (WireVal::FloatBits(0), 4int),
        ),
{
    assert(((0u32 >> 24) as u8) == 0u8 && (((0u32 >> 16) & 0xff) as u8) == 0u8 && (((0u32 >> 8)
        & 0xff) as u8) == 0u8 && ((0u32 & 0xff) as u8) == 0u8) by (bit_vector);
    assert(be32(0) =~= seq![0u8, 0u8, 0u8, 0u8]);
    assert(from_be32(0u8, 0u8, 0u8, 0u8) == 0u32) by (bit_vector);
}

} // verus!
