use vstd::prelude::*;

verus! {

/// The byte that carries bits `7 * i .. 7 * i + 7` of `v` with the
/// continuation bit set.
pub open spec fn continued_byte(v: u32, shift: u32) -> u8 {
    (((v >> shift) & 127u32) | 128u32) as u8
}

/// The byte that carries the bits of `v` from `shift` on, continuation bit clear.
pub open spec fn final_byte(v: u32, shift: u32) -> u8 {
    ((v >> shift) & 127u32) as u8
}

/// The encoding that `vint32::encode_varint_into` writes for `v`: seven bits
/// per byte, least significant first, the high bit set on every byte but the
/// last, and as few bytes as `v` needs (one to five).
pub open spec fn varint_bytes(v: u32) -> Seq<u8> {
    if v < 0x80 {
        seq![final_byte(v, 0)]
    } else if v < 0x4000 {
        seq![continued_byte(v, 0), final_byte(v, 7)]
    } else if v < 0x20_0000 {
        seq![continued_byte(v, 0), continued_byte(v, 7), final_byte(v, 14)]
    } else if v < 0x1000_0000 {
        seq![continued_byte(v, 0), continued_byte(v, 7), continued_byte(v, 14), final_byte(v, 21)]
    } else {
        seq![
            continued_byte(v, 0),
            continued_byte(v, 7),
            continued_byte(v, 14),
            continued_byte(v, 21),
            final_byte(v, 28),
        ]
    }
}

/// Where the varint that starts at index `start` of `t` ends, given that
/// bytes `start .. start + i` have been read: after the first byte whose high
/// bit is clear, or after the fifth byte; `None` if `t` ends first.
pub open spec fn varint_end_from(t: Seq<u8>, start: int, i: int) -> Option<int>
    decreases 5 - i,
{
    if i < 0 || i >= 5 || start + i >= t.len() || start < 0 {
        None
    } else if t[start + i] < 128 || i == 4 {
        Some(start + i + 1)
    } else {
        varint_end_from(t, start, i + 1)
    }
}

/// Where the varint that starts at `start` ends, if `t` holds all of it.
pub open spec fn varint_end(t: Seq<u8>, start: int) -> Option<int> {
    varint_end_from(t, start, 0)
}

/// The value that `vint32` decodes from the `n` bytes at `start`: the low
/// seven bits of byte `i` shifted left by `7 * i`, all or-ed together.
pub open spec fn varint_value(t: Seq<u8>, start: int, n: nat) -> u32
    decreases n,
{
    if n == 0 {
        0
    } else {
        varint_value(t, start, (n - 1) as nat) | (((t[start + n - 1] as u32) & 127u32) << ((7
            * (n - 1)) as u32))
    }
}

/// The varint at `start`: its value and the index right after it.
pub open spec fn parse_varint(t: Seq<u8>, start: int) -> Option<(u32, int)> {
    match varint_end(t, start) {
        Some(end) => Some((varint_value(t, start, (end - start) as nat), end)),
        None => None,
    }
}

/// `vint32::encode_varint_into` appends the varint of `value` to `output`, as
/// `varint_bytes` gives it, and returns how many bytes it wrote.
pub assume_specification[ vint32::encode_varint_into ](output: &mut Vec<u8>, value: u32) -> (n: u8)
    ensures
        final(output)@ == old(output)@ + varint_bytes(value),
        n == varint_bytes(value).len(),
;

/// `vint32::decode_varint_slice` reads the varint at `*pos` and moves `*pos`
/// past it; at the end of `data` it returns `None` and leaves `*pos`. It
/// indexes past the end of a varint that `data` cuts short, so such input is
/// left out.
pub assume_specification[ vint32::decode_varint_slice ](data: &[u8], pos: &mut usize) -> (r: Option<u32>)
    requires
        *old(pos) == data@.len() || varint_end(data@, *old(pos) as int) is Some,
    ensures
        *old(pos) == data@.len() ==> r is None && *final(pos) == *old(pos),
        *old(pos) < data@.len() ==> match parse_varint(data@, *old(pos) as int) {
            Some((value, end)) => r == Some(value) && *final(pos) == end,
            None => false,
        },
;


/// The low seven bits of a byte, as vint32 reads them.
pub open spec fn low7(b: u8) -> u32 {
    (b as u32) & 127u32
}

/// Bit facts about the bytes of `varint_bytes`: which carry the continuation
/// bit, and how or-ing their low bits back together gives the value.
proof fn lemma_varint_bits(v: u32)
    by (bit_vector)
    ensures
        final_byte(v, 0) < 128,
        v >= 0x80 ==> continued_byte(v, 0) >= 128,
        v >= 0x4000 ==> continued_byte(v, 7) >= 128,
        v >= 0x80 && v < 0x4000 ==> final_byte(v, 7) < 128,
        v >= 0x20_0000 ==> continued_byte(v, 14) >= 128,
        v >= 0x4000 && v < 0x20_0000 ==> final_byte(v, 14) < 128,
        v >= 0x1000_0000 ==> continued_byte(v, 21) >= 128,
        v >= 0x20_0000 && v < 0x1000_0000 ==> final_byte(v, 21) < 128,
        v < 0x80 ==> (0u32 | (low7(final_byte(v, 0)) << 0u32)) == v,
        v < 0x4000 ==> (0u32 | (low7(continued_byte(v, 0)) << 0u32) | (low7(final_byte(v, 7))
            << 7u32)) == v,
        v < 0x20_0000 ==> (0u32 | (low7(continued_byte(v, 0)) << 0u32) | (low7(
            continued_byte(v, 7),
        ) << 7u32) | (low7(final_byte(v, 14)) << 14u32)) == v,
        v < 0x1000_0000 ==> (0u32 | (low7(continued_byte(v, 0)) << 0u32) | (low7(
            continued_byte(v, 7),
        ) << 7u32) | (low7(continued_byte(v, 14)) << 14u32) | (low7(final_byte(v, 21))
            << 21u32)) == v,
        (0u32 | (low7(continued_byte(v, 0)) << 0u32) | (low7(continued_byte(v, 7)) << 7u32) | (
        low7(continued_byte(v, 14)) << 14u32) | (low7(continued_byte(v, 21)) << 21u32) | (low7(
            final_byte(v, 28),
        ) << 28u32)) == v,
{
}


/// A varint takes one to five bytes, and one byte exactly for values below 128.
pub proof fn lemma_varint_size(v: u32)
    ensures
        1 <= varint_bytes(v).len() <= 5,
        varint_bytes(v).len() == 1 <==> v < 128,
{
}

/// A varint reads back as the value that was written, wherever it stands and
/// whatever follows it.
pub proof fn lemma_varint_roundtrip(pre: Seq<u8>, v: u32, rest: Seq<u8>)
    ensures
        parse_varint(pre + varint_bytes(v) + rest, pre.len() as int) == Some(
            (v, pre.len() + varint_bytes(v).len() as int),
        ),
{
    lemma_varint_bits(v);
    let b = varint_bytes(v);
    let t = pre + b + rest;
    let s = pre.len() as int;
    assert forall|i: int| 0 <= i < b.len() implies t[s + i] == b[i] by {
        assert(t[s + i] == (pre + b)[s + i]);
    }
    reveal_with_fuel(varint_end_from, 6);
    reveal_with_fuel(varint_value, 6);
    if v < 0x80 {
        assert(t[s] == b[0]);
    } else if v < 0x4000 {
        assert(t[s] == b[0] && t[s + 1] == b[1]);
    } else if v < 0x20_0000 {
        assert(t[s] == b[0] && t[s + 1] == b[1] && t[s + 2] == b[2]);
    } else if v < 0x1000_0000 {
        assert(t[s] == b[0] && t[s + 1] == b[1] && t[s + 2] == b[2] && t[s + 3] == b[3]);
    } else {
        assert(t[s] == b[0] && t[s + 1] == b[1] && t[s + 2] == b[2] && t[s + 3] == b[3] && t[s
            + 4] == b[4]);
    }
}


/// The varints of `vals`, one after another.
pub open spec fn varints(vals: Seq<u32>) -> Seq<u8>
    decreases vals.len(),
{
    if vals.len() == 0 {
        Seq::empty()
    } else {
        varint_bytes(vals[0]) + varints(vals.drop_first())
    }
}

/// A sequence of integers as the compact format writes it: its length as a
/// varint, then each element as a varint.
pub open spec fn u32_seq_bytes(vals: Seq<u32>) -> Seq<u8> {
    varint_bytes(vals.len() as u32) + varints(vals)
}

/// `n` varints read one after another from `start`: their values and the
/// index right after the last.
pub open spec fn parse_varints(t: Seq<u8>, start: int, n: nat) -> Option<(Seq<u32>, int)>
    decreases n,
{
    if n == 0 {
        Some((Seq::empty(), start))
    } else {
        match parse_varint(t, start) {
            Some((v, next)) => match parse_varints(t, next, (n - 1) as nat) {
                Some((vs, end)) => Some((seq![v] + vs, end)),
                None => None,
            },
            None => None,
        }
    }
}

/// A sequence of integers read from `start`: a varint length, then that many
/// varints.
pub open spec fn parse_u32_seq(t: Seq<u8>, start: int) -> Option<(Seq<u32>, int)> {
    match parse_varint(t, start) {
        Some((n, next)) => parse_varints(t, next, n as nat),
        None => None,
    }
}

/// Why compact data could not be written or read.
#[derive(Debug, Clone, Copy, PartialEq, Eq, Structural)]
pub enum CompactError {
    /// The data ends inside a value.
    UnexpectedEnd,
    /// A sequence is longer than a length varint can hold.
    LengthOverflow,
}

/// Appends the varint of `value` to `sink`.
pub fn write_u32(sink: &mut Vec<u8>, value: u32)
    ensures
        final(sink)@ == old(sink)@ + varint_bytes(value),
{
    vint32::encode_varint_into(sink, value);
}

/// Where the varint at `pos` ends, if `data` holds all of it.
fn varint_end_at(data: &[u8], pos: usize) -> (r: Option<usize>)
    ensures
        match r {
            Some(end) => varint_end(data@, pos as int) == Some(end as int),
            None => varint_end(data@, pos as int) is None,
        },
{
    let mut i: usize = 0;
    while i < 5
        invariant
            i <= 5,
            varint_end(data@, pos as int) == varint_end_from(data@, pos as int, i as int),
        decreases 5 - i,
    {
        if pos >= data.len() || data.len() - pos <= i {
            return None;
        }
        if data[pos + i] < 128 || i == 4 {
            return Some(pos + i + 1);
        }
        i += 1;
    }
    None
}

/// Reads the varint at `pos`: its value and the index right after it.
pub fn read_u32(data: &[u8], pos: usize) -> (r: Result<(u32, usize), CompactError>)
    ensures
        match r {
            Ok((v, end)) => parse_varint(data@, pos as int) == Some((v, end as int)),
            Err(e) => e == CompactError::UnexpectedEnd && parse_varint(data@, pos as int) is None,
        },
{
    match varint_end_at(data, pos) {
        None => Err(CompactError::UnexpectedEnd),
        Some(_) => {
            let mut p = pos;
            match vint32::decode_varint_slice(data, &mut p) {
                Some(v) => Ok((v, p)),
                None => Err(CompactError::UnexpectedEnd),
            }
        },
    }
}

proof fn lemma_varints_push(vals: Seq<u32>, v: u32)
    ensures
        varints(vals.push(v)) == varints(vals) + varint_bytes(v),
    decreases vals.len(),
{
    if vals.len() == 0 {
        assert(vals.push(v).drop_first() =~= Seq::<u32>::empty());
        assert(varints(Seq::<u32>::empty()) =~= Seq::<u8>::empty());
        assert(varints(vals.push(v)) =~= varint_bytes(v) + Seq::<u8>::empty());
    } else {
        lemma_varints_push(vals.drop_first(), v);
        assert(vals.push(v).drop_first() =~= vals.drop_first().push(v));
        assert(varints(vals.push(v)) =~= varint_bytes(vals[0]) + (varints(vals.drop_first())
            + varint_bytes(v)));
    }
}

/// Appends `vals` to `sink` as a length-prefixed sequence; refuses, leaving
/// `sink` as it was, a sequence longer than `u32::MAX`.
pub fn write_u32_seq(sink: &mut Vec<u8>, vals: &[u32]) -> (r: Result<(), CompactError>)
    ensures
        vals@.len() <= u32::MAX ==> r is Ok && final(sink)@ == old(sink)@ + u32_seq_bytes(vals@),
        vals@.len() > u32::MAX ==> r == Err::<(), _>(CompactError::LengthOverflow) && final(sink)@
            == old(sink)@,
{
    if vals.len() > 0xffff_ffff {
        return Err(CompactError::LengthOverflow);
    }
    write_u32(sink, vals.len() as u32);
    let ghost head = sink@;
    let mut i: usize = 0;
    while i < vals.len()
        invariant
            i <= vals@.len(),
            sink@ == head + varints(vals@.take(i as int)),
        decreases vals@.len() - i,
    {
        proof {
            lemma_varints_push(vals@.take(i as int), vals@[i as int]);
            assert(vals@.take(i + 1) =~= vals@.take(i as int).push(vals@[i as int]));
        }
        write_u32(sink, vals[i]);
        i += 1;
    }
    assert(vals@.take(i as int) =~= vals@);
    Ok(())
}

/// Reads a length-prefixed sequence of integers at `pos`: the values and the
/// index right after the last.
pub fn read_u32_seq(data: &[u8], pos: usize) -> (r: Result<(Vec<u32>, usize), CompactError>)
    ensures
        match r {
            Ok((vs, end)) => parse_u32_seq(data@, pos as int) == Some((vs@, end as int)),
            Err(e) => e == CompactError::UnexpectedEnd && parse_u32_seq(data@, pos as int) is None,
        },
{
    let (n, mut p) = match read_u32(data, pos) {
        Ok(x) => x,
        Err(e) => {
            return Err(e);
        },
    };
    let mut vals: Vec<u32> = Vec::new();
    let mut k: u32 = 0;
    while k < n
        invariant
            k <= n,
            parse_u32_seq(data@, pos as int) == match parse_varints(
                data@,
                p as int,
                (n - k) as nat,
            ) {
                Some((vs, end)) => Some((vals@ + vs, end)),
                None => None,
            },
        decreases n - k,
    {
        let (v, next) = match read_u32(data, p) {
            Ok(x) => x,
            Err(e) => {
                return Err(e);
            },
        };
        proof {
            match parse_varints(data@, next as int, (n - k - 1) as nat) {
                Some((vs, end)) => {
                    assert(vals@.push(v) + vs =~= vals@ + (seq![v] + vs));
                },
                None => {},
            }
        }
        vals.push(v);
        p = next;
        k += 1;
    }
    assert(vals@ + Seq::<u32>::empty() =~= vals@);
    Ok((vals, p))
}

/// A sequence reads back as the sequence that was written, wherever it
/// stands and whatever follows it.
pub proof fn lemma_u32_seq_roundtrip(pre: Seq<u8>, vals: Seq<u32>, rest: Seq<u8>)
    requires
        vals.len() <= u32::MAX,
    ensures
        parse_u32_seq(pre + u32_seq_bytes(vals) + rest, pre.len() as int) == Some(
            (vals, pre.len() + u32_seq_bytes(vals).len() as int),
        ),
{
    let t = pre + u32_seq_bytes(vals) + rest;
    let len_bytes = varint_bytes(vals.len() as u32);
    assert(t =~= pre + len_bytes + (varints(vals) + rest));
    lemma_varint_roundtrip(pre, vals.len() as u32, varints(vals) + rest);
    lemma_varints_roundtrip(pre + len_bytes, vals, rest);
    assert(pre + len_bytes + varints(vals) + rest =~= t);
}

/// Varints one after another read back as the values written.
pub proof fn lemma_varints_roundtrip(pre: Seq<u8>, vals: Seq<u32>, rest: Seq<u8>)
    ensures
        parse_varints(pre + varints(vals) + rest, pre.len() as int, vals.len()) == Some(
            (vals, pre.len() + varints(vals).len() as int),
        ),
    decreases vals.len(),
{
    let t = pre + varints(vals) + rest;
    if vals.len() == 0 {
        assert(vals =~= Seq::<u32>::empty());
    } else {
        let b = varint_bytes(vals[0]);
        let tail = vals.drop_first();
        assert(t =~= pre + b + (varints(tail) + rest));
        lemma_varint_roundtrip(pre, vals[0], varints(tail) + rest);
        assert(t =~= (pre + b) + varints(tail) + rest);
        lemma_varints_roundtrip(pre + b, tail, rest);
        assert(seq![vals[0]] + tail =~= vals);
    }
}


/// A value of the compact format: an unsigned 32-bit integer, a sequence
/// (such as a `Vec`), or a fixed group of values (a tuple, or a struct's
/// fields in order).
pub enum CompactValue {
    U32(u32),
    List(Seq<CompactValue>),
    Tuple(Seq<CompactValue>),
}

/// What a reader is told to expect: the shape that a type gives its values.
pub enum CompactShape {
    U32,
    List(Box<CompactShape>),
    Tuple(Seq<CompactShape>),
}

/// `v` has shape `shape`, and every sequence in it is short enough for its
/// length to be written.
pub open spec fn fits(v: CompactValue, shape: CompactShape) -> bool
    decreases v,
{
    match v {
        CompactValue::U32(_) => shape is U32,
        CompactValue::List(items) => match shape {
            CompactShape::List(elem) => items.len() <= u32::MAX && fits_all(items, *elem),
            _ => false,
        },
        CompactValue::Tuple(items) => match shape {
            CompactShape::Tuple(shapes) => fits_each(items, shapes),
            _ => false,
        },
    }
}

/// Every one of `items` has shape `elem`.
pub open spec fn fits_all(items: Seq<CompactValue>, elem: CompactShape) -> bool
    decreases items,
{
    if items.len() == 0 {
        true
    } else {
        fits(items[0], elem) && fits_all(items.drop_first(), elem)
    }
}

/// `items` and `shapes` pair up, each item with its shape.
pub open spec fn fits_each(items: Seq<CompactValue>, shapes: Seq<CompactShape>) -> bool
    decreases items,
{
    if items.len() != shapes.len() {
        false
    } else if items.len() == 0 {
        true
    } else {
        fits(items[0], shapes[0]) && fits_each(items.drop_first(), shapes.drop_first())
    }
}

/// The bytes of a value: an integer as its varint, a sequence as its length
/// and then its items, a group as its items one after another.
pub open spec fn encode(v: CompactValue) -> Seq<u8>
    decreases v,
{
    match v {
        CompactValue::U32(x) => varint_bytes(x),
        CompactValue::List(items) => varint_bytes(items.len() as u32) + encode_all(items),
        CompactValue::Tuple(items) => encode_all(items),
    }
}

/// The bytes of values one after another.
pub open spec fn encode_all(items: Seq<CompactValue>) -> Seq<u8>
    decreases items,
{
    if items.len() == 0 {
        Seq::empty()
    } else {
        encode(items[0]) + encode_all(items.drop_first())
    }
}

/// A value of shape `shape` read from `start`: the value and the index
/// right after it.
pub open spec fn decode(shape: CompactShape, t: Seq<u8>, start: int) -> Option<(CompactValue, int)>
    decreases shape, 0int,
{
    match shape {
        CompactShape::U32 => match parse_varint(t, start) {
            Some((x, end)) => Some((CompactValue::U32(x), end)),
            None => None,
        },
        CompactShape::List(elem) => match parse_varint(t, start) {
            Some((n, next)) => match decode_n(*elem, t, next, n as nat) {
                Some((items, end)) => Some((CompactValue::List(items), end)),
                None => None,
            },
            None => None,
        },
        CompactShape::Tuple(shapes) => match decode_each(shapes, t, start) {
            Some((items, end)) => Some((CompactValue::Tuple(items), end)),
            None => None,
        },
    }
}

/// `n` values of shape `elem` read one after another from `start`.
pub open spec fn decode_n(elem: CompactShape, t: Seq<u8>, start: int, n: nat) -> Option<
    (Seq<CompactValue>, int),
>
    decreases elem, n + 1,
{
    if n == 0 {
        Some((Seq::empty(), start))
    } else {
        match decode(elem, t, start) {
            Some((v, next)) => match decode_n(elem, t, next, (n - 1) as nat) {
                Some((vs, end)) => Some((seq![v] + vs, end)),
                None => None,
            },
            None => None,
        }
    }
}

/// One value of each of `shapes`, read one after another from `start`.
pub open spec fn decode_each(shapes: Seq<CompactShape>, t: Seq<u8>, start: int) -> Option<
    (Seq<CompactValue>, int),
>
    decreases shapes, 0int,
{
    if shapes.len() == 0 {
        Some((Seq::empty(), start))
    } else {
        match decode(shapes[0], t, start) {
            Some((v, next)) => match decode_each(shapes.drop_first(), t, next) {
                Some((vs, end)) => Some((seq![v] + vs, end)),
                None => None,
            },
            None => None,
        }
    }
}


/// Whatever the type, a value reads back as the value that was written,
/// wherever it stands and whatever follows it.
pub proof fn lemma_value_roundtrip(
    v: CompactValue,
    shape: CompactShape,
    pre: Seq<u8>,
    rest: Seq<u8>,
)
    requires
        fits(v, shape),
    ensures
        decode(shape, pre + encode(v) + rest, pre.len() as int) == Some(
            (v, pre.len() + encode(v).len() as int),
        ),
    decreases v,
{
    match (v, shape) {
        (CompactValue::U32(x), CompactShape::U32) => {
            lemma_varint_roundtrip(pre, x, rest);
        },
        (CompactValue::List(items), CompactShape::List(elem)) => {
            let lb = varint_bytes(items.len() as u32);
            let t = pre + encode(v) + rest;
            assert(t =~= pre + lb + (encode_all(items) + rest));
            lemma_varint_roundtrip(pre, items.len() as u32, encode_all(items) + rest);
            assert(t =~= (pre + lb) + encode_all(items) + rest);
            lemma_list_roundtrip(items, *elem, pre + lb, rest);
        },
        (CompactValue::Tuple(items), CompactShape::Tuple(shapes)) => {
            lemma_each_roundtrip(items, shapes, pre, rest);
        },
        _ => {},
    }
}

proof fn lemma_list_roundtrip(
    items: Seq<CompactValue>,
    elem: CompactShape,
    pre: Seq<u8>,
    rest: Seq<u8>,
)
    requires
        fits_all(items, elem),
    ensures
        decode_n(elem, pre + encode_all(items) + rest, pre.len() as int, items.len()) == Some(
            (items, pre.len() + encode_all(items).len() as int),
        ),
    decreases items,
{
    let t = pre + encode_all(items) + rest;
    if items.len() == 0 {
        assert(items =~= Seq::<CompactValue>::empty());
    } else {
        let b = encode(items[0]);
        let tail = items.drop_first();
        assert(t =~= pre + b + (encode_all(tail) + rest));
        lemma_value_roundtrip(items[0], elem, pre, encode_all(tail) + rest);
        assert(t =~= (pre + b) + encode_all(tail) + rest);
        lemma_list_roundtrip(tail, elem, pre + b, rest);
        assert(seq![items[0]] + tail =~= items);
    }
}

proof fn lemma_each_roundtrip(
    items: Seq<CompactValue>,
    shapes: Seq<CompactShape>,
    pre: Seq<u8>,
    rest: Seq<u8>,
)
    requires
        fits_each(items, shapes),
    ensures
        decode_each(shapes, pre + encode_all(items) + rest, pre.len() as int) == Some(
            (items, pre.len() + encode_all(items).len() as int),
        ),
    decreases items,
{
    let t = pre + encode_all(items) + rest;
    if items.len() == 0 {
        assert(items =~= Seq::<CompactValue>::empty());
    } else {
        let b = encode(items[0]);
        let tail = items.drop_first();
        assert(t =~= pre + b + (encode_all(tail) + rest));
        lemma_value_roundtrip(items[0], shapes[0], pre, encode_all(tail) + rest);
        assert(t =~= (pre + b) + encode_all(tail) + rest);
        lemma_each_roundtrip(tail, shapes.drop_first(), pre + b, rest);
        assert(seq![items[0]] + tail =~= items);
    }
}


/// Integers as values of the format.
pub open spec fn u32_values(vals: Seq<u32>) -> Seq<CompactValue> {
    vals.map_values(|x: u32| CompactValue::U32(x))
}

proof fn lemma_varints_are_values(vals: Seq<u32>)
    ensures
        encode_all(u32_values(vals)) == varints(vals),
    decreases vals.len(),
{
    if vals.len() > 0 {
        lemma_varints_are_values(vals.drop_first());
        assert(u32_values(vals).drop_first() =~= u32_values(vals.drop_first()));
        assert(u32_values(vals)[0] == CompactValue::U32(vals[0]));
        assert(encode(u32_values(vals)[0]) == varint_bytes(vals[0]));
    } else {
        assert(u32_values(vals) =~= Seq::<CompactValue>::empty());
    }
}

/// What `write_u32` and `write_u32_seq` append is the encoding of an integer
/// value and of a list of integer values, which fit the list-of-integers shape.
pub proof fn lemma_writers_encode_values(v: u32, vals: Seq<u32>)
    requires
        vals.len() <= u32::MAX,
    ensures
        varint_bytes(v) == encode(CompactValue::U32(v)),
        u32_seq_bytes(vals) == encode(CompactValue::List(u32_values(vals))),
        fits(
            CompactValue::List(u32_values(vals)),
            CompactShape::List(Box::new(CompactShape::U32)),
        ),
{
    lemma_varints_are_values(vals);
    lemma_u32_values_fit(vals);
}

proof fn lemma_u32_values_fit(vals: Seq<u32>)
    ensures
        fits_all(u32_values(vals), CompactShape::U32),
    decreases vals.len(),
{
    if vals.len() > 0 {
        lemma_u32_values_fit(vals.drop_first());
        assert(u32_values(vals).drop_first() =~= u32_values(vals.drop_first()));
        assert(u32_values(vals)[0] == CompactValue::U32(vals[0]));
        assert(fits(u32_values(vals)[0], CompactShape::U32));
    }
}

} // verus!
