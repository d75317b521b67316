//! Drawing primitives and their packed integer form.
use vstd::prelude::*;
use crate::error::GlyphError;

verus! {

/// A vector drawing command.
#[derive(Debug, Clone, Copy, PartialEq, Eq, Structural)]
pub enum Primitive {
    /// A segment from `(x1, y1)` to `(x2, y2)`.
    Line { x1: i32, y1: i32, x2: i32, y2: i32 },
    /// An arc of the circle of centre `(x, y)` and radius `radius`, from
    /// `start` degrees over `sweep` degrees.
    Arc { x: i32, y: i32, radius: i32, start: i32, sweep: i32 },
}

/// The primitives packed in `data`, or the offset, relative to the start of
/// `data`, of the primitive that runs past its end. The third integer of a
/// primitive tells the kind: 10 or more starts a line of four integers,
/// anything less an arc of five.
pub open spec fn decode(data: Seq<i32>) -> Result<Seq<Primitive>, int>
    decreases data.len(),
{
    if data.len() == 0 {
        Ok(Seq::empty())
    } else if data.len() < 3 {
        Err(0)
    } else if data[2] >= 10 {
        if data.len() < 4 {
            Err(0)
        } else {
            let p = Primitive::Line { x1: data[0], y1: data[1], x2: data[2], y2: data[3] };
            match decode(data.subrange(4, data.len() as int)) {
                Ok(rest) => Ok(seq![p] + rest),
                Err(k) => Err(k + 4),
            }
        }
    } else {
        if data.len() < 5 {
            Err(0)
        } else {
            let p = Primitive::Arc {
                x: data[0],
                y: data[1],
                radius: data[2],
                start: data[3],
                sweep: data[4],
            };
            match decode(data.subrange(5, data.len() as int)) {
                Ok(rest) => Ok(seq![p] + rest),
                Err(k) => Err(k + 5),
            }
        }
    }
}

/// The integers of one primitive, in packed order.
pub open spec fn primitive_ints(p: Primitive) -> Seq<i32> {
    match p {
        Primitive::Line { x1, y1, x2, y2 } => seq![x1, y1, x2, y2],
        Primitive::Arc { x, y, radius, start, sweep } => seq![x, y, radius, start, sweep],
    }
}

/// The packed form of a list of primitives.
pub open spec fn encode(ps: Seq<Primitive>) -> Seq<i32>
    decreases ps.len(),
{
    if ps.len() == 0 {
        Seq::empty()
    } else {
        primitive_ints(ps[0]) + encode(ps.subrange(1, ps.len() as int))
    }
}

/// The kind of `p` is readable from its third integer: a line ends at an x
/// of 10 or more, an arc has a radius under 10.
pub open spec fn tag_readable(p: Primitive) -> bool {
    match p {
        Primitive::Line { x2, .. } => x2 >= 10,
        Primitive::Arc { radius, .. } => radius < 10,
    }
}

/// Decoding the packed form of primitives whose kind is readable gives back
/// the same primitives, in the same order.
pub proof fn lemma_decode_round_trip(ps: Seq<Primitive>)
    requires
        forall|i: int| 0 <= i < ps.len() ==> tag_readable(#[trigger] ps[i]),
    ensures
        decode(encode(ps)) == Ok::<Seq<Primitive>, int>(ps),
    decreases ps.len(),
{
    if ps.len() > 0 {
        let rest = ps.subrange(1, ps.len() as int);
        assert forall|i: int| 0 <= i < rest.len() implies tag_readable(#[trigger] rest[i]) by {
            assert(rest[i] == ps[i + 1]);
        }
        lemma_decode_round_trip(rest);
        let head = primitive_ints(ps[0]);
        let data = encode(ps);
        assert(tag_readable(ps[0]));
        assert(data == head + encode(rest));
        assert(data.subrange(head.len() as int, data.len() as int) =~= encode(rest));
        assert(seq![ps[0]] + rest =~= ps);
        match ps[0] {
            Primitive::Line { x1, y1, x2, y2 } => {
                assert(data[0] == x1 && data[1] == y1 && data[2] == x2 && data[3] == y2);
            },
            Primitive::Arc { x, y, radius, start, sweep } => {
                assert(data[0] == x && data[1] == y && data[2] == radius && data[3] == start && data[4]
                    == sweep);
            },
        }
        assert(decode(data) == Ok::<Seq<Primitive>, int>(seq![ps[0]] + rest));
    } else {
        assert(ps =~= Seq::<Primitive>::empty());
        assert(encode(ps) =~= Seq::<i32>::empty());
    }
}

proof fn lemma_decode_error_inside(data: Seq<i32>)
    ensures
        decode(data) is Err ==> 0 <= decode(data)->Err_0 < data.len(),
    decreases data.len(),
{
    if data.len() >= 4 {
        lemma_decode_error_inside(data.subrange(4, data.len() as int));
    }
    if data.len() >= 5 {
        lemma_decode_error_inside(data.subrange(5, data.len() as int));
    }
}

/// The primitives packed in `data`, in order. Reading starts at offset 0;
/// at each position the integer two places further on picks the kind: 10
/// or more reads a line `(x1, y1, x2, y2)`, anything less an arc
/// `(x, y, radius, start, sweep)`. Fails with the offset of the primitive
/// that the data ends inside.
pub fn decode_primitives(data: &Vec<i32>) -> (r: Result<Vec<Primitive>, GlyphError>)
    ensures
        decode(data@) is Ok ==> r is Ok && r->Ok_0@ == decode(data@)->Ok_0,
        decode(data@) is Err ==> r is Err && r->Err_0 == GlyphError::MalformedPrimitiveStream(
            decode(data@)->Err_0 as usize,
        ),
{
    let mut out: Vec<Primitive> = Vec::new();
    let mut pos: usize = 0;
    let n = data.len();
    proof {
        lemma_decode_error_inside(data@);
        assert(data@.subrange(0, n as int) =~= data@);
        match decode(data@) {
            Ok(rest) => {
                assert(out@ + rest =~= rest);
            },
            Err(k) => {},
        }
    }
    while pos < n
        invariant
            n == data@.len(),
            pos <= n,
            decode(data@) == match decode(data@.subrange(pos as int, n as int)) {
                Ok(rest) => Ok(out@ + rest),
                Err(k) => Err(k + pos),
            },
            decode(data@) is Err ==> 0 <= decode(data@)->Err_0 < n,
        decreases n - pos,
    {
        let ghost tail = data@.subrange(pos as int, n as int);
        let ghost out0 = out@;
        let ghost pos0 = pos as int;
        if n - pos < 3 {
            return Err(GlyphError::MalformedPrimitiveStream(pos));
        }
        if data[pos + 2] >= 10 {
            if n - pos < 4 {
                return Err(GlyphError::MalformedPrimitiveStream(pos));
            }
            let p = Primitive::Line { x1: data[pos], y1: data[pos + 1], x2: data[pos + 2], y2: data[pos + 3] };
            assert(tail.subrange(4, tail.len() as int) =~= data@.subrange(pos + 4, n as int));
            out.push(p);
            pos += 4;
        } else {
            if n - pos < 5 {
                return Err(GlyphError::MalformedPrimitiveStream(pos));
            }
            let p = Primitive::Arc {
                x: data[pos],
                y: data[pos + 1],
                radius: data[pos + 2],
                start: data[pos + 3],
                sweep: data[pos + 4],
            };
            assert(tail.subrange(5, tail.len() as int) =~= data@.subrange(pos + 5, n as int));
            out.push(p);
            pos += 5;
        }
        proof {
            let step = pos as int - pos0;
            let p = out@.last();
            assert(out@ == out0.push(p));
            assert(tail[2] == data@[pos0 + 2]);
            assert(step == 4 || step == 5);
            if step == 4 {
                assert(p == Primitive::Line { x1: tail[0], y1: tail[1], x2: tail[2], y2: tail[3] });
            } else {
                assert(p == Primitive::Arc {
                    x: tail[0],
                    y: tail[1],
                    radius: tail[2],
                    start: tail[3],
                    sweep: tail[4],
                });
            }
            match decode(data@.subrange(pos as int, n as int)) {
                Ok(rest) => {
                    assert(decode(tail) == Ok::<Seq<Primitive>, int>(seq![p] + rest));
                    assert(out0 + (seq![p] + rest) =~= out@ + rest);
                },
                Err(k) => {
                    assert(decode(tail) == Err::<Seq<Primitive>, int>(k + step));
                },
            }
        }
    }
    Ok(out)
}

} // verus!
