//! The codec's laws, stated and proved over the specification functions
//! that the executable functions' contracts use.

use vstd::prelude::*;

use crate::codec::enc_int;
use crate::codec::enc_points;
use crate::codec::enc_uint;
use crate::codec::group_data;
use crate::codec::has_continuation;
use crate::codec::in_i64;
use crate::codec::int_pairs;
use crate::codec::is_alphabet;
use crate::codec::parse_points;
use crate::codec::parse_sint;
use crate::codec::parse_uint;
use crate::codec::uint_bound;
use crate::codec::unzigzag;
use crate::codec::zigzag;

verus! {

/// The empty path encodes to the empty byte string, and the empty byte
/// string decodes to the empty path, whatever the starting coordinate.
pub proof fn lemma_empty_codec(x0: int, y0: int)
    ensures
        enc_points(Seq::<(int, int)>::empty(), x0, y0) == Seq::<u8>::empty(),
        parse_points(Seq::<u8>::empty(), x0, y0) == Some(Seq::<(int, int)>::empty()),
{
}

/// Parsing picks the encoding of one unsigned value back off the front of
/// any byte string that starts with it.
proof fn lemma_parse_uint_of_enc(u: nat, rest: Seq<u8>)
    ensures
        parse_uint(enc_uint(u) + rest) == Some((u, enc_uint(u).len())),
    decreases u,
{
    let s = enc_uint(u) + rest;
    if u < 32 {
        let b = (u + 63) as u8;
        assert(s[0] == b);
        assert(is_alphabet(b));
        assert(!has_continuation(b));
        assert(group_data(b) == u);
    } else {
        let b = (u % 32 + 95) as u8;
        assert(s[0] == b);
        assert(is_alphabet(b));
        assert(has_continuation(b));
        assert(group_data(b) == u % 32);
        assert(s.drop_first() =~= enc_uint(u / 32) + rest);
        lemma_parse_uint_of_enc(u / 32, rest);
        assert(u % 32 + 32 * (u / 32) == u);
    }
}

/// Parsing picks the encoding of one signed delta back off the front of
/// any byte string that starts with it, for every delta a difference of
/// two `i64` coordinates can be.
proof fn lemma_parse_sint_of_enc(d: int, rest: Seq<u8>)
    requires
        -0x1_0000_0000_0000_0000 <= d < 0x1_0000_0000_0000_0000,
    ensures
        parse_sint(enc_int(d) + rest) == Some((d, enc_int(d).len())),
{
    lemma_parse_uint_of_enc(zigzag(d), rest);
    assert(zigzag(d) < uint_bound());
    assert(unzigzag(zigzag(d)) == d);
}

proof fn lemma_round_trip_from(pts: Seq<(int, int)>, x0: int, y0: int)
    requires
        in_i64(x0),
        in_i64(y0),
        forall|i: int| 0 <= i < pts.len() ==> in_i64(#[trigger] pts[i].0) && in_i64(pts[i].1),
    ensures
        parse_points(enc_points(pts, x0, y0), x0, y0) == Some(pts),
    decreases pts.len(),
{
    if pts.len() == 0 {
        assert(pts =~= Seq::<(int, int)>::empty());
    } else {
        let dx = pts[0].0 - x0;
        let dy = pts[0].1 - y0;
        let ex = enc_int(dx);
        let ey = enc_int(dy);
        let tail = enc_points(pts.drop_first(), pts[0].0, pts[0].1);
        let s = enc_points(pts, x0, y0);
        assert(s == ex + ey + tail);
        assert(s =~= ex + (ey + tail));
        lemma_parse_sint_of_enc(dx, ey + tail);
        assert(s.skip(ex.len() as int) =~= ey + tail);
        lemma_parse_sint_of_enc(dy, tail);
        assert(s.skip(ex.len() + ey.len() as int) =~= tail);
        assert forall|i: int| 0 <= i < pts.drop_first().len() implies in_i64(
            #[trigger] pts.drop_first()[i].0,
        ) && in_i64(pts.drop_first()[i].1) by {
            assert(pts.drop_first()[i] == pts[i + 1]);
        }
        lemma_round_trip_from(pts.drop_first(), pts[0].0, pts[0].1);
        assert(seq![(pts[0].0, pts[0].1)] + pts.drop_first() =~= pts);
    }
}

/// Round trip: parsing the encoding of any path of `i64`-representable
/// coordinates gives that path back, exactly.  Together with the
/// contracts of the executable pair, decoding an encoded path returns the
/// scaled coordinates that were encoded, unchanged.
pub proof fn lemma_round_trip(pts: Seq<(int, int)>)
    requires
        forall|i: int| 0 <= i < pts.len() ==> in_i64(#[trigger] pts[i].0) && in_i64(pts[i].1),
    ensures
        parse_points(enc_points(pts, 0, 0), 0, 0) == Some(pts),
{
    lemma_round_trip_from(pts, 0, 0);
}

/// Round trip, stated directly over a path of `i64` pairs: no bound is
/// needed, the coordinate type supplies it.
pub proof fn lemma_round_trip_scaled(ps: Seq<(i64, i64)>)
    ensures
        parse_points(enc_points(int_pairs(ps), 0, 0), 0, 0) == Some(int_pairs(ps)),
{
    assert forall|i: int| 0 <= i < int_pairs(ps).len() implies in_i64(
        #[trigger] int_pairs(ps)[i].0,
    ) && in_i64(int_pairs(ps)[i].1) by {
        assert(int_pairs(ps)[i] == (ps[i].0 as int, ps[i].1 as int));
    }
    lemma_round_trip(int_pairs(ps));
}

proof fn lemma_enc_uint_alphabet(u: nat)
    ensures
        forall|i: int| 0 <= i < enc_uint(u).len() ==> is_alphabet(#[trigger] enc_uint(u)[i]),
    decreases u,
{
    if u >= 32 {
        lemma_enc_uint_alphabet(u / 32);
        assert forall|i: int| 0 <= i < enc_uint(u).len() implies is_alphabet(
            #[trigger] enc_uint(u)[i],
        ) by {
            if i > 0 {
                assert(enc_uint(u)[i] == enc_uint(u / 32)[i - 1]);
            }
        }
    }
}

proof fn lemma_enc_int_alphabet(d: int)
    ensures
        forall|i: int| 0 <= i < enc_int(d).len() ==> is_alphabet(#[trigger] enc_int(d)[i]),
{
    lemma_enc_uint_alphabet(zigzag(d));
}

/// Every byte of an encoded path lies in the alphabet, ASCII 63 to 126:
/// the encoded form is always printable ASCII.
pub proof fn lemma_encoded_alphabet(pts: Seq<(int, int)>, x0: int, y0: int)
    ensures
        forall|i: int|
            0 <= i < enc_points(pts, x0, y0).len() ==> is_alphabet(
                #[trigger] enc_points(pts, x0, y0)[i],
            ),
    decreases pts.len(),
{
    if pts.len() != 0 {
        let ex = enc_int(pts[0].0 - x0);
        let ey = enc_int(pts[0].1 - y0);
        let tail = enc_points(pts.drop_first(), pts[0].0, pts[0].1);
        lemma_enc_int_alphabet(pts[0].0 - x0);
        lemma_enc_int_alphabet(pts[0].1 - y0);
        lemma_encoded_alphabet(pts.drop_first(), pts[0].0, pts[0].1);
        assert forall|i: int| 0 <= i < enc_points(pts, x0, y0).len() implies is_alphabet(
            #[trigger] enc_points(pts, x0, y0)[i],
        ) by {
            assert(enc_points(pts, x0, y0) == ex + ey + tail);
            if i < ex.len() {
                assert(enc_points(pts, x0, y0)[i] == ex[i]);
            } else if i < ex.len() + ey.len() {
                assert(enc_points(pts, x0, y0)[i] == ey[i - ex.len()]);
            } else {
                assert(enc_points(pts, x0, y0)[i] == tail[i - ex.len() - ey.len()]);
            }
        }
    }
}

/// The magnitude of a signed delta.
pub open spec fn magnitude(d: int) -> int {
    if d >= 0 {
        d
    } else {
        -d
    }
}

proof fn lemma_enc_uint_len_monotone(u1: nat, u2: nat)
    requires
        u1 <= u2,
    ensures
        enc_uint(u1).len() <= enc_uint(u2).len(),
    decreases u2,
{
    if 32 <= u1 {
        lemma_enc_uint_len_monotone(u1 / 32, u2 / 32);
    }
}

/// Encoded length is monotone in delta magnitude: a delta of strictly
/// smaller magnitude never takes more bytes.  (At equal magnitude the two
/// signs may differ by one byte when the zig-zag image of the positive
/// delta just reaches another base-32 group, so strictness is needed.)
pub proof fn lemma_encoded_len_monotone(d1: int, d2: int)
    requires
        magnitude(d1) < magnitude(d2),
    ensures
        enc_int(d1).len() <= enc_int(d2).len(),
{
    assert(zigzag(d1) <= zigzag(d2));
    lemma_enc_uint_len_monotone(zigzag(d1), zigzag(d2));
}

/// The first-axis delta the encoder emits for point `i` of a path that
/// starts from previous coordinate `x0`.
pub open spec fn delta_x(pts: Seq<(int, int)>, i: int, x0: int) -> int {
    if i == 0 {
        pts[0].0 - x0
    } else {
        pts[i].0 - pts[i - 1].0
    }
}

/// The second-axis delta the encoder emits for point `i` of a path that
/// starts from previous coordinate `y0`.
pub open spec fn delta_y(pts: Seq<(int, int)>, i: int, y0: int) -> int {
    if i == 0 {
        pts[0].1 - y0
    } else {
        pts[i].1 - pts[i - 1].1
    }
}

/// Whole-path rendering of length monotonicity: a path whose deltas are
/// all strictly smaller in magnitude, axis by axis, never encodes longer.
pub proof fn lemma_path_len_monotone(
    pts1: Seq<(int, int)>,
    pts2: Seq<(int, int)>,
    x1: int,
    y1: int,
    x2: int,
    y2: int,
)
    requires
        pts1.len() == pts2.len(),
        forall|i: int|
            0 <= i < pts1.len() ==> magnitude(#[trigger] delta_x(pts1, i, x1)) < magnitude(
                delta_x(pts2, i, x2),
            ),
        forall|i: int|
            0 <= i < pts1.len() ==> magnitude(#[trigger] delta_y(pts1, i, y1)) < magnitude(
                delta_y(pts2, i, y2),
            ),
    ensures
        enc_points(pts1, x1, y1).len() <= enc_points(pts2, x2, y2).len(),
    decreases pts1.len(),
{
    if pts1.len() != 0 {
        assert(delta_x(pts1, 0, x1) == pts1[0].0 - x1);
        assert(delta_y(pts1, 0, y1) == pts1[0].1 - y1);
        lemma_encoded_len_monotone(pts1[0].0 - x1, pts2[0].0 - x2);
        lemma_encoded_len_monotone(pts1[0].1 - y1, pts2[0].1 - y2);
        let t1 = pts1.drop_first();
        let t2 = pts2.drop_first();
        assert forall|i: int| 0 <= i < t1.len() implies magnitude(
            #[trigger] delta_x(t1, i, pts1[0].0),
        ) < magnitude(delta_x(t2, i, pts2[0].0)) by {
            assert(t1[i] == pts1[i + 1]);
            assert(t2[i] == pts2[i + 1]);
            if i > 0 {
                assert(t1[i - 1] == pts1[i]);
                assert(t2[i - 1] == pts2[i]);
            }
            assert(delta_x(t1, i, pts1[0].0) == delta_x(pts1, i + 1, x1));
            assert(delta_x(t2, i, pts2[0].0) == delta_x(pts2, i + 1, x2));
        }
        assert forall|i: int| 0 <= i < t1.len() implies magnitude(
            #[trigger] delta_y(t1, i, pts1[0].1),
        ) < magnitude(delta_y(t2, i, pts2[0].1)) by {
            assert(t1[i] == pts1[i + 1]);
            assert(t2[i] == pts2[i + 1]);
            if i > 0 {
                assert(t1[i - 1] == pts1[i]);
                assert(t2[i - 1] == pts2[i]);
            }
            assert(delta_y(t1, i, pts1[0].1) == delta_y(pts1, i + 1, y1));
            assert(delta_y(t2, i, pts2[0].1) == delta_y(pts2, i + 1, y2));
        }
        lemma_path_len_monotone(t1, t2, pts1[0].0, pts1[0].1, pts2[0].0, pts2[0].1);
    }
}

} // verus!
