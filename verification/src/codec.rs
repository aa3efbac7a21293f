//! The polyline codec: encoding of a path of scaled coordinates into a
//! compact ASCII byte string, and the inverse, total decoding function.
//!
//! Each signed per-axis delta is mapped through the zig-zag transform to an
//! unsigned value, which is emitted in 5-bit groups, least significant
//! group first; every group except the last carries a continuation flag
//! (bit `0x20`), and every group is offset by 63 into printable ASCII.

use vstd::prelude::*;

verus! {

/// Decoding failures: one kind covers every structural violation of the
/// format (byte outside the alphabet, truncated value, dangling half pair,
/// or a value too large for the coordinate range).
#[derive(Clone, Copy, Debug, PartialEq, Eq, Structural)]
pub enum DecodeError {
    MalformedInput,
}

/// The zig-zag transform: a bijection from signed integers to unsigned
/// ones that interleaves sign, so small magnitudes stay small.
pub open spec fn zigzag(d: int) -> nat {
    if d >= 0 {
        (2 * d) as nat
    } else {
        (-2 * d - 1) as nat
    }
}

/// Inverse of [`zigzag`].
pub open spec fn unzigzag(u: nat) -> int {
    if u % 2 == 0 {
        (u / 2) as int
    } else {
        -((u / 2) as int) - 1
    }
}

/// Offset of a byte into the encoding alphabet.
pub open spec fn byte_val(b: u8) -> int {
    b as int - 63
}

/// Whether a byte lies in the encoding alphabet (ASCII 63 to 126).
pub open spec fn is_alphabet(b: u8) -> bool {
    63 <= b && b <= 126
}

/// Whether a byte says that more groups follow for the current value.
pub open spec fn has_continuation(b: u8) -> bool {
    byte_val(b) >= 32
}

/// The 5 data bits a byte contributes to the value being decoded.
pub open spec fn group_data(b: u8) -> int {
    byte_val(b) % 32
}

/// `32^k`: the weight of the `k`-th 5-bit group of a value.
pub open spec fn pow32(k: nat) -> nat
    decreases k,
{
    if k == 0 {
        1
    } else {
        32 * pow32((k - 1) as nat)
    }
}

/// Decoded values must stay below `32^13 = 2^65`: that is enough for the
/// zig-zag image of any difference of two `i64` coordinates, and anything
/// larger is rejected as malformed.
pub open spec fn uint_bound() -> int {
    0x2_0000_0000_0000_0000
}

/// Whether a mathematical integer fits the coordinate type.
pub open spec fn in_i64(x: int) -> bool {
    i64::MIN <= x <= i64::MAX
}

/// The encoding of one unsigned value: 5-bit groups, least significant
/// first, each group offset by 63, all but the last flagged with `0x20`.
pub open spec fn enc_uint(u: nat) -> Seq<u8>
    decreases u,
{
    if u < 32 {
        seq![(u + 63) as u8]
    } else {
        seq![(u % 32 + 95) as u8] + enc_uint(u / 32)
    }
}

/// The encoding of one signed delta.
pub open spec fn enc_int(d: int) -> Seq<u8> {
    enc_uint(zigzag(d))
}

/// The encoding of a path of coordinates, given the previous (already
/// emitted) coordinate: for each point, the delta of the first axis is
/// emitted, then the delta of the second axis.
pub open spec fn enc_points(pts: Seq<(int, int)>, x0: int, y0: int) -> Seq<u8>
    decreases pts.len(),
{
    if pts.len() == 0 {
        Seq::empty()
    } else {
        enc_int(pts[0].0 - x0) + enc_int(pts[0].1 - y0) + enc_points(
            pts.drop_first(),
            pts[0].0,
            pts[0].1,
        )
    }
}

/// Parses one unsigned value from the front of `s`; yields the value and
/// the number of bytes consumed, or `None` if the first byte is outside
/// the alphabet or the value is cut off mid-continuation.
pub open spec fn parse_uint(s: Seq<u8>) -> Option<(nat, nat)>
    decreases s.len(),
{
    if s.len() == 0 {
        None
    } else if !is_alphabet(s[0]) {
        None
    } else if !has_continuation(s[0]) {
        Some((group_data(s[0]) as nat, 1nat))
    } else {
        match parse_uint(s.drop_first()) {
            None => None,
            Some((v, n)) => Some(((group_data(s[0]) + 32 * v) as nat, (n + 1) as nat)),
        }
    }
}

/// Parses one signed delta from the front of `s`: the unsigned value, held
/// to [`uint_bound`], sent back through [`unzigzag`].
pub open spec fn parse_sint(s: Seq<u8>) -> Option<(int, nat)> {
    match parse_uint(s) {
        None => None,
        Some((v, n)) => if v >= uint_bound() {
            None
        } else {
            Some((unzigzag(v), n))
        },
    }
}

/// Parses a whole byte string into a path of coordinates, accumulating
/// deltas onto the previous coordinate `(x0, y0)`.  `None` on any
/// structural violation: an invalid or truncated value, a dangling first
/// axis with no second one, or an accumulated coordinate outside `i64`.
pub open spec fn parse_points(s: Seq<u8>, x0: int, y0: int) -> Option<Seq<(int, int)>>
    decreases s.len(),
    via parse_points_decreases
{
    if s.len() == 0 {
        Some(Seq::empty())
    } else {
        match parse_sint(s) {
            None => None,
            Some((dx, n0)) => match parse_sint(s.skip(n0 as int)) {
                None => None,
                Some((dy, n1)) => {
                    let x = x0 + dx;
                    let y = y0 + dy;
                    if !in_i64(x) || !in_i64(y) {
                        None
                    } else {
                        match parse_points(s.skip(n0 + n1 as int), x, y) {
                            None => None,
                            Some(rest) => Some(seq![(x, y)] + rest),
                        }
                    }
                },
            },
        }
    }
}

#[via_fn]
proof fn parse_points_decreases(s: Seq<u8>, x0: int, y0: int) {
    if s.len() != 0 {
        lemma_parse_uint_consumed(s);
        if let Some((dx, n0)) = parse_sint(s) {
            lemma_parse_uint_consumed(s.skip(n0 as int));
        }
    }
}

/// A successful parse of one value consumes between 1 byte and the whole
/// input.
proof fn lemma_parse_uint_consumed(s: Seq<u8>)
    ensures
        match parse_uint(s) {
            Some((v, n)) => 1 <= n <= s.len(),
            None => true,
        },
    decreases s.len(),
{
    if s.len() != 0 && is_alphabet(s[0]) && has_continuation(s[0]) {
        lemma_parse_uint_consumed(s.drop_first());
    }
}

/// The scaled-coordinate pairs of a path, as mathematical integers.
pub open spec fn int_pairs(s: Seq<(i64, i64)>) -> Seq<(int, int)> {
    s.map_values(|p: (i64, i64)| (p.0 as int, p.1 as int))
}

/// The precision scale factor: `10^p`.
pub open spec fn pow10_spec(p: nat) -> nat
    decreases p,
{
    if p == 0 {
        1
    } else {
        10 * pow10_spec((p - 1) as nat)
    }
}

proof fn lemma_pow10_monotone(a: nat, b: nat)
    requires
        a <= b,
    ensures
        pow10_spec(a) <= pow10_spec(b),
    decreases b,
{
    if a < b && b > 0 {
        lemma_pow10_monotone(a, (b - 1) as nat);
    }
}

proof fn lemma_pow10_18()
    ensures
        pow10_spec(18) == 1_000_000_000_000_000_000,
{
    reveal_with_fuel(pow10_spec, 19);
}

/// The scale factor `10^p` that turns a coordinate with `p` decimal digits
/// of precision into a scaled integer coordinate.
pub fn pow10(p: u32) -> (r: i64)
    requires
        p <= 18,
    ensures
        r as nat == pow10_spec(p as nat),
        r >= 1,
{
    let mut acc: i64 = 1;
    let mut i: u32 = 0;
    while i < p
        invariant
            0 <= i <= p <= 18,
            1 <= acc,
            acc as nat == pow10_spec(i as nat),
        decreases p - i,
    {
        proof {
            lemma_pow10_monotone((i + 1) as nat, 18);
            lemma_pow10_18();
            assert(pow10_spec((i + 1) as nat) == 10 * pow10_spec(i as nat));
            assert(10 * acc <= 1_000_000_000_000_000_000);
        }
        acc = acc * 10;
        i = i + 1;
    }
    acc
}

/// Emits the base-32 groups of one unsigned value, least significant
/// group first, continuation flag on every group but the last.
fn push_uint(out: &mut Vec<u8>, u: u128)
    ensures
        final(out)@ == old(out)@ + enc_uint(u as nat),
{
    let mut v: u128 = u;
    while v >= 32
        invariant
            old(out)@ + enc_uint(u as nat) == out@ + enc_uint(v as nat),
        decreases v,
    {
        let b: u8 = ((v % 32) as u8) + 95;
        proof {
            assert(enc_uint(v as nat) == seq![b] + enc_uint((v as nat) / 32));
            assert((out@ + seq![b]) + enc_uint((v / 32) as nat) =~= out@ + (seq![b] + enc_uint(
                (v / 32) as nat,
            )));
        }
        out.push(b);
        v = v / 32;
    }
    let b: u8 = (v as u8) + 63;
    proof {
        assert(enc_uint(v as nat) == seq![b]);
        assert((out@ + seq![b]) =~= out@ + enc_uint(v as nat));
    }
    out.push(b);
}

/// Emits one signed delta: the zig-zag image of `d`, in base-32 groups.
fn push_signed(out: &mut Vec<u8>, d: i128)
    requires
        -0x1_0000_0000_0000_0000 <= d < 0x1_0000_0000_0000_0000,
    ensures
        final(out)@ == old(out)@ + enc_int(d as int),
{
    let u: u128 = if d >= 0 {
        (2 * d) as u128
    } else {
        let m: i128 = -d;
        (2 * m - 1) as u128
    };
    proof {
        assert(u as nat == zigzag(d as int));
    }
    push_uint(out, u);
}

/// Encodes a path of scaled coordinates.  For each point, the difference
/// from the previous point (initially the origin) is emitted per axis,
/// first component first; deltas go through [`zigzag`] and out as base-32
/// groups offset into ASCII 63 to 126.
pub fn encode(points: &Vec<(i64, i64)>) -> (out: Vec<u8>)
    ensures
        out@ == enc_points(int_pairs(points@), 0, 0),
{
    let mut out: Vec<u8> = Vec::new();
    let mut prev_x: i64 = 0;
    let mut prev_y: i64 = 0;
    let mut i: usize = 0;
    proof {
        assert(int_pairs(points@).skip(0) =~= int_pairs(points@));
        assert(out@ + enc_points(int_pairs(points@), 0, 0) =~= enc_points(int_pairs(points@), 0, 0));
    }
    while i < points.len()
        invariant
            0 <= i <= points@.len(),
            out@ + enc_points(int_pairs(points@).skip(i as int), prev_x as int, prev_y as int)
                == enc_points(int_pairs(points@), 0, 0),
        decreases points@.len() - i,
    {
        let (x, y) = points[i];
        let dx: i128 = x as i128 - prev_x as i128;
        let dy: i128 = y as i128 - prev_y as i128;
        let ghost out0 = out@;
        proof {
            let pts = int_pairs(points@);
            assert(pts[i as int] == (x as int, y as int));
            assert(pts.skip(i as int)[0] == pts[i as int]);
            assert(pts.skip(i as int).drop_first() =~= pts.skip(i as int + 1));
            assert(enc_points(pts.skip(i as int), prev_x as int, prev_y as int) == enc_int(
                dx as int,
            ) + enc_int(dy as int) + enc_points(pts.skip(i as int + 1), x as int, y as int));
        }
        push_signed(&mut out, dx);
        push_signed(&mut out, dy);
        proof {
            let pts = int_pairs(points@);
            assert(out@ + enc_points(pts.skip(i as int + 1), x as int, y as int) =~= out0
                + enc_points(pts.skip(i as int), prev_x as int, prev_y as int));
        }
        prev_x = x;
        prev_y = y;
        i = i + 1;
    }
    proof {
        assert(int_pairs(points@).skip(i as int) =~= Seq::<(int, int)>::empty());
        assert(out@ + Seq::<u8>::empty() =~= out@);
    }
    out
}

/// The group index capped at 13: past 13 groups the value is already at
/// or beyond [`uint_bound`] unless all further groups are zero.
pub open spec fn cap13(k: nat) -> nat {
    if k <= 13 {
        k
    } else {
        13
    }
}

proof fn lemma_pow32_monotone(a: nat, b: nat)
    requires
        a <= b,
    ensures
        pow32(a) <= pow32(b),
    decreases b,
{
    if a < b && b > 0 {
        lemma_pow32_monotone(a, (b - 1) as nat);
    }
}

proof fn lemma_pow32_values()
    ensures
        pow32(12) == 0x1000_0000_0000_0000,
        pow32(13) == 0x2_0000_0000_0000_0000,
{
    reveal_with_fuel(pow32, 14);
}

/// Reads one base-32 value from `bytes` starting at `start`: the value and
/// the position just past it, or `MalformedInput` where the spec-level
/// parse fails or the value reaches [`uint_bound`].
fn parse_value(bytes: &Vec<u8>, start: usize) -> (r: Result<(u128, usize), DecodeError>)
    requires
        start <= bytes@.len(),
    ensures
        match r {
            Ok((v, end)) => {
                &&& start < end <= bytes@.len()
                &&& (v as int) < uint_bound()
                &&& parse_uint(bytes@.skip(start as int)) == Some((v as nat, (end - start) as nat))
            },
            Err(e) => {
                &&& e == DecodeError::MalformedInput
                &&& match parse_uint(bytes@.skip(start as int)) {
                    None => true,
                    Some((v, n)) => v >= uint_bound(),
                }
            },
        },
{
    let ghost s = bytes@;
    let mut cur: usize = start;
    let mut k: usize = 0;
    let mut acc: u128 = 0;
    let mut m: u128 = 1;
    loop
        invariant
            start <= cur <= s.len(),
            s == bytes@,
            cur - start == k,
            k <= 13 ==> m as nat == pow32(k as nat),
            (acc as nat) < pow32(cap13(k as nat)),
            parse_uint(s.skip(start as int)) == (match parse_uint(s.skip(cur as int)) {
                None => None::<(nat, nat)>,
                Some((v2, n2)) => Some(
                    (((acc as nat) + v2 * pow32(k as nat)) as nat, (k + n2) as nat),
                ),
            }),
        decreases s.len() - cur,
    {
        proof {
            lemma_pow32_monotone(cap13(k as nat), 13);
            lemma_pow32_values();
        }
        if cur == bytes.len() {
            proof {
                assert(s.skip(cur as int) =~= Seq::<u8>::empty());
            }
            return Err(DecodeError::MalformedInput);
        }
        let b = bytes[cur];
        proof {
            assert(s.skip(cur as int)[0] == s[cur as int]);
            assert(s.skip(cur as int).drop_first() =~= s.skip(cur as int + 1));
        }
        if b < 63 || b > 126 {
            return Err(DecodeError::MalformedInput);
        }
        let g: u8 = b - 63;
        let data: u8 = g % 32;
        proof {
            assert(group_data(b) == data as int);
        }
        if k >= 13 && data > 0 {
            proof {
                lemma_pow32_monotone(13, k as nat);
                if let Some((v2, n2)) = parse_uint(s.skip(cur as int)) {
                    assert(v2 >= group_data(b));
                    assert(v2 * pow32(k as nat) >= pow32(k as nat)) by (nonlinear_arith)
                        requires
                            v2 >= 1,
                            pow32(k as nat) >= 0,
                    ;
                }
            }
            return Err(DecodeError::MalformedInput);
        }
        let ghost acc0 = acc as nat;
        let ghost k0 = k as nat;
        if k <= 12 {
            proof {
                lemma_pow32_monotone(k as nat, 12);
                assert((data as nat) * (m as nat) <= 31 * (m as nat)) by (nonlinear_arith)
                    requires
                        data as nat <= 31,
                        m as nat >= 0,
                ;
                assert(acc0 + (data as nat) * pow32(k0) < 32 * pow32(k0)) by (nonlinear_arith)
                    requires
                        acc0 < pow32(k0),
                        data as nat <= 31,
                        pow32(k0) >= 0,
                ;
            }
            acc = acc + (data as u128) * m;
            proof {
                assert(m as nat == pow32(k0));
                assert(acc as nat == acc0 + (data as nat) * (m as nat));
            }
        } else {
            proof {
                assert(data == 0);
                assert((data as nat) * pow32(k0) == 0) by (nonlinear_arith)
                    requires
                        data as nat == 0,
                ;
            }
        }
        proof {
            assert(acc as nat == acc0 + (data as nat) * pow32(k0));
            assert((acc as nat) < pow32(cap13((k + 1) as nat)));
        }
        if g < 32 {
            proof {
                assert(!has_continuation(b));
                assert(parse_uint(s.skip(cur as int)) == Some((data as nat, 1nat)));
            }
            return Ok((acc, cur + 1));
        }
        proof {
            assert(has_continuation(b));
            let t = s.skip(cur as int);
            let t1 = s.skip(cur as int + 1);
            match parse_uint(t1) {
                None => {
                    assert(parse_uint(t) == None::<(nat, nat)>);
                },
                Some((v3, n3)) => {
                    assert(parse_uint(t) == Some(
                        ((group_data(b) + 32 * v3) as nat, (n3 + 1) as nat),
                    ));
                    assert((data as nat + 32 * v3) * pow32(k0) == (data as nat) * pow32(k0) + v3
                        * (32 * pow32(k0))) by (nonlinear_arith);
                    assert(32 * pow32(k0) == pow32((k0 + 1) as nat));
                },
            }
        }
        cur = cur + 1;
        k = k + 1;
        if k <= 13 {
            m = m * 32;
        }
    }
}

/// Undoes the zig-zag transform on a decoded value.
fn unzigzag_val(v: u128) -> (d: i128)
    requires
        (v as int) < uint_bound(),
    ensures
        d as int == unzigzag(v as nat),
{
    if v % 2 == 0 {
        (v / 2) as i128
    } else {
        -((v / 2) as i128) - 1
    }
}

/// Decodes an encoded polyline byte string into the path of scaled
/// coordinates it denotes, exactly as [`parse_points`] describes: deltas
/// accumulate from the origin, first axis first.  Returns
/// `MalformedInput` if and only if the spec-level parse yields `None`:
/// a byte outside ASCII 63 to 126, a value cut off mid-continuation, a
/// dangling first axis, a value at or past [`uint_bound`], or an
/// accumulated coordinate outside `i64`.
pub fn decode(bytes: &Vec<u8>) -> (r: Result<Vec<(i64, i64)>, DecodeError>)
    ensures
        match parse_points(bytes@, 0, 0) {
            Some(pts) => r matches Ok(v) && int_pairs(v@) == pts,
            None => r matches Err(e) && e == DecodeError::MalformedInput,
        },
{
    let ghost s = bytes@;
    let mut out: Vec<(i64, i64)> = Vec::new();
    let mut x: i64 = 0;
    let mut y: i64 = 0;
    let mut i: usize = 0;
    proof {
        assert(s.skip(0) =~= s);
        if let Some(t) = parse_points(s, 0, 0) {
            assert(int_pairs(out@) + t =~= t);
        }
    }
    while i < bytes.len()
        invariant
            i <= s.len(),
            s == bytes@,
            parse_points(s, 0, 0) == (match parse_points(s.skip(i as int), x as int, y as int) {
                None => None::<Seq<(int, int)>>,
                Some(t) => Some(int_pairs(out@) + t),
            }),
        decreases s.len() - i,
    {
        let first = match parse_value(bytes, i) {
            Ok(p) => p,
            Err(_) => {
                proof {
                    assert(parse_sint(s.skip(i as int)) is None);
                }
                return Err(DecodeError::MalformedInput);
            },
        };
        let (v0, j) = first;
        let dx = unzigzag_val(v0);
        let ghost n0 = (j - i) as nat;
        proof {
            assert(s.skip(i as int).skip(n0 as int) =~= s.skip(j as int));
        }
        let second = match parse_value(bytes, j) {
            Ok(p) => p,
            Err(_) => {
                proof {
                    assert(parse_sint(s.skip(i as int).skip(n0 as int)) is None);
                    assert(parse_points(s.skip(i as int), x as int, y as int) is None);
                }
                return Err(DecodeError::MalformedInput);
            },
        };
        let (v1, j2) = second;
        let dy = unzigzag_val(v1);
        let ghost n1 = (j2 - j) as nat;
        let nx_wide: i128 = x as i128 + dx;
        let ny_wide: i128 = y as i128 + dy;
        if nx_wide < i64::MIN as i128 || nx_wide > i64::MAX as i128 || ny_wide < i64::MIN as i128
            || ny_wide > i64::MAX as i128 {
            proof {
                assert(parse_points(s.skip(i as int), x as int, y as int) is None);
            }
            return Err(DecodeError::MalformedInput);
        }
        let nx = nx_wide as i64;
        let ny = ny_wide as i64;
        let ghost out0 = out@;
        out.push((nx, ny));
        proof {
            assert(s.skip(i as int).skip(n0 + n1 as int) =~= s.skip(j2 as int));
            assert(int_pairs(out@) =~= int_pairs(out0) + seq![(nx as int, ny as int)]);
            assert(parse_points(s.skip(i as int), x as int, y as int) == (match parse_points(
                s.skip(j2 as int),
                nx as int,
                ny as int,
            ) {
                None => None::<Seq<(int, int)>>,
                Some(rest) => Some(seq![(nx as int, ny as int)] + rest),
            }));
            if let Some(rest) = parse_points(s.skip(j2 as int), nx as int, ny as int) {
                assert(int_pairs(out0) + (seq![(nx as int, ny as int)] + rest) =~= int_pairs(out@)
                    + rest);
            }
        }
        x = nx;
        y = ny;
        i = j2;
    }
    proof {
        assert(s.skip(i as int) =~= Seq::<u8>::empty());
        assert(int_pairs(out@) + Seq::<(int, int)>::empty() =~= int_pairs(out@));
    }
    Ok(out)
}

} // verus!
