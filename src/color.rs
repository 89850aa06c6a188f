//! The discretized color space: color bases, their 8-bit scaling, and the
//! enumeration of all bases and of the signed probe offsets.

use vstd::prelude::*;

verus! {

/// A color before scaling to 8 bits: each component lies in `[0, color_size - 1]`.
#[derive(Clone, Copy, Debug, PartialEq, Eq, Structural)]
pub struct ColorBase {
    pub r: u8,
    pub g: u8,
    pub b: u8,
}

/// The largest supported scale: a color size of `scale * scale` must fit the
/// `u8` components of a `ColorBase`.
pub const MAX_SCALE: u64 = 16;

/// Number of values each component of a color base can take.
pub open spec fn color_size_of(scale: int) -> int {
    scale * scale
}

/// Whether every component of `cb` lies in `[0, cs - 1]`.
pub open spec fn valid_base(cb: ColorBase, cs: int) -> bool {
    cb.r < cs && cb.g < cs && cb.b < cs
}

/// `round(c * 255 / (cs - 1))`, with halves rounded up.
pub open spec fn scaled(c: int, cs: int) -> int {
    (510 * c + (cs - 1)) / (2 * (cs - 1))
}

/// Scales one component from `[0, color_size - 1]` to `[0, 255]`.
pub fn scale_component(c: u8, color_size: u64) -> (r: u8)
    requires
        2 <= color_size <= 256,
        c < color_size,
    ensures
        r as int == scaled(c as int, color_size as int),
{
    let d: u64 = color_size - 1;
    let num: u64 = 510 * (c as u64) + d;
    assert(num < 256 * (2 * d)) by (nonlinear_arith)
        requires
            num == 510 * (c as u64) + d,
            c <= d,
            d >= 1,
    ;
    let q: u64 = num / (2 * d);
    proof {
        let (n, m, qi) = (num as int, 2 * d as int, q as int);
        vstd::arithmetic::div_mod::lemma_fundamental_div_mod(n, m);
        assert(qi < 256) by (nonlinear_arith)
            requires
                n == m * qi + n % m,
                n % m >= 0,
                n < 256 * m,
                m >= 2,
        ;
    }
    q as u8
}

/// Converts a color base to its 8-bit RGB color.
pub fn color_base_to_color(cb: ColorBase, color_size: u64) -> (rgb: [u8; 3])
    requires
        2 <= color_size <= 256,
        valid_base(cb, color_size as int),
    ensures
        rgb@ == seq![
            scaled(cb.r as int, color_size as int) as u8,
            scaled(cb.g as int, color_size as int) as u8,
            scaled(cb.b as int, color_size as int) as u8,
        ],
{
    let rgb = [
        scale_component(cb.r, color_size),
        scale_component(cb.g, color_size),
        scale_component(cb.b, color_size),
    ];
    assert(rgb@ =~= seq![
        scaled(cb.r as int, color_size as int) as u8,
        scaled(cb.g as int, color_size as int) as u8,
        scaled(cb.b as int, color_size as int) as u8,
    ]);
    rgb
}

/// Scaling never decreases as the component grows.
pub proof fn lemma_scaled_monotonic(c1: int, c2: int, cs: int)
    requires
        2 <= cs,
        0 <= c1 <= c2 < cs,
    ensures
        scaled(c1, cs) <= scaled(c2, cs),
{
    let d = 2 * (cs - 1);
    vstd::arithmetic::div_mod::lemma_div_is_ordered(510 * c1 + (cs - 1), 510 * c2 + (cs - 1), d);
}

/// The two ends of the component range go to the two ends of `[0, 255]`.
pub proof fn lemma_scaled_ends(cs: int)
    requires
        2 <= cs,
    ensures
        scaled(0, cs) == 0,
        scaled(cs - 1, cs) == 255,
{
    let d = 2 * (cs - 1);
    vstd::arithmetic::div_mod::lemma_fundamental_div_mod_converse(cs - 1, d, 0, cs - 1);
    assert(510 * (cs - 1) + (cs - 1) == 255 * d + (cs - 1));
    vstd::arithmetic::div_mod::lemma_fundamental_div_mod_converse(
        510 * (cs - 1) + (cs - 1),
        d,
        255,
        cs - 1,
    );
}

/// A signed step in color space, used as a search direction.
#[derive(Clone, Copy, Debug, PartialEq, Eq, Structural)]
pub struct ColorOffset {
    pub dr: i16,
    pub dg: i16,
    pub db: i16,
}

/// The color base with mixed-radix index `n` in base `cs`: red is the lowest digit.
pub open spec fn base_of_index(n: int, cs: int) -> ColorBase {
    ColorBase { r: (n % cs) as u8, g: ((n / cs) % cs) as u8, b: (n / (cs * cs)) as u8 }
}

/// The mixed-radix index of `cb` in base `cs`.
pub open spec fn code_of(cb: ColorBase, cs: int) -> int {
    cb.r + cs * cb.g + cs * cs * cb.b
}

/// Every valid color base sits at its own index, which is below `cs^3`.
pub proof fn lemma_code_of_base(cb: ColorBase, cs: int)
    requires
        2 <= cs <= 256,
        valid_base(cb, cs),
    ensures
        0 <= code_of(cb, cs) < cs * cs * cs,
        base_of_index(code_of(cb, cs), cs) == cb,
{
    let n = code_of(cb, cs);
    let (r, g, b) = (cb.r as int, cb.g as int, cb.b as int);
    assert(n == (g + cs * b) * cs + r) by (nonlinear_arith)
        requires
            n == r + cs * g + cs * cs * b,
    ;
    vstd::arithmetic::div_mod::lemma_fundamental_div_mod_converse(n, cs, g + cs * b, r);
    vstd::arithmetic::div_mod::lemma_fundamental_div_mod_converse(g + cs * b, cs, b, g);
    vstd::arithmetic::div_mod::lemma_div_denominator(n, cs, cs);
    assert(0 <= n < cs * cs * cs) by (nonlinear_arith)
        requires
            n == r + cs * g + cs * cs * b,
            0 <= r < cs,
            0 <= g < cs,
            0 <= b < cs,
    ;
}

/// Every index below `cs^3` decodes to a valid color base.
pub proof fn lemma_base_of_index_valid(n: int, cs: int)
    requires
        2 <= cs <= 256,
        0 <= n < cs * cs * cs,
    ensures
        0 <= n / (cs * cs) < cs,
        0 <= n % cs < cs,
        0 <= (n / cs) % cs < cs,
        valid_base(base_of_index(n, cs), cs),
        code_of(base_of_index(n, cs), cs) == n,
{
    vstd::arithmetic::div_mod::lemma_div_denominator(n, cs, cs);
    assert(cs * cs * cs == (cs * cs) * cs) by (nonlinear_arith);
    assert(cs * cs > 0) by (nonlinear_arith)
        requires
            cs >= 2,
    ;
    vstd::arithmetic::div_mod::lemma_multiply_divide_lt(n, cs * cs, cs);
    vstd::arithmetic::div_mod::lemma_fundamental_div_mod(n, cs);
    vstd::arithmetic::div_mod::lemma_fundamental_div_mod(n / cs, cs);
    let (r, q, g, b) = (n % cs, n / cs, (n / cs) % cs, (n / cs) / cs);
    assert(n == r + cs * g + cs * cs * b) by (nonlinear_arith)
        requires
            n == cs * q + r,
            q == cs * b + g,
    ;
}

/// Enumerates every color base of the given scale, the one of index `n` at position `n`.
pub fn make_bases(scale: u64) -> (v: Vec<ColorBase>)
    requires
        2 <= scale <= MAX_SCALE,
    ensures
        v@.len() == color_size_of(scale as int) * color_size_of(scale as int) * color_size_of(
            scale as int,
        ),
        forall|i: int|
            0 <= i < v@.len() ==> #[trigger] v@[i] == base_of_index(
                i,
                color_size_of(scale as int),
            ),
{
    assert(4 <= scale * scale <= 256) by (nonlinear_arith)
        requires
            2 <= scale <= 16,
    ;
    let cs: u64 = scale * scale;
    assert(cs * cs <= 256 * 256 && cs * cs * cs <= 256 * 256 * 256) by (nonlinear_arith)
        requires
            2 <= cs <= 256,
    ;
    let cs2: u64 = cs * cs;
    let total: u64 = cs2 * cs;
    let mut v: Vec<ColorBase> = Vec::new();
    let mut n: u64 = 0;
    while n < total
        invariant
            cs == color_size_of(scale as int),
            2 <= cs <= 256,
            total == cs * cs * cs,
            cs2 == cs * cs,
            n <= total,
            v@.len() == n,
            forall|i: int| 0 <= i < n ==> #[trigger] v@[i] == base_of_index(i, cs as int),
        decreases total - n,
    {
        proof {
            lemma_base_of_index_valid(n as int, cs as int);
            vstd::arithmetic::div_mod::lemma_div_denominator(n as int, cs as int, cs as int);
        }
        let cb = ColorBase {
            r: (n % cs) as u8,
            g: ((n / cs) % cs) as u8,
            b: (n / cs2) as u8,
        };
        v.push(cb);
        n = n + 1;
    }
    v
}

/// Squared Euclidean magnitude of an offset.
pub open spec fn magnitude(o: ColorOffset) -> int {
    o.dr * o.dr + o.dg * o.dg + o.db * o.db
}

/// The `k`-th of the eight sign variants of `cb`: bit 2 of `k` negates red,
/// bit 1 green and bit 0 blue.
pub open spec fn sign_variant(cb: ColorBase, k: int) -> ColorOffset {
    ColorOffset {
        dr: if (k / 4) % 2 == 1 { -(cb.r as int) } else { cb.r as int } as i16,
        dg: if (k / 2) % 2 == 1 { -(cb.g as int) } else { cb.g as int } as i16,
        db: if k % 2 == 1 { -(cb.b as int) } else { cb.b as int } as i16,
    }
}

/// All sign variants of all bases, eight per base, in the order of the bases.
pub open spec fn all_variants(bases: Seq<ColorBase>) -> Seq<ColorOffset> {
    Seq::new(8 * bases.len(), |i: int| sign_variant(bases[i / 8], i % 8))
}

/// Whether the offsets ascend by squared magnitude.
pub open spec fn sorted_by_magnitude(s: Seq<ColorOffset>) -> bool {
    forall|i: int, j: int| 0 <= i <= j < s.len() ==> magnitude(s[i]) <= magnitude(s[j])
}

impl ColorOffset {
    /// Squared Euclidean magnitude.
    pub fn magnitude_sq(&self) -> (m: i64)
        ensures
            m == magnitude(*self),
    {
        let (a, b, c) = (self.dr as i64, self.dg as i64, self.db as i64);
        assert(0 <= a * a <= 32768 * 32768 && 0 <= b * b <= 32768 * 32768 && 0 <= c * c
            <= 32768 * 32768) by (nonlinear_arith)
            requires
                -32768 <= a <= 32767,
                -32768 <= b <= 32767,
                -32768 <= c <= 32767,
        ;
        a * a + b * b + c * c
    }
}

/// Relies on `slice::sort_by_key`: it permutes the slice so that the keys
/// ascend; the key here is the verified `magnitude_sq`.
#[verifier::external_body]
fn sort_by_magnitude(v: &mut Vec<ColorOffset>)
    ensures
        final(v)@.to_multiset() == old(v)@.to_multiset(),
        final(v)@.len() == old(v)@.len(),
        sorted_by_magnitude(final(v)@),
{
    v.sort_by_key(|o| o.magnitude_sq())
}

/// Emits the eight sign variants of every base, then sorts them by squared
/// magnitude, ascending.
pub fn make_offsets(bases: &Vec<ColorBase>) -> (offs: Vec<ColorOffset>)
    requires
        8 * bases@.len() <= usize::MAX,
    ensures
        offs@.to_multiset() == all_variants(bases@).to_multiset(),
        offs@.len() == 8 * bases@.len(),
        sorted_by_magnitude(offs@),
{
    let mut offs: Vec<ColorOffset> = Vec::new();
    let mut i: usize = 0;
    while i < bases.len()
        invariant
            8 * bases@.len() <= usize::MAX,
            i <= bases@.len(),
            offs@ == all_variants(bases@.subrange(0, i as int)),
        decreases bases@.len() - i,
    {
        let cb = bases[i];
        let (r, g, b) = (cb.r as i16, cb.g as i16, cb.b as i16);
        let ghost before = offs@;
        offs.push(ColorOffset { dr: r, dg: g, db: b });
        offs.push(ColorOffset { dr: r, dg: g, db: -b });
        offs.push(ColorOffset { dr: r, dg: -g, db: b });
        offs.push(ColorOffset { dr: r, dg: -g, db: -b });
        offs.push(ColorOffset { dr: -r, dg: g, db: b });
        offs.push(ColorOffset { dr: -r, dg: g, db: -b });
        offs.push(ColorOffset { dr: -r, dg: -g, db: b });
        offs.push(ColorOffset { dr: -r, dg: -g, db: -b });
        proof {
            let pre = bases@.subrange(0, i as int);
            let post = bases@.subrange(0, i + 1);
            assert forall|k: int| 0 <= k < 8 * post.len() implies #[trigger] offs@[k]
                == sign_variant(post[k / 8], k % 8) by {
                if k < 8 * i {
                    assert(offs@[k] == before[k]);
                    assert(pre[k / 8] == post[k / 8]);
                } else {
                    assert(k / 8 == i);
                }
            }
            assert(offs@ =~= all_variants(post));
        }
        i = i + 1;
    }
    assert(bases@.subrange(0, i as int) =~= bases@);
    sort_by_magnitude(&mut offs);
    offs
}

} // verus!
