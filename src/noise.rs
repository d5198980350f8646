use vstd::prelude::*;
use vstd::arithmetic::div_mod::{lemma_div_is_ordered, lemma_div_multiples_vanish, lemma_mod_bound};
use vstd::arithmetic::power2::{
    pow2, lemma_pow2_pos, lemma_pow2_strictly_increases, lemma_pow2_unfold, lemma_pow2_adds,
    lemma_pow2_subtracts,
};

verus! {

/// One mixing step: `h - (h << k)` modulo 2^32.
pub open spec fn sub_shl(h: u32, k: u32) -> u32 {
    vstd::wrapping::u32_specs::wrapping_sub(h, h << k)
}

/// The avalanche hash as a sequence of shift-and-mix steps on 32-bit words.
pub open spec fn hash_spec(seed: u32) -> u32 {
    let h1 = sub_shl(seed, 6);
    let h2 = h1 ^ (h1 >> 17);
    let h3 = sub_shl(h2, 9);
    let h4 = h3 ^ (h3 << 4);
    let h5 = sub_shl(h4, 3);
    let h6 = h5 ^ (h5 << 10);
    h6 ^ (h6 >> 15)
}

/// Pure 32-bit mixing hash; overflow wraps.
pub fn hash(seed: u32) -> (r: u32)
    ensures
        r == hash_spec(seed),
{
    let mut h: u32 = seed;
    h = h.wrapping_sub(h << 6);
    h = h ^ (h >> 17);
    h = h.wrapping_sub(h << 9);
    h = h ^ (h << 4);
    h = h.wrapping_sub(h << 3);
    h = h ^ (h << 10);
    h = h ^ (h >> 15);
    h
}

proof fn lemma_sub_shl_injective(a: u32, b: u32)
    ensures
        sub_shl(a, 6) == sub_shl(b, 6) ==> a == b,
        sub_shl(a, 9) == sub_shl(b, 9) ==> a == b,
        sub_shl(a, 3) == sub_shl(b, 3) ==> a == b,
{
    assert(vstd::wrapping::u32_specs::wrapping_sub(a, a << 6) == vstd::wrapping::u32_specs::wrapping_sub(b, b << 6) ==> a == b) by (bit_vector);
    assert(vstd::wrapping::u32_specs::wrapping_sub(a, a << 9) == vstd::wrapping::u32_specs::wrapping_sub(b, b << 9) ==> a == b) by (bit_vector);
    assert(vstd::wrapping::u32_specs::wrapping_sub(a, a << 3) == vstd::wrapping::u32_specs::wrapping_sub(b, b << 3) ==> a == b) by (bit_vector);
}

proof fn lemma_xor_shift_injective(a: u32, b: u32)
    ensures
        a ^ (a >> 17) == b ^ (b >> 17) ==> a == b,
        a ^ (a << 4) == b ^ (b << 4) ==> a == b,
        a ^ (a << 10) == b ^ (b << 10) ==> a == b,
        a ^ (a >> 15) == b ^ (b >> 15) ==> a == b,
{
    assert(a ^ (a >> 17) == b ^ (b >> 17) ==> a == b) by (bit_vector);
    assert(a ^ (a << 4) == b ^ (b << 4) ==> a == b) by (bit_vector);
    assert(a ^ (a << 10) == b ^ (b << 10) ==> a == b) by (bit_vector);
    assert(a ^ (a >> 15) == b ^ (b >> 15) ==> a == b) by (bit_vector);
}

/// Zero is a fixed point: every step maps the all-zero word to itself, so a chain
/// started at seed 0 stays at 0.
pub proof fn lemma_hash_fixes_zero()
    ensures
        hash_spec(0) == 0,
{
    assert(vstd::wrapping::u32_specs::wrapping_sub(0u32, 0u32 << 6) == 0u32) by (bit_vector);
    assert(vstd::wrapping::u32_specs::wrapping_sub(0u32, 0u32 << 9) == 0u32) by (bit_vector);
    assert(vstd::wrapping::u32_specs::wrapping_sub(0u32, 0u32 << 3) == 0u32) by (bit_vector);
    assert(0u32 ^ (0u32 >> 17) == 0u32) by (bit_vector);
    assert(0u32 ^ (0u32 << 4) == 0u32) by (bit_vector);
    assert(0u32 ^ (0u32 << 10) == 0u32) by (bit_vector);
    assert(0u32 ^ (0u32 >> 15) == 0u32) by (bit_vector);
}

/// Distinct seeds never collide: every mixing step is invertible, so the hash is a
/// permutation of the 32-bit words.
pub proof fn lemma_hash_injective(a: u32, b: u32)
    requires
        a != b,
    ensures
        hash_spec(a) != hash_spec(b),
{
    let a1 = sub_shl(a, 6);
    let b1 = sub_shl(b, 6);
    lemma_sub_shl_injective(a, b);
    let a2 = a1 ^ (a1 >> 17);
    let b2 = b1 ^ (b1 >> 17);
    lemma_xor_shift_injective(a1, b1);
    let a3 = sub_shl(a2, 9);
    let b3 = sub_shl(b2, 9);
    lemma_sub_shl_injective(a2, b2);
    let a4 = a3 ^ (a3 << 4);
    let b4 = b3 ^ (b3 << 4);
    lemma_xor_shift_injective(a3, b3);
    let a5 = sub_shl(a4, 3);
    let b5 = sub_shl(b4, 3);
    lemma_sub_shl_injective(a4, b4);
    let a6 = a5 ^ (a5 << 10);
    let b6 = b5 ^ (b5 << 10);
    lemma_xor_shift_injective(a5, b5);
    lemma_xor_shift_injective(a6, b6);
}

/// The state after `n` steps of the hash chain started at `seed`.
pub open spec fn hash_iter(seed: u32, n: nat) -> u32
    decreases n,
{
    if n == 0 {
        seed
    } else {
        hash_spec(hash_iter(seed, (n - 1) as nat))
    }
}

/// The raw white-noise sequence of length `n`: sample `k` is the chain's state after
/// `k + 1` steps, so each sample feeds the next.
pub open spec fn white_noise_seq(seed: u32, n: nat) -> Seq<u32> {
    Seq::new(n, |k: int| hash_iter(seed, (k + 1) as nat))
}

/// The white-noise sequence is one hash chain: the first sample hashes the seed and
/// each later sample hashes the one before it.
pub proof fn lemma_white_noise_chain(seed: u32, n: nat, k: int)
    requires
        0 <= k,
        k + 1 < n,
    ensures
        white_noise_seq(seed, n)[0] == hash_spec(seed),
        white_noise_seq(seed, n)[k + 1] == hash_spec(white_noise_seq(seed, n)[k]),
{
    assert(hash_iter(seed, 0) == seed);
    assert(hash_iter(seed, (k + 2) as nat) == hash_spec(hash_iter(seed, (k + 1) as nat)));
}

/// Linear position of cell `(i, j)` in a grid `nx` cells wide.
pub open spec fn cell_index(nx: int, i: int, j: int) -> int {
    i + j * nx
}

proof fn lemma_cell_index_bounds(nx: int, ny: int, i: int, j: int)
    requires
        0 <= i < nx,
        0 <= j < ny,
    ensures
        0 <= j * nx <= cell_index(nx, i, j) < nx * ny,
{
    assert(0 <= j * nx <= i + j * nx < nx * ny) by (nonlinear_arith)
        requires
            0 <= i < nx,
            0 <= j < ny,
    ;
}

/// A dense `nx` by `ny` field of samples; cell `(i, j)` sits at `i + j * nx`.
pub struct Noise2D<T> {
    pub nx: usize,
    pub ny: usize,
    pub data: Vec<T>,
}

impl<T> Noise2D<T> {
    /// The buffer holds exactly one sample per cell.
    pub open spec fn wf(&self) -> bool {
        self.data@.len() == self.nx * self.ny
    }

    /// The sample stored at cell `(i, j)`.
    pub open spec fn at(&self, i: int, j: int) -> T {
        self.data@[cell_index(self.nx as int, i, j)]
    }
}

impl<T: Copy> Noise2D<T> {
    /// A grid of `nx * ny` cells, each holding `fill`.
    pub fn new(nx: usize, ny: usize, fill: T) -> (r: Self)
        requires
            nx * ny <= usize::MAX,
        ensures
            r.wf(),
            r.nx == nx,
            r.ny == ny,
            r.data@ == Seq::new((nx * ny) as nat, |k: int| fill),
    {
        let n: usize = nx * ny;
        let mut data: Vec<T> = Vec::with_capacity(n);
        let mut k: usize = 0;
        while k < n
            invariant
                k <= n,
                data@ == Seq::new(k as nat, |m: int| fill),
            decreases n - k,
        {
            data.push(fill);
            k = k + 1;
            assert(data@ =~= Seq::new(k as nat, |m: int| fill));
        }
        Noise2D { nx, ny, data }
    }

    /// The sample at column `i`, row `j`.
    pub fn get(&self, i: usize, j: usize) -> (r: T)
        requires
            self.wf(),
            i < self.nx,
            j < self.ny,
        ensures
            r == self.at(i as int, j as int),
    {
        let len: usize = self.data.len();
        proof {
            assert(len == self.nx * self.ny);
            lemma_cell_index_bounds(self.nx as int, self.ny as int, i as int, j as int);
        }
        self.data[i + j * self.nx]
    }

    /// Overwrites the sample at column `i`, row `j`; every other cell keeps its value.
    pub fn set(&mut self, i: usize, j: usize, v: T)
        requires
            old(self).wf(),
            i < old(self).nx,
            j < old(self).ny,
        ensures
            final(self).wf(),
            final(self).nx == old(self).nx,
            final(self).ny == old(self).ny,
            final(self).data@ == old(self).data@.update(
                cell_index(old(self).nx as int, i as int, j as int),
                v,
            ),
    {
        let len: usize = self.data.len();
        proof {
            assert(len == self.nx * self.ny);
            lemma_cell_index_bounds(self.nx as int, self.ny as int, i as int, j as int);
        }
        let k: usize = i + j * self.nx;
        self.data.set(k, v);
    }
}

impl Noise2D<u32> {
    /// Raw white noise: the hash chain from `seed`, one step per cell, in linear order.
    pub fn white_noise(nx: usize, ny: usize, seed: u32) -> (r: Self)
        requires
            nx * ny <= usize::MAX,
        ensures
            r.wf(),
            r.nx == nx,
            r.ny == ny,
            r.data@ == white_noise_seq(seed, (nx * ny) as nat),
    {
        let data: Vec<u32> = Noise2D::gen_white_noise_vec(nx * ny, seed);
        Noise2D { nx, ny, data }
    }

    fn gen_white_noise_vec(n: usize, seed: u32) -> (r: Vec<u32>)
        ensures
            r@ == white_noise_seq(seed, n as nat),
    {
        let mut noise_vec: Vec<u32> = Vec::with_capacity(n);
        let mut prev_hash: u32 = seed;
        let mut k: usize = 0;
        while k < n
            invariant
                k <= n,
                prev_hash == hash_iter(seed, k as nat),
                noise_vec@ == white_noise_seq(seed, k as nat),
            decreases n - k,
        {
            let new_hash: u32 = hash(prev_hash);
            noise_vec.push(new_hash);
            prev_hash = new_hash;
            k = k + 1;
            assert(noise_vec@ =~= white_noise_seq(seed, k as nat));
        }
        noise_vec
    }
}

/// Writing `v` at a cell and reading the same cell gives `v` back, and every other
/// cell of the grid keeps what it held.
pub proof fn lemma_set_get_round_trip<T>(data: Seq<T>, nx: int, ny: int, i: int, j: int, v: T)
    requires
        data.len() == nx * ny,
        0 <= i < nx,
        0 <= j < ny,
    ensures
        data.update(cell_index(nx, i, j), v)[cell_index(nx, i, j)] == v,
        forall|a: int, b: int|
            0 <= a < nx && 0 <= b < ny && (a != i || b != j) ==> #[trigger] data.update(
                cell_index(nx, i, j),
                v,
            )[cell_index(nx, a, b)] == data[cell_index(nx, a, b)],
{
    lemma_cell_index_bounds(nx, ny, i, j);
    assert forall|a: int, b: int|
        0 <= a < nx && 0 <= b < ny && (a != i || b != j) implies #[trigger] data.update(
            cell_index(nx, i, j),
            v,
        )[cell_index(nx, a, b)] == data[cell_index(nx, a, b)] by {
        lemma_cell_index_bounds(nx, ny, a, b);
        if cell_index(nx, a, b) == cell_index(nx, i, j) {
            lemma_cell_index_injective(nx, a, b, i, j);
        }
    }
}

proof fn lemma_cell_index_injective(nx: int, a: int, b: int, i: int, j: int)
    requires
        0 <= a < nx,
        0 <= i < nx,
        0 <= b,
        0 <= j,
        cell_index(nx, a, b) == cell_index(nx, i, j),
    ensures
        a == i,
        b == j,
{
    assert(b == j) by (nonlinear_arith)
        requires
            0 <= a < nx,
            0 <= i < nx,
            0 <= b,
            0 <= j,
            a + b * nx == i + j * nx,
    {
        if b < j {
            assert(b * nx + nx <= j * nx);
        } else if b > j {
            assert(j * nx + nx <= b * nx);
        }
    }
}

/// Side length of octave `k`: `2^k` cells plus one fence post.
pub open spec fn octave_side(k: nat) -> nat {
    pow2(k) + 1
}

/// Seed of octave `k`: the hashed collection seed plus the octave index, modulo 2^32.
pub open spec fn octave_seed(seed: u32, k: nat) -> u32 {
    vstd::wrapping::u32_specs::wrapping_add(hash_spec(seed), k as u32)
}

/// Whether a grid with `n` octaves fits in memory: the finest one has
/// `(2^(n-1) + 1)^2` cells.
pub open spec fn octaves_fit(n: nat) -> bool {
    n == 0 || octave_side((n - 1) as nat) * octave_side((n - 1) as nat) <= usize::MAX
}

/// The four grid corners around one sampling point of an octave, with the point's
/// offset inside its cell as the fractions `ri / size` and `rj / size`.
pub struct OctaveSample {
    pub lox_loy: u32,
    pub lox_hiy: u32,
    pub hix_loy: u32,
    pub hix_hiy: u32,
    pub ri: usize,
    pub rj: usize,
    pub size: usize,
}

/// The neighbouring index `n + 1`, held at the grid's last index `last`.
pub open spec fn next_clamped(n: int, last: int) -> int {
    if n + 1 <= last {
        n + 1
    } else {
        last
    }
}

/// `s` is the bilinear stencil of grid `g` at point `(i, j)` of the domain `[0, max_dim]`:
/// the grid's `nx - 1` cells each span `max_dim / (nx - 1)` points.
pub open spec fn is_octave_sample(
    s: OctaveSample,
    g: Noise2D<u32>,
    max_dim: int,
    i: int,
    j: int,
) -> bool {
    let n_side = g.nx - 1;
    let sz = max_dim / n_side;
    let ni = i / sz;
    let nj = j / sz;
    let hi = next_clamped(ni, n_side);
    let hj = next_clamped(nj, n_side);
    &&& s.size == sz
    &&& s.ri == i % sz
    &&& s.rj == j % sz
    &&& s.lox_loy == g.at(ni, nj)
    &&& s.hix_loy == g.at(hi, nj)
    &&& s.lox_hiy == g.at(ni, hj)
    &&& s.hix_hiy == g.at(hi, hj)
}

/// Bilinear blend of four corner values at the fractional offset `(ri / den, rj / den)`,
/// scaled by `den^2` so that it stays exact in integers.
pub open spec fn interp_scaled(
    ri: int,
    rj: int,
    den: int,
    lox_loy: int,
    lox_hiy: int,
    hix_loy: int,
    hix_hiy: int,
) -> int {
    (den - ri) * (den - rj) * lox_loy + (den - ri) * rj * lox_hiy + ri * (den - rj) * hix_loy
        + ri * rj * hix_hiy
}

/// At the four corners of a cell the blend is the corner value itself, and at the
/// cell's centre it is the mean of the four corners.
pub proof fn lemma_interp_corners(den: int, a: int, b: int, c: int, d: int)
    ensures
        interp_scaled(0, 0, den, a, b, c, d) == den * den * a,
        interp_scaled(0, den, den, a, b, c, d) == den * den * b,
        interp_scaled(den, 0, den, a, b, c, d) == den * den * c,
        interp_scaled(den, den, den, a, b, c, d) == den * den * d,
        interp_scaled(den, den, 2 * den, a, b, c, d) == den * den * (a + b + c + d),
{
    assert(interp_scaled(0, 0, den, a, b, c, d) == den * den * a) by (nonlinear_arith);
    assert(interp_scaled(0, den, den, a, b, c, d) == den * den * b) by (nonlinear_arith);
    assert(interp_scaled(den, 0, den, a, b, c, d) == den * den * c) by (nonlinear_arith);
    assert(interp_scaled(den, den, den, a, b, c, d) == den * den * d) by (nonlinear_arith);
    assert(interp_scaled(den, den, 2 * den, a, b, c, d) == den * den * (a + b + c + d))
        by (nonlinear_arith);
}

proof fn lemma_weight_bound(a: u64, b: u64)
    requires
        a <= u32::MAX,
        b <= u32::MAX,
    ensures
        a * b <= u64::MAX,
        forall|v: u32| #![trigger (a * b) * v] (a * b) * v <= 0x1_0000_0000_0000_0000_0000_0000,
{
    assert(a * b <= 0xffff_ffff * 0xffff_ffff) by (nonlinear_arith)
        requires
            a <= 0xffff_ffffu64,
            b <= 0xffff_ffffu64,
    ;
    assert forall|v: u32| #![trigger (a * b) * v] (a * b) * v <= 0x1_0000_0000_0000_0000_0000_0000 by {
        let w = a * b;
        assert(w * v <= 0x1_0000_0000_0000_0000 * 0x1_0000_0000) by (nonlinear_arith)
            requires
                0 <= w <= 0xffff_ffff * 0xffff_ffff,
                0 <= v <= 0xffff_ffff,
        ;
    }
}

impl OctaveSample {
    /// The stencil's exact bilinear value, in units of `1 / size^2`.
    pub fn blend(&self) -> (r: u128)
        requires
            0 < self.size <= u32::MAX,
            self.ri <= self.size,
            self.rj <= self.size,
        ensures
            r == interp_scaled(
                self.ri as int,
                self.rj as int,
                self.size as int,
                self.lox_loy as int,
                self.lox_hiy as int,
                self.hix_loy as int,
                self.hix_hiy as int,
            ),
    {
        NoiseOctaveCollection::interpolate(
            self.ri as u32,
            self.rj as u32,
            self.size as u32,
            self.lox_loy,
            self.lox_hiy,
            self.hix_loy,
            self.hix_hiy,
        )
    }
}

/// A stack of square white-noise grids, coarsest first.
pub struct NoiseOctaveCollection {
    pub noises: Vec<Noise2D<u32>>,
}

impl NoiseOctaveCollection {
    pub open spec fn len(&self) -> nat {
        self.noises@.len()
    }

    /// Octave `k` is a well-formed square grid of side `2^k + 1` whose cell count
    /// fits in a `usize`.
    pub open spec fn wf(&self) -> bool {
        forall|k: int|
            0 <= k < self.noises@.len() ==> {
                let g = #[trigger] self.noises@[k];
                &&& g.wf()
                &&& g.nx == octave_side(k as nat)
                &&& g.ny == octave_side(k as nat)
                &&& g.nx * g.ny <= usize::MAX
            }
    }

    /// The sampling domain `[0, 2^(n-1)]` on both axes.
    pub open spec fn max_dim(&self) -> nat {
        pow2((self.len() - 1) as nat)
    }

    /// Builds `n_octaves` white-noise octaves; octave `i` is `(2^i + 1)` square and
    /// seeded with `hash(seed) + i`.
    pub fn fractal_noise(n_octaves: u32, seed: u32) -> (r: Self)
        requires
            octaves_fit(n_octaves as nat),
        ensures
            r.wf(),
            r.len() == n_octaves,
            forall|k: int|
                0 <= k < n_octaves ==> (#[trigger] r.noises@[k]).data@ == white_noise_seq(
                    octave_seed(seed, k as nat),
                    (octave_side(k as nat) * octave_side(k as nat)) as nat,
                ),
    {
        let mut noise_coll: Vec<Noise2D<u32>> = Vec::new();
        proof {
            vstd::arithmetic::power2::lemma2_to64();
        }
        let base: u32 = hash(seed);
        let mut cells: usize = 1;
        let mut i: u32 = 0;
        while i < n_octaves
            invariant
                i <= n_octaves,
                octaves_fit(n_octaves as nat),
                base == hash_spec(seed),
                noise_coll@.len() == i,
                i < n_octaves ==> cells == pow2(i as nat),
                forall|k: int|
                    0 <= k < i ==> {
                        let g = #[trigger] noise_coll@[k];
                        &&& g.wf()
                        &&& g.nx * g.ny <= usize::MAX
                        &&& g.nx == octave_side(k as nat)
                        &&& g.ny == octave_side(k as nat)
                        &&& g.data@ == white_noise_seq(
                            octave_seed(seed, k as nat),
                            (octave_side(k as nat) * octave_side(k as nat)) as nat,
                        )
                    },
            decreases n_octaves - i,
        {
            proof {
                lemma_pow2_pos(i as nat);
                if i + 1 < n_octaves {
                    lemma_pow2_strictly_increases(i as nat, (n_octaves - 1) as nat);
                }
                let s = pow2(i as nat) + 1;
                let t = pow2((n_octaves - 1) as nat) + 1;
                assert(s <= s * s <= t * t) by (nonlinear_arith)
                    requires
                        0 < s <= t,
                ;
            }
            let oct_dim: usize = cells + 1;
            noise_coll.push(Noise2D::white_noise(oct_dim, oct_dim, base.wrapping_add(i)));
            if i + 1 < n_octaves {
                proof {
                    lemma_pow2_unfold((i + 1) as nat);
                    if i + 2 < n_octaves {
                        lemma_pow2_strictly_increases((i + 1) as nat, (n_octaves - 1) as nat);
                    }
                    let t = pow2((n_octaves - 1) as nat) + 1;
                    assert(t <= t * t) by (nonlinear_arith)
                        requires
                            0 < t,
                    ;
                }
                cells = cells * 2;
            }
            i = i + 1;
        }
        NoiseOctaveCollection { noises: noise_coll }
    }

    /// Side of the composited map: one point per position of the domain `[0, 2^(n-1)]`.
    pub fn fractal_map_side(&self) -> (r: usize)
        requires
            self.wf(),
            self.len() >= 1,
        ensures
            r == self.max_dim() + 1,
            r == self.noises@[self.len() - 1].nx,
    {
        let n: usize = self.noises.len();
        proof {
            assert(self.noises@[n - 1].nx == octave_side((n - 1) as nat));
        }
        self.noises[n - 1].nx
    }

    /// Exact bilinear interpolation at offset `(ri / den, rj / den)` inside a cell, in
    /// units of `1 / den^2`: offset `(0, 0)` gives `den^2 * lox_loy`.
    pub fn interpolate(
        ri: u32,
        rj: u32,
        den: u32,
        lox_loy: u32,
        lox_hiy: u32,
        hix_loy: u32,
        hix_hiy: u32,
    ) -> (r: u128)
        requires
            0 < den,
            ri <= den,
            rj <= den,
        ensures
            r == interp_scaled(
                ri as int,
                rj as int,
                den as int,
                lox_loy as int,
                lox_hiy as int,
                hix_loy as int,
                hix_hiy as int,
            ),
    {
        let li: u64 = (den - ri) as u64;
        let lj: u64 = (den - rj) as u64;
        let hi: u64 = ri as u64;
        let hj: u64 = rj as u64;
        proof {
            lemma_weight_bound(li, lj);
            lemma_weight_bound(li, hj);
            lemma_weight_bound(hi, lj);
            lemma_weight_bound(hi, hj);
        }
        let t00: u128 = ((li * lj) as u128) * (lox_loy as u128);
        let t01: u128 = ((li * hj) as u128) * (lox_hiy as u128);
        let t10: u128 = ((hi * lj) as u128) * (hix_loy as u128);
        let t11: u128 = ((hi * hj) as u128) * (hix_hiy as u128);
        proof {
            assert(li * lj * lox_loy == (den - ri) * (den - rj) * lox_loy);
            assert(t00 + t01 + t10 + t11 == interp_scaled(
                ri as int,
                rj as int,
                den as int,
                lox_loy as int,
                lox_hiy as int,
                hix_loy as int,
                hix_hiy as int,
            ));
        }
        t00 + t01 + t10 + t11
    }

    /// The stencil of every octave at point `(i, j)`, coarsest first.
    pub fn sample(&self, i: usize, j: usize) -> (r: Vec<OctaveSample>)
        requires
            self.wf(),
            self.len() >= 1,
            i <= self.max_dim(),
            j <= self.max_dim(),
        ensures
            r@.len() == self.len(),
            forall|k: int|
                0 <= k < self.len() ==> is_octave_sample(
                    #[trigger] r@[k],
                    self.noises@[k],
                    self.max_dim() as int,
                    i as int,
                    j as int,
                ),
            forall|k: int|
                0 <= k < self.len() ==> {
                    &&& 0 < (#[trigger] r@[k]).size <= u32::MAX
                    &&& r@[k].ri < r@[k].size
                    &&& r@[k].rj < r@[k].size
                },
    {
        let mut components: Vec<OctaveSample> = Vec::new();
        let n: usize = self.noises.len();
        let max_dim: usize = self.noises[n - 1].nx - 1;
        proof {
            let last = self.noises@[n - 1];
            assert(last.nx == octave_side((n - 1) as nat));
            let t = last.nx as int;
            assert(t < 0x1_0000_0000) by (nonlinear_arith)
                requires
                    0 < t,
                    t * t <= 0xffff_ffff_ffff_ffff,
            {
                if t >= 0x1_0000_0000 {
                    assert(t * t >= 0x1_0000_0000 * t);
                }
            }
        }
        let mut k: usize = 0;
        while k < n
            invariant
                self.wf(),
                n == self.len(),
                n >= 1,
                max_dim == self.max_dim(),
                max_dim < u32::MAX,
                i <= max_dim,
                j <= max_dim,
                k <= n,
                components@.len() == k,
                forall|m: int|
                    0 <= m < k ==> is_octave_sample(
                        #[trigger] components@[m],
                        self.noises@[m],
                        max_dim as int,
                        i as int,
                        j as int,
                    ),
                forall|m: int|
                    0 <= m < k ==> {
                        &&& 0 < (#[trigger] components@[m]).size <= u32::MAX
                        &&& components@[m].ri < components@[m].size
                        &&& components@[m].rj < components@[m].size
                    },
            decreases n - k,
        {
            let octave = &self.noises[k];
            proof {
                assert(octave.nx == octave_side(k as nat));
            }
            let n_side: usize = octave.nx - 1;
            let ghost e: nat = (n - 1 - k) as nat;
            proof {
                lemma_pow2_pos(k as nat);
                lemma_pow2_pos(e);
                lemma_pow2_adds(k as nat, e);
                assert(k as nat + e == (n - 1) as nat);
                lemma_div_multiples_vanish(pow2(e) as int, n_side as int);
                assert(max_dim == n_side * pow2(e));
                vstd::arithmetic::mul::lemma_mul_is_commutative(n_side as int, pow2(e) as int);
                lemma_div_multiples_vanish(n_side as int, pow2(e) as int);
            }
            let sz: usize = max_dim / n_side;
            proof {
                assert(sz == pow2(e));
                assert(max_dim / sz == n_side);
                lemma_div_is_ordered(i as int, max_dim as int, sz as int);
                lemma_div_is_ordered(j as int, max_dim as int, sz as int);
                lemma_mod_bound(i as int, sz as int);
                lemma_mod_bound(j as int, sz as int);
                assert(sz <= max_dim) by (nonlinear_arith)
                    requires
                        max_dim == n_side * sz,
                        n_side >= 1,
                        sz > 0,
                ;
            }
            let ni: usize = i / sz;
            let nj: usize = j / sz;
            let hi: usize = if ni + 1 <= n_side { ni + 1 } else { n_side };
            let hj: usize = if nj + 1 <= n_side { nj + 1 } else { n_side };
            let sample = OctaveSample {
                lox_loy: octave.get(ni, nj),
                lox_hiy: octave.get(ni, hj),
                hix_loy: octave.get(hi, nj),
                hix_hiy: octave.get(hi, hj),
                ri: i % sz,
                rj: j % sz,
                size: sz,
            };
            components.push(sample);
            k = k + 1;
        }
        components
    }
}

/// Octave `k` has side `2^k + 1`, so its cells are `2^(n-1-k)` points of the domain
/// wide, and the finest octave spans the domain `[0, 2^(n-1)]` one point per cell.
pub proof fn lemma_octave_dimensions(c: NoiseOctaveCollection, k: int)
    requires
        c.wf(),
        0 <= k < c.len(),
    ensures
        c.noises@[k].nx == pow2(k as nat) + 1,
        c.noises@[k].ny == pow2(k as nat) + 1,
        c.max_dim() as int / (c.noises@[k].nx - 1) == pow2((c.len() - 1 - k) as nat),
        c.max_dim() as int / (c.noises@[k].nx - 1) > 0,
        c.max_dim() == c.noises@[c.len() - 1].nx - 1,
{
    assert(c.noises@[k].nx == octave_side(k as nat));
    assert(c.noises@[c.len() - 1].nx == octave_side((c.len() - 1) as nat));
    lemma_pow2_subtracts(k as nat, (c.len() - 1) as nat);
}

/// Sampling the domain's origin blends nothing: every octave's offset is zero and its
/// value is that octave's own cell `(0, 0)`.
pub proof fn lemma_origin_sample(c: NoiseOctaveCollection, r: Seq<OctaveSample>)
    requires
        c.wf(),
        c.len() >= 1,
        r.len() == c.len(),
        forall|k: int|
            0 <= k < c.len() ==> is_octave_sample(
                #[trigger] r[k],
                c.noises@[k],
                c.max_dim() as int,
                0,
                0,
            ),
    ensures
        forall|k: int|
            0 <= k < c.len() ==> {
                &&& (#[trigger] r[k]).ri == 0
                &&& r[k].rj == 0
                &&& r[k].lox_loy == c.noises@[k].at(0, 0)
                &&& interp_scaled(
                    r[k].ri as int,
                    r[k].rj as int,
                    r[k].size as int,
                    r[k].lox_loy as int,
                    r[k].lox_hiy as int,
                    r[k].hix_loy as int,
                    r[k].hix_hiy as int,
                ) == r[k].size * r[k].size * c.noises@[k].at(0, 0)
            },
{
    assert forall|k: int| 0 <= k < c.len() implies {
        &&& (#[trigger] r[k]).ri == 0
        &&& r[k].rj == 0
        &&& r[k].lox_loy == c.noises@[k].at(0, 0)
        &&& interp_scaled(
            r[k].ri as int,
            r[k].rj as int,
            r[k].size as int,
            r[k].lox_loy as int,
            r[k].lox_hiy as int,
            r[k].hix_loy as int,
            r[k].hix_hiy as int,
        ) == r[k].size * r[k].size * c.noises@[k].at(0, 0)
    } by {
        lemma_octave_dimensions(c, k);
        let sz = r[k].size as int;
        assert(0int / sz == 0 && 0int % sz == 0) by (nonlinear_arith)
            requires
                sz > 0,
        ;
        lemma_interp_corners(
            sz,
            r[k].lox_loy as int,
            r[k].lox_hiy as int,
            r[k].hix_loy as int,
            r[k].hix_hiy as int,
        );
    }
}

} // verus!
