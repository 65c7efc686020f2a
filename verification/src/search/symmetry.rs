//! D4 symmetry group for the Morpion Solitaire board.
//!
//! The initial cross is fixed by all 8 transforms of the dihedral group D4
//! about its centre `(k/2, k/2)`, `k = 2·n − 1` (9 for 5T/5D, 7 for 4T/4D).
use crate::game::board::{Board, Pos};
use crate::game::line::{dir_delta, dir_index, Dir, Line};
use crate::game::moves::Move;
use crate::search::neural::features::{compose_t, inv_t, lemma_compose_table, lemma_lin_compose};
use vstd::prelude::*;

verus! {

/// The image of `(x, y)` under transform `t` with centre parameter `k`.
pub open spec fn transform_spec(t: int, x: int, y: int, k: int) -> (int, int) {
    if t == 0 {
        (x, y)
    } else if t == 1 {
        (k - y, x)
    } else if t == 2 {
        (k - x, k - y)
    } else if t == 3 {
        (y, k - x)
    } else if t == 4 {
        (x, k - y)
    } else if t == 5 {
        (k - x, y)
    } else if t == 6 {
        (y, x)
    } else {
        (k - y, k - x)
    }
}

/// Coordinates small enough that every transform stays in `i16`.
pub open spec fn sym_small(p: Pos) -> bool {
    -16000 <= p.0 <= 16000 && -16000 <= p.1 <= 16000
}

/// A small centre parameter.
pub open spec fn k_small(k: i16) -> bool {
    -16 <= k <= 16
}

/// Whether the image of `p` under transform `t` is representable.
pub open spec fn transform_fits(t: int, p: Pos, k: int) -> bool {
    let q = transform_spec(t, p.0 as int, p.1 as int, k);
    -32768 <= q.0 <= 32767 && -32768 <= q.1 <= 32767
}

/// Apply one of the 8 D4 symmetry transforms (`k = 2·line_len − 1`).
pub fn apply_transform(t: usize, p: Pos, k: i16) -> (r: Pos)
    requires
        t < 8,
        transform_fits(t as int, p, k as int),
    ensures
        (r.0 as int, r.1 as int) == transform_spec(t as int, p.0 as int, p.1 as int, k as int),
{
    let (x, y) = p;
    match t {
        0 => (x, y),
        1 => (k - y, x),
        2 => (k - x, k - y),
        3 => (y, k - x),
        4 => (x, k - y),
        5 => (k - x, y),
        6 => (y, x),
        _ => (k - y, k - x),
    }
}

/// The linear part of [`apply_transform`] (translation dropped): the D4
/// action on a displacement.
pub fn lin_transform(t: usize, p: Pos) -> (r: Pos)
    requires
        t < 8,
        transform_fits(t as int, p, 0),
    ensures
        (r.0 as int, r.1 as int) == transform_spec(t as int, p.0 as int, p.1 as int, 0),
{
    apply_transform(t, p, 0)
}

/// The Zobrist value of a point: a splitmix64 finaliser on packed coordinates.
pub open spec fn zobrist_spec(x: i16, y: i16) -> u64 {
    let h0 = ((x as i64) as u64).wrapping_mul(0x9e3779b97f4a7c15u64) ^ ((y as i64) as u64).wrapping_mul(
        0x6c62272e07bb0142u64,
    );
    let h1 = h0 ^ (h0 >> 30u64);
    let h2 = h1.wrapping_mul(0xbf58476d1ce4e5b9u64);
    let h3 = h2 ^ (h2 >> 27u64);
    let h4 = h3.wrapping_mul(0x94d049bb133111ebu64);
    h4 ^ (h4 >> 31u64)
}

/// Deterministic per-position Zobrist value.
pub fn zobrist_value(p: Pos) -> (r: u64)
    ensures
        r == zobrist_spec(p.0, p.1),
{
    let (x, y) = p;
    let mut h = (x as i64 as u64).wrapping_mul(0x9e3779b97f4a7c15) ^ (y as i64 as u64).wrapping_mul(
        0x6c62272e07bb0142,
    );
    h = h ^ (h >> 30);
    h = h.wrapping_mul(0xbf58476d1ce4e5b9);
    h = h ^ (h >> 27);
    h = h.wrapping_mul(0x94d049bb133111eb);
    h = h ^ (h >> 31);
    h
}

/// How transform `t` maps a line direction.
pub open spec fn transform_dir_spec(t: int, d: Dir) -> Dir {
    if t == 0 || t == 2 {
        d
    } else if t == 1 || t == 3 {
        match d {
            Dir::H => Dir::V,
            Dir::V => Dir::H,
            Dir::DP => Dir::DN,
            Dir::DN => Dir::DP,
        }
    } else if t == 4 || t == 5 {
        match d {
            Dir::H => Dir::H,
            Dir::V => Dir::V,
            Dir::DP => Dir::DN,
            Dir::DN => Dir::DP,
        }
    } else {
        match d {
            Dir::H => Dir::V,
            Dir::V => Dir::H,
            Dir::DP => Dir::DP,
            Dir::DN => Dir::DN,
        }
    }
}

/// How each D4 transform maps a line direction: 90°/270° rotations and the
/// (anti)transposes swap H↔V; rotations and axis reflections swap DP↔DN.
pub fn transform_dir(t: usize, dir: Dir) -> (r: Dir)
    requires
        t < 8,
    ensures
        r == transform_dir_spec(t as int, dir),
{
    if t == 0 || t == 2 {
        dir
    } else if t == 1 || t == 3 {
        match dir {
            Dir::H => Dir::V,
            Dir::V => Dir::H,
            Dir::DP => Dir::DN,
            Dir::DN => Dir::DP,
        }
    } else if t == 4 || t == 5 {
        match dir {
            Dir::H => Dir::H,
            Dir::V => Dir::V,
            Dir::DP => Dir::DN,
            Dir::DN => Dir::DP,
        }
    } else {
        match dir {
            Dir::H => Dir::V,
            Dir::V => Dir::H,
            Dir::DP => Dir::DP,
            Dir::DN => Dir::DN,
        }
    }
}

/// Lexicographic order on points.
pub open spec fn pos_le(a: (int, int), b: (int, int)) -> bool {
    a.0 < b.0 || (a.0 == b.0 && a.1 <= b.1)
}

/// The lexicographically smaller of two points.
pub open spec fn pos_min_spec(a: (int, int), b: (int, int)) -> (int, int) {
    if pos_le(a, b) {
        a
    } else {
        b
    }
}

/// The lexicographically smaller of two points.
pub fn pos_min(a: Pos, b: Pos) -> (r: Pos)
    ensures
        (r.0 as int, r.1 as int) == pos_min_spec((a.0 as int, a.1 as int), (b.0 as int, b.1 as int)),
{
    if a.0 < b.0 || (a.0 == b.0 && a.1 <= b.1) {
        a
    } else {
        b
    }
}

/// The far end of a line of length `n`.
pub open spec fn line_end(l: Line, n: int) -> (int, int) {
    (l.origin.0 + (n - 1) * dir_delta(l.dir).0, l.origin.1 + (n - 1) * dir_delta(l.dir).1)
}

/// The canonical endpoint of the image of a line under transform `t`.
pub open spec fn transformed_end_spec(t: int, l: Line, k: int, n: int) -> (int, int) {
    let e0 = (l.origin.0 as int, l.origin.1 as int);
    let e1 = line_end(l, n);
    pos_min_spec(transform_spec(t, e0.0, e0.1, k), transform_spec(t, e1.0, e1.1, k))
}

/// Lines small enough to transform.
pub open spec fn line_small(l: Line) -> bool {
    -15000 <= l.origin.0 <= 15000 && -15000 <= l.origin.1 <= 15000
}

/// Small line lengths.
pub open spec fn n_small(n: i16) -> bool {
    1 <= n <= 8
}

/// Far end of a line.
fn far_end(line: &Line, n: i16) -> (r: Pos)
    requires
        line_small(*line),
        n_small(n),
    ensures
        (r.0 as int, r.1 as int) == line_end(*line, n as int),
        sym_small(r),
{
    let (dx, dy) = line.dir.delta();
    proof {
        crate::game::line::lemma_step_bound((n - 1) as int, dx as int);
        crate::game::line::lemma_step_bound((n - 1) as int, dy as int);
    }
    (line.origin.0 + (n - 1) * dx, line.origin.1 + (n - 1) * dy)
}

/// The line obtained by applying transform `t` to `line`, in canonical form
/// (origin = smaller endpoint, transformed direction). `k = 2·n − 1`.
pub fn transform_line(t: usize, line: &Line, k: i16, n: i16) -> (r: Line)
    requires
        t < 8,
        line_small(*line),
        k_small(k),
        n_small(n),
    ensures
        (r.origin.0 as int, r.origin.1 as int) == transformed_end_spec(t as int, *line, k as int, n as int),
        r.dir == transform_dir_spec(t as int, line.dir),
{
    let e0 = line.origin;
    let e1 = far_end(line, n);
    let te0 = apply_transform(t, e0, k);
    let te1 = apply_transform(t, e1, k);
    Line::new(pos_min(te0, te1), transform_dir(t, line.dir))
}

/// A move key: transformed point, canonical line endpoint, direction index.
pub type MoveKey = (Pos, Pos, u8);

/// Moves small enough to transform.
pub open spec fn move_small(m: Move) -> bool {
    line_small(m.line) && -15000 <= m.pos.0 <= 15000 && -15000 <= m.pos.1 <= 15000
}

/// The key of move `m` under transform `t`, in integers.
pub open spec fn move_key_spec(t: int, m: Move, k: int, n: int) -> ((int, int), (int, int), int) {
    (
        transform_spec(t, m.pos.0 as int, m.pos.1 as int, k),
        transformed_end_spec(t, m.line, k, n),
        dir_index(transform_dir_spec(t, m.line.dir)) as int,
    )
}

/// The integer form of a move key.
pub open spec fn key_int(key: MoveKey) -> ((int, int), (int, int), int) {
    ((key.0.0 as int, key.0.1 as int), (key.1.0 as int, key.1.1 as int), key.2 as int)
}

/// A move's symmetry identity under transform `t`: the transformed point, the
/// transformed line's canonical endpoint, and the transformed direction.
pub fn transformed_move_key(t: usize, m: &Move, k: i16, n: i16) -> (r: MoveKey)
    requires
        t < 8,
        move_small(*m),
        k_small(k),
        n_small(n),
    ensures
        key_int(r) == move_key_spec(t as int, *m, k as int, n as int),
{
    let e0 = m.line.origin;
    let e1 = far_end(&m.line, n);
    let tp = apply_transform(t, m.pos, k);
    let te0 = apply_transform(t, e0, k);
    let te1 = apply_transform(t, e1, k);
    (tp, pos_min(te0, te1), transform_dir(t, m.line.dir).index())
}

/// Strict lexicographic order on move keys.
pub open spec fn key_lt(a: ((int, int), (int, int), int), b: ((int, int), (int, int), int)) -> bool {
    ||| a.0.0 < b.0.0
    ||| a.0.0 == b.0.0 && a.0.1 < b.0.1
    ||| a.0 == b.0 && a.1.0 < b.1.0
    ||| a.0 == b.0 && a.1.0 == b.1.0 && a.1.1 < b.1.1
    ||| a.0 == b.0 && a.1 == b.1 && a.2 < b.2
}

/// Strict lexicographic comparison of move keys.
fn key_less(a: &MoveKey, b: &MoveKey) -> (r: bool)
    ensures
        r == key_lt(key_int(*a), key_int(*b)),
{
    if a.0.0 != b.0.0 {
        return a.0.0 < b.0.0;
    }
    if a.0.1 != b.0.1 {
        return a.0.1 < b.0.1;
    }
    if a.1.0 != b.1.0 {
        return a.1.0 < b.1.0;
    }
    if a.1.1 != b.1.1 {
        return a.1.1 < b.1.1;
    }
    a.2 < b.2
}

/// Equality of move keys.
fn key_eq(a: &MoveKey, b: &MoveKey) -> (r: bool)
    ensures
        r == (key_int(*a) == key_int(*b)),
{
    a.0.0 == b.0.0 && a.0.1 == b.0.1 && a.1.0 == b.1.0 && a.1.1 == b.1.1 && a.2 == b.2
}

/// Whether transform `t` belongs to the stabiliser bitmask `stab`.
pub open spec fn stab_has(stab: u8, t: int) -> bool {
    (stab >> (t as u8)) & 1u8 == 1u8
}

/// Testing a stabiliser bit.
pub(crate) proof fn lemma_stab_test(stab: u8, t: u8)
    requires
        t < 8,
    ensures
        (stab & (1u8 << t) != 0) == stab_has(stab, t as int),
{
    assert((stab & (1u8 << t) != 0u8) == ((stab >> t) & 1u8 == 1u8)) by (bit_vector)
        requires
            t < 8,
    ;
}

/// Setting a stabiliser bit.
pub(crate) proof fn lemma_stab_set(stab: u8, t: u8, u: u8)
    requires
        t < 8,
        u < 8,
    ensures
        stab_has(stab | (1u8 << t), u as int) == (u == t || stab_has(stab, u as int)),
{
    assert((((stab | (1u8 << t)) >> u) & 1u8 == 1u8) == (u == t || (stab >> u) & 1u8 == 1u8))
        by (bit_vector)
        requires
            t < 8,
            u < 8,
    ;
}

/// `m` is the representative of its orbit under `stab`: no transform in
/// `stab` maps it to a lexicographically smaller key.
pub open spec fn orbit_min_spec(m: Move, stab: u8, k: int, n: int) -> bool {
    forall|t: int|
        1 <= t < 8 && #[trigger] stab_has(stab, t) ==> !key_lt(move_key_spec(t, m, k, n), move_key_spec(0, m, k, n))
}

/// Keep `m` iff it is the orbit representative under `stab`: no transform in
/// `stab` maps it to a lexicographically smaller key.
pub fn is_orbit_min(m: &Move, stab: u8, k: i16, n: i16) -> (r: bool)
    requires
        move_small(*m),
        k_small(k),
        n_small(n),
    ensures
        r == orbit_min_spec(*m, stab, k as int, n as int),
{
    let key0 = transformed_move_key(0, m, k, n);
    let mut t: usize = 1;
    while t < 8
        invariant
            1 <= t <= 8,
            move_small(*m),
            k_small(k),
            n_small(n),
            key_int(key0) == move_key_spec(0, *m, k as int, n as int),
            forall|u: int|
                1 <= u < t && stab_has(stab, u) ==> !key_lt(
                    move_key_spec(u, *m, k as int, n as int),
                    move_key_spec(0, *m, k as int, n as int),
                ),
        decreases 8 - t,
    {
        proof {
            lemma_stab_test(stab, t as u8);
        }
        if stab & (1u8 << (t as u8)) != 0 {
            let kt = transformed_move_key(t, m, k, n);
            if key_less(&kt, &key0) {
                return false;
            }
        }
        t = t + 1;
    }
    true
}

/// The stabiliser of the position after playing `m`: the transforms of
/// `stab` that also fix `m` (same point and same line).
pub fn stab_after(stab: u8, m: &Move, k: i16, n: i16) -> (r: u8)
    requires
        move_small(*m),
        k_small(k),
        n_small(n),
    ensures
        forall|t: int|
            0 <= t < 8 ==> #[trigger] stab_has(r, t) == (stab_has(stab, t) && move_key_spec(
                t,
                *m,
                k as int,
                n as int,
            ) == move_key_spec(0, *m, k as int, n as int)),
        r < 256,
{
    if stab == 1 {
        proof {
            assert forall|t: int| 0 <= t < 8 implies #[trigger] stab_has(1u8, t) == (t == 0) by {
                let tt = t as u8;
                assert(((1u8 >> tt) & 1u8 == 1u8) == (tt == 0)) by (bit_vector)
                    requires
                        tt < 8,
                ;
            }
        }
        return 1;
    }
    let key0 = transformed_move_key(0, m, k, n);
    let mut out: u8 = 0;
    let mut t: usize = 0;
    proof {
        assert forall|u: int| 0 <= u < 8 implies !#[trigger] stab_has(0u8, u) by {
            let uu = u as u8;
            assert((0u8 >> uu) & 1u8 != 1u8) by (bit_vector);
        }
    }
    while t < 8
        invariant
            t <= 8,
            move_small(*m),
            k_small(k),
            n_small(n),
            key_int(key0) == move_key_spec(0, *m, k as int, n as int),
            forall|u: int|
                0 <= u < 8 ==> #[trigger] stab_has(out, u) == (u < t && stab_has(stab, u)
                    && move_key_spec(u, *m, k as int, n as int) == move_key_spec(
                    0,
                    *m,
                    k as int,
                    n as int,
                )),
        decreases 8 - t,
    {
        proof {
            lemma_stab_test(stab, t as u8);
        }
        if stab & (1u8 << (t as u8)) != 0 {
            let kt = transformed_move_key(t, m, k, n);
            if key_eq(&kt, &key0) {
                let ghost o = out;
                out = out | (1u8 << (t as u8));
                proof {
                    assert forall|u: int| 0 <= u < 8 implies #[trigger] stab_has(out, u) == (u < t + 1
                        && stab_has(stab, u) && move_key_spec(u, *m, k as int, n as int)
                        == move_key_spec(0, *m, k as int, n as int)) by {
                        lemma_stab_set(o, t as u8, u as u8);
                    }
                }
            }
        }
        t = t + 1;
    }
    out
}

/// Eight parallel Zobrist hashes (one per D4 transform); `canonical()` is the
/// minimum — a board fingerprint invariant under the 8 symmetries.
#[derive(Debug, Clone)]
pub struct SymmetryHashes {
    pub hashes: [u64; 8],
    pub k: i16,
}

/// The minimum of the first `i` values of `s`.
pub open spec fn seq_min(s: Seq<u64>, i: int) -> u64
    decreases i,
{
    if i <= 1 {
        s[0]
    } else {
        let m = seq_min(s, i - 1);
        if s[i - 1] < m {
            s[i - 1]
        } else {
            m
        }
    }
}

/// The Zobrist value of the image of `pos` under transform `t`.
pub open spec fn image_zobrist(t: int, pos: Pos, k: i16) -> u64 {
    let q = transform_spec(t, pos.0 as int, pos.1 as int, k as int);
    zobrist_spec(q.0 as i16, q.1 as i16)
}

/// The 8 hashes after toggling `pos`: each XORed with the Zobrist value of
/// the point's image under its transform.
pub open spec fn toggled(h: Seq<u64>, pos: Pos, k: i16) -> Seq<u64> {
    Seq::new(8, |t: int| h[t] ^ image_zobrist(t, pos, k))
}

/// Toggling a point twice restores every hash.
pub proof fn lemma_toggle_twice(h: Seq<u64>, pos: Pos, k: i16)
    requires
        h.len() == 8,
    ensures
        toggled(toggled(h, pos, k), pos, k) == h,
{
    assert forall|t: int| 0 <= t < 8 implies #[trigger] toggled(toggled(h, pos, k), pos, k)[t] == h[t] by {
        let a = h[t];
        let z = image_zobrist(t, pos, k);
        assert((a ^ z) ^ z == a) by (bit_vector);
    }
    assert(toggled(toggled(h, pos, k), pos, k) =~= h);
}

impl SymmetryHashes {
    /// `k` = 2·line_len − 1 (9 for 5T/5D, 7 for 4T/4D).
    pub fn new(k: i16) -> (r: Self)
        ensures
            r.k == k,
            forall|t: int| 0 <= t < 8 ==> r.hashes@[t] == 0,
    {
        Self { hashes: [0u64; 8], k }
    }

    /// Toggle a cell into/out of all 8 hashes (XOR is its own inverse).
    pub fn toggle(&mut self, pos: Pos)
        requires
            forall|t: int| 0 <= t < 8 ==> #[trigger] transform_fits(t, pos, old(self).k as int),
        ensures
            final(self).k == old(self).k,
            final(self).hashes@ == toggled(old(self).hashes@, pos, old(self).k),
    {
        let ghost h0 = self.hashes@;
        let mut t: usize = 0;
        while t < 8
            invariant
                t <= 8,
                forall|u: int| 0 <= u < 8 ==> #[trigger] transform_fits(u, pos, self.k as int),
                self.k == old(self).k,
                h0 == old(self).hashes@,
                self.hashes@.len() == 8,
                forall|u: int|
                    0 <= u < 8 ==> #[trigger] self.hashes@[u] == if u < t {
                        h0[u] ^ {
                            let q = transform_spec(u, pos.0 as int, pos.1 as int, self.k as int);
                            zobrist_spec(q.0 as i16, q.1 as i16)
                        }
                    } else {
                        h0[u]
                    },
            decreases 8 - t,
        {
            let q = apply_transform(t, pos, self.k);
            let z = zobrist_value(q);
            let cur = self.hashes[t];
            self.hashes[t] = cur ^ z;
            t = t + 1;
        }
        proof {
            assert(self.hashes@ =~= toggled(h0, pos, self.k));
        }
    }

    /// Toggle only the identity hash (`hashes[0]`), for the path that codes in
    /// the identity frame.
    pub fn toggle_identity(&mut self, pos: Pos)
        ensures
            final(self).k == old(self).k,
            final(self).hashes@[0] == old(self).hashes@[0] ^ zobrist_spec(pos.0, pos.1),
            forall|t: int| 1 <= t < 8 ==> #[trigger] final(self).hashes@[t] == old(self).hashes@[t],
    {
        let z = zobrist_value(pos);
        let cur = self.hashes[0];
        self.hashes[0] = cur ^ z;
    }

    /// The canonical hash: minimum of all 8 transform hashes.
    pub fn canonical(&self) -> (r: u64)
        ensures
            r == seq_min(self.hashes@, 8),
            forall|t: int| 0 <= t < 8 ==> r <= #[trigger] self.hashes@[t],
            exists|t: int| 0 <= t < 8 && r == self.hashes@[t],
    {
        let mut m = self.hashes[0];
        let mut i: usize = 1;
        while i < 8
            invariant
                1 <= i <= 8,
                self.hashes@.len() == 8,
                m == seq_min(self.hashes@, i as int),
                forall|t: int| 0 <= t < i ==> m <= #[trigger] self.hashes@[t],
                exists|t: int| 0 <= t < i && m == self.hashes@[t],
            decreases 8 - i,
        {
            if self.hashes[i] < m {
                m = self.hashes[i];
            }
            i = i + 1;
        }
        m
    }

    /// Build a [`MoveCoder`] for the current position, capturing the canonical
    /// state hash and the transforms that achieve it. `pos_in_code` selects
    /// whether the position hash is mixed into each move code.
    pub fn move_coder(&self, pos_in_code: bool) -> (r: MoveCoder)
        requires
            k_small(self.k),
            self.k >= 1,
        ensures
            r.wf(),
            r.cmin == seq_min(self.hashes@, 8),
            r.k == self.k,
            r.n == (self.k + 1) / 2,
            r.pos_in_code == pos_in_code,
            forall|i: int| 0 <= i < r.len ==> self.hashes@[r.active@[i] as int] == r.cmin,
            forall|t: int|
                0 <= t < 8 && self.hashes@[t] == r.cmin ==> exists|i: int|
                    0 <= i < r.len && r.active@[i] == t,
            forall|i: int, j: int| 0 <= i < j < r.len ==> r.active@[i] < r.active@[j],
    {
        let cmin = self.canonical();
        let mut active = [0u8; 8];
        let mut len: usize = 0;
        let mut t: usize = 0;
        while t < 8
            invariant
                t <= 8,
                len <= t,
                self.hashes@.len() == 8,
                active@.len() == 8,
                forall|i: int| 0 <= i < len ==> active@[i] < t,
                forall|i: int| 0 <= i < len ==> self.hashes@[active@[i] as int] == cmin,
                forall|u: int|
                    0 <= u < t && self.hashes@[u] == cmin ==> exists|i: int| 0 <= i < len && active@[i] == u,
                forall|i: int, j: int| 0 <= i < j < len ==> active@[i] < active@[j],
            decreases 8 - t,
        {
            if self.hashes[t] == cmin {
                let ghost a0 = active@;
                active[len] = t as u8;
                proof {
                    assert forall|u: int|
                        0 <= u < t + 1 && self.hashes@[u] == cmin implies exists|i: int|
                            0 <= i < len + 1 && active@[i] == u by {
                        if u < t {
                            let i = choose|i: int| 0 <= i < len && a0[i] == u;
                            assert(active@[i] == u);
                        } else {
                            assert(active@[len as int] == u);
                        }
                    }
                }
                len = len + 1;
            }
            t = t + 1;
        }
        proof {
            assert(self.hashes@[0] >= cmin);
            let w = choose|u: int| 0 <= u < 8 && cmin == self.hashes@[u];
            assert(exists|i: int| 0 <= i < len && active@[i] == w);
        }
        let r = MoveCoder { cmin, k: self.k, n: (self.k + 1) / 2, active, len: len as u8, pos_in_code };
        assert(r.len as int == len as int);
        assert forall|u: int| 0 <= u < 8 && self.hashes@[u] == r.cmin implies exists|i: int|
            0 <= i < r.len && r.active@[i] == u by {
            let i = choose|i: int| 0 <= i < len && active@[i] == u;
            assert(0 <= i < r.len && r.active@[i] == u);
        }
        r
    }

    /// Build a [`MoveCoder`] for the identity frame only: it codes against
    /// `hashes[0]` with the identity transform, ignoring the other hashes.
    pub fn move_coder_id(&self, pos_in_code: bool) -> (r: MoveCoder)
        requires
            k_small(self.k),
            self.k >= 1,
        ensures
            r.wf(),
            r.cmin == self.hashes@[0],
            r.k == self.k,
            r.n == (self.k + 1) / 2,
            r.len == 1,
            r.active@[0] == 0,
            r.pos_in_code == pos_in_code,
    {
        MoveCoder { cmin: self.hashes[0], k: self.k, n: (self.k + 1) / 2, active: [0u8; 8], len: 1, pos_in_code }
    }
}

/// Symmetry-invariant move coder bound to one position (built by
/// [`SymmetryHashes::move_coder`]).
pub struct MoveCoder {
    pub cmin: u64,
    pub k: i16,
    pub n: i16,
    pub active: [u8; 8],
    pub len: u8,
    pub pos_in_code: bool,
}

/// The code of move `m` in the frame of transform `t`.
pub open spec fn frame_code_spec(t: int, m: Move, k: int, n: int) -> u64 {
    let key = move_key_spec(t, m, k, n);
    zobrist_spec(key.0.0 as i16, key.0.1 as i16) ^ zobrist_spec(key.1.0 as i16, key.1.1 as i16).wrapping_mul(
        0x517cc1b727220a95u64,
    ) ^ (key.2 as u64).wrapping_mul(0x6c62272e07bb0142u64)
}

impl MoveCoder {
    /// At least one active transform, all valid, with small parameters.
    pub open spec fn wf(&self) -> bool {
        &&& 1 <= self.len <= 8
        &&& forall|i: int| 0 <= i < self.len ==> #[trigger] self.active@[i] < 8
        &&& k_small(self.k)
        &&& n_small(self.n)
    }

    /// The code of `m`: its least frame code over the active transforms, mixed
    /// with the canonical position hash when `pos_in_code` is set.
    pub open spec fn code_of(&self, m: Move) -> u64 {
        if self.pos_in_code {
            self.cmin.wrapping_mul(0x9e3779b97f4a7c15u64) ^ self.min_code(m, self.len as int)
        } else {
            self.min_code(m, self.len as int)
        }
    }

    /// The least frame code over the first `i` active transforms.
    pub open spec fn min_code(&self, m: Move, i: int) -> u64
        decreases i,
    {
        if i <= 1 {
            frame_code_spec(self.active@[0] as int, m, self.k as int, self.n as int)
        } else {
            let a = self.min_code(m, i - 1);
            let b = frame_code_spec(self.active@[i - 1] as int, m, self.k as int, self.n as int);
            if b < a {
                b
            } else {
                a
            }
        }
    }

    /// The code of one transform's frame.
    fn frame_code(t: usize, mv: &Move, k: i16, n: i16) -> (r: u64)
        requires
            t < 8,
            move_small(*mv),
            k_small(k),
            n_small(n),
        ensures
            r == frame_code_spec(t as int, *mv, k as int, n as int),
    {
        let (p, e, d) = transformed_move_key(t, mv, k, n);
        zobrist_value(p) ^ zobrist_value(e).wrapping_mul(0x517cc1b727220a95) ^ (d as u64).wrapping_mul(
            0x6c62272e07bb0142,
        )
    }

    /// Code for `(this position, mv)`: the canonical state hash mixed with the
    /// move coded in the canonical frame — the minimum move code over the
    /// transforms that achieve the state's canonical hash.
    pub fn code(&self, mv: &Move) -> (r: u64)
        requires
            self.wf(),
            move_small(*mv),
        ensures
            r == self.code_of(*mv),
    {
        let mut best = Self::frame_code(self.active[0] as usize, mv, self.k, self.n);
        let mut i: usize = 1;
        while i < self.len as usize
            invariant
                self.wf(),
                move_small(*mv),
                1 <= i <= self.len,
                best == self.min_code(*mv, i as int),
            decreases self.len - i,
        {
            let c = Self::frame_code(self.active[i] as usize, mv, self.k, self.n);
            if c < best {
                best = c;
            }
            i = i + 1;
        }
        if self.pos_in_code {
            self.cmin.wrapping_mul(0x9e3779b97f4a7c15) ^ best
        } else {
            best
        }
    }
}


/// Ring of the 8 neighbours, clockwise from north.
pub open spec fn ring_off(j: int) -> (int, int) {
    if j == 0 {
        (0, -1)
    } else if j == 1 {
        (1, -1)
    } else if j == 2 {
        (1, 0)
    } else if j == 3 {
        (1, 1)
    } else if j == 4 {
        (0, 1)
    } else if j == 5 {
        (-1, 1)
    } else if j == 6 {
        (-1, 0)
    } else {
        (-1, -1)
    }
}

/// Position of a neighbour offset on the ring.
pub open spec fn ring_index(o: (int, int)) -> int {
    if o == (0int, -1int) {
        0
    } else if o == (1int, -1int) {
        1
    } else if o == (1int, 0int) {
        2
    } else if o == (1int, 1int) {
        3
    } else if o == (0int, 1int) {
        4
    } else if o == (-1int, 1int) {
        5
    } else if o == (-1int, 0int) {
        6
    } else {
        7
    }
}

/// Occupancy of the 8 neighbours of `pos`, in ring order.
pub open spec fn ring_occ(board: Board, pos: Pos) -> Seq<bool> {
    Seq::new(
        8,
        |j: int| board.occupied(((pos.0 + ring_off(j).0) as i16, (pos.1 + ring_off(j).1) as i16)),
    )
}

/// The image of a ring pattern under transform `t`: the neighbour at
/// `lin(t, o)` takes the value of the neighbour at `o`.
pub open spec fn ring_image(t: int, s: Seq<bool>) -> Seq<bool> {
    Seq::new(
        8,
        |i: int|
            s[ring_index(
                transform_spec(inv_t(t), ring_off(i).0, ring_off(i).1, 0),
            )],
    )
}

/// Bit weight of ring position `j`.
pub open spec fn ring_weight(j: int) -> int
    decreases j,
{
    if j <= 0 {
        1
    } else {
        2 * ring_weight(j - 1)
    }
}

/// The byte of the first `i` ring positions (bit `j` set when `s[j]`).
pub open spec fn ring_byte_prefix(s: Seq<bool>, i: int) -> int
    decreases i,
{
    if i <= 0 {
        0
    } else {
        ring_byte_prefix(s, i - 1) + if s[i - 1] {
            ring_weight(i - 1)
        } else {
            0
        }
    }
}

/// The byte of a ring pattern.
pub open spec fn ring_byte(s: Seq<bool>) -> int {
    ring_byte_prefix(s, 8)
}

/// Least byte over the images under transforms `0 .. n`.
pub open spec fn ring_canon_upto(s: Seq<bool>, n: int) -> int
    decreases n,
{
    if n <= 1 {
        ring_byte(ring_image(0, s))
    } else {
        let a = ring_canon_upto(s, n - 1);
        let b = ring_byte(ring_image(n - 1, s));
        if b < a {
            b
        } else {
            a
        }
    }
}

/// The canonical byte of a ring pattern: the least over its 8 images.
pub open spec fn ring_canon(s: Seq<bool>) -> int {
    ring_canon_upto(s, 8)
}

/// The mixing finaliser applied to the canonical byte.
pub open spec fn local_mix(c: u64) -> u64 {
    let h0 = c.wrapping_mul(0x9e37_79b9_7f4a_7c15u64) ^ 0xa5a5_a5a5_a5a5_a5a5u64;
    let h1 = h0 ^ (h0 >> 29u64);
    let h2 = h1.wrapping_mul(0xbf58_476d_1ce4_e5b9u64);
    h2 ^ (h2 >> 27u64)
}

/// Every transform maps the ring onto itself.
proof fn lemma_ring_closed(t: int, j: int)
    requires
        0 <= t < 8,
        0 <= j < 8,
    ensures
        0 <= ring_index(transform_spec(t, ring_off(j).0, ring_off(j).1, 0)) < 8,
        ring_off(ring_index(transform_spec(t, ring_off(j).0, ring_off(j).1, 0)))
            == transform_spec(t, ring_off(j).0, ring_off(j).1, 0),
{
}

/// Transforming a ring pattern twice is transforming it once by the
/// composition.
proof fn lemma_ring_compose(u: int, t: int, s: Seq<bool>)
    requires
        0 <= u < 8,
        0 <= t < 8,
        s.len() == 8,
    ensures
        ring_image(u, ring_image(t, s)) == ring_image(compose_t(u, t), s),
{
    let a = ring_image(u, ring_image(t, s));
    let b = ring_image(compose_t(u, t), s);
    assert forall|i: int| 0 <= i < 8 implies a[i] == b[i] by {
        lemma_compose_table(u, t);
        let o = ring_off(i);
        let q = transform_spec(inv_t(u), o.0, o.1, 0);
        lemma_ring_closed(inv_t(u), i);
        lemma_lin_compose(inv_t(t), inv_t(u), o.0, o.1);
    }
    assert(a =~= b);
}

/// The least image byte bounds every image byte and is one of them.
proof fn lemma_canon_upto(s: Seq<bool>, n: int)
    requires
        1 <= n <= 8,
    ensures
        forall|u: int| 0 <= u < n ==> ring_canon_upto(s, n) <= #[trigger] ring_byte(ring_image(u, s)),
        exists|u: int| 0 <= u < n && ring_canon_upto(s, n) == #[trigger] ring_byte(ring_image(u, s)),
    decreases n,
{
    if n > 1 {
        lemma_canon_upto(s, n - 1);
        let b = ring_byte(ring_image(n - 1, s));
        if b >= ring_canon_upto(s, n - 1) {
            let u = choose|u: int| 0 <= u < n - 1 && ring_canon_upto(s, n - 1) == #[trigger] ring_byte(
                ring_image(u, s),
            );
            assert(ring_canon_upto(s, n) == ring_byte(ring_image(u, s)));
        }
    } else {
        assert(ring_canon_upto(s, n) == ring_byte(ring_image(0, s)));
    }
}

/// The canonical byte is invariant under D4: a neighbourhood pattern and each
/// of its eight images fold to the same value.
pub proof fn lemma_ring_canon_invariant(s: Seq<bool>, t: int)
    requires
        s.len() == 8,
        0 <= t < 8,
    ensures
        ring_canon(ring_image(t, s)) == ring_canon(s),
{
    let st = ring_image(t, s);
    lemma_canon_upto(s, 8);
    lemma_canon_upto(st, 8);
    let v = choose|v: int| 0 <= v < 8 && ring_canon(s) == #[trigger] ring_byte(ring_image(v, s));
    let w = compose_t(v, inv_t(t));
    lemma_compose_table(v, t);
    lemma_lin_compose(v, inv_t(t), 0, 0);
    lemma_ring_compose(w, t, s);
    assert(ring_byte(ring_image(w, st)) == ring_canon(s));
    let u = choose|u: int| 0 <= u < 8 && ring_canon(st) == #[trigger] ring_byte(ring_image(u, st));
    lemma_ring_compose(u, t, s);
    lemma_lin_compose(u, t, 0, 0);
    assert(ring_byte(ring_image(compose_t(u, t), s)) == ring_canon(st));
}

/// The ring position of a neighbour offset.
fn ring_index_of(o: (i16, i16)) -> (r: usize)
    requires
        -1 <= o.0 <= 1,
        -1 <= o.1 <= 1,
        o != (0i16, 0i16),
    ensures
        r == ring_index((o.0 as int, o.1 as int)),
        r < 8,
{
    let (x, y) = o;
    if x == 0 && y == -1 {
        0
    } else if x == 1 && y == -1 {
        1
    } else if x == 1 && y == 0 {
        2
    } else if x == 1 && y == 1 {
        3
    } else if x == 0 && y == 1 {
        4
    } else if x == -1 && y == 1 {
        5
    } else if x == -1 && y == 0 {
        6
    } else {
        7
    }
}

/// The neighbour offset at ring position `j`.
fn ring_at(j: usize) -> (r: (i16, i16))
    requires
        j < 8,
    ensures
        (r.0 as int, r.1 as int) == ring_off(j as int),
{
    match j {
        0 => (0, -1),
        1 => (1, -1),
        2 => (1, 0),
        3 => (1, 1),
        4 => (0, 1),
        5 => (-1, 1),
        6 => (-1, 0),
        _ => (-1, -1),
    }
}

/// Ring weights double from 1 up to 256.
proof fn lemma_ring_weight_bound(i: int)
    requires
        0 <= i <= 8,
    ensures
        1 <= ring_weight(i) <= 256,
        ring_weight(i) <= 128 || i == 8,
    decreases 8 - i,
{
    reveal_with_fuel(ring_weight, 9);
}

/// The byte of the image of `occ` under transform `t`.
fn image_byte(occ: &[bool; 8], t: usize) -> (r: u8)
    requires
        t < 8,
    ensures
        r as int == ring_byte(ring_image(t as int, occ@)),
{
    let ghost img = ring_image(t as int, occ@);
    let ti: usize = if t == 1 {
        3
    } else if t == 3 {
        1
    } else {
        t
    };
    let mut b: u16 = 0;
    let mut w: u16 = 1;
    let mut i: usize = 0;
    proof {
        lemma_ring_weight_bound(0);
    }
    while i < 8
        invariant
            i <= 8,
            ti as int == inv_t(t as int),
            t < 8,
            img == ring_image(t as int, occ@),
            w as int == ring_weight(i as int),
            b as int == ring_byte_prefix(img, i as int),
            b < w <= 256,
        decreases 8 - i,
    {
        let o = ring_at(i);
        let q = lin_transform(ti, o);
        proof {
            lemma_ring_closed(ti as int, i as int);
            lemma_ring_weight_bound(i as int + 1);
        }
        let j = ring_index_of(q);
        assert(img[i as int] == occ@[j as int]);
        if occ[j] {
            b = b + w;
        }
        w = w * 2;
        i = i + 1;
    }
    b as u8
}

/// Symmetry-invariant hash of the 8-neighbour occupancy around `pos`: the
/// ring's occupancy as a byte, folded to the least of its 8 D4 images, then
/// mixed.
pub fn local_code(board: &Board, pos: Pos) -> (r: u64)
    requires
        board.wf(),
        i16::MIN < pos.0 < i16::MAX,
        i16::MIN < pos.1 < i16::MAX,
    ensures
        r == local_mix(ring_canon(ring_occ(*board, pos)) as u64),
{
    let mut occ = [false; 8];
    let mut j: usize = 0;
    while j < 8
        invariant
            j <= 8,
            board.wf(),
            i16::MIN < pos.0 < i16::MAX,
            i16::MIN < pos.1 < i16::MAX,
            forall|i: int| 0 <= i < j ==> occ@[i] == #[trigger] ring_occ(*board, pos)[i],
        decreases 8 - j,
    {
        let (dx, dy) = ring_at(j);
        let c = board.contains((pos.0 + dx, pos.1 + dy));
        occ[j] = c;
        j = j + 1;
    }
    let ghost s = ring_occ(*board, pos);
    assert(occ@ =~= s);
    let mut canon: u8 = image_byte(&occ, 0);
    let mut t: usize = 1;
    while t < 8
        invariant
            1 <= t <= 8,
            occ@ == s,
            canon as int == ring_canon_upto(s, t as int),
        decreases 8 - t,
    {
        let b = image_byte(&occ, t);
        if b < canon {
            canon = b;
        }
        t = t + 1;
    }
    let mut h = (canon as u64).wrapping_mul(0x9e37_79b9_7f4a_7c15) ^ 0xa5a5_a5a5_a5a5_a5a5;
    h = h ^ (h >> 29);
    h = h.wrapping_mul(0xbf58_476d_1ce4_e5b9);
    h = h ^ (h >> 27);
    h
}

} // verus!
