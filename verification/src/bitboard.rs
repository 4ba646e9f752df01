use vstd::prelude::*;
use crate::game::Square;
use crate::text::push_char;
use crate::moves::{sign, signum, in_board};

verus! {

/// Whether bit `i` of the board mask `x` is set; bit `i` stands for square `i`.
pub open spec fn bit(x: u64, i: int) -> bool {
    (x >> (i as u64)) & 1 == 1
}

/// The positions of the set bits of `x` below `n`, in increasing order.
pub open spec fn ones_below(x: u64, n: nat) -> Seq<u32>
    decreases n,
{
    if n == 0 {
        Seq::empty()
    } else {
        ones_below(x, (n - 1) as nat) + if bit(x, n - 1) {
            seq![(n - 1) as u32]
        } else {
            Seq::empty()
        }
    }
}

/// The positions of all set bits of `x`, in increasing order.
pub open spec fn ones(x: u64) -> Seq<u32> {
    ones_below(x, 64)
}

/// Facts of single bits of 64-bit masks, as the bit-vector prover shows them.
pub proof fn lemma_bits64(a: u64, b: u64, p: u64, q: u64)
    by (bit_vector)
    requires
        p < 64,
        q < 64,
    ensures
        (((a | (1u64 << p)) >> q) & 1 == 1) == (((a >> q) & 1 == 1) || p == q),
        (0u64 >> q) & 1 == 0,
        (a >> q) & 1 == 0 || (a >> q) & 1 == 1,
        (((a | b) >> q) & 1 == 1) == (((a >> q) & 1 == 1) || ((b >> q) & 1 == 1)),
        (((a & b) >> q) & 1 == 1) == (((a >> q) & 1 == 1) && ((b >> q) & 1 == 1)),
        (((a ^ (1u64 << p)) >> q) & 1 == 1) == (((a >> q) & 1 == 1) != (p == q)),
        (((a & !b) >> q) & 1 == 1) == (((a >> q) & 1 == 1) && !((b >> q) & 1 == 1)),
        a & 63 < 64,
        (a >> 6) & 63 < 64,
        (a & (1u64 << q) != 0) == ((a >> q) & 1 == 1),
        a ^ 0u64 == a,
        0u64 | a == a,
        a & b == 0 ==> !(((a >> q) & 1 == 1) && ((b >> q) & 1 == 1)),
{
}

/// Bit `q` of `x` with bit `p` set is bit `q` of `x`, or `q` is `p`.
pub proof fn lemma_bit_set(x: u64, p: u64, q: u64)
    requires
        p < 64,
        q < 64,
    ensures
        (((x | (1u64 << p)) >> q) & 1 == 1) == (((x >> q) & 1 == 1) || p == q),
{
    lemma_bits64(x, 0, p, q);
}

/// No bit of zero is set.
pub proof fn lemma_bit_zero(q: u64)
    requires
        q < 64,
    ensures
        (0u64 >> q) & 1 == 0,
{
    lemma_bits64(0, 0, 0, q);
}

/// A bit of a mask is either set or clear.
pub proof fn lemma_bit_values(x: u64, q: u64)
    requires
        q < 64,
    ensures
        (x >> q) & 1 == 0 || (x >> q) & 1 == 1,
{
    lemma_bits64(x, 0, 0, q);
}

/// The positions listed by `ones_below(x, n)` are exactly the set bits
/// below `n`, each below 64 and in increasing order.
pub proof fn lemma_ones_below(x: u64, n: nat)
    requires
        n <= 64,
    ensures
        forall|i: u32| #[trigger] ones_below(x, n).contains(i) <==> (i < n && bit(x, i as int)),
        forall|k: int| 0 <= k < ones_below(x, n).len() ==> #[trigger] ones_below(x, n)[k] < n,
        forall|k1: int, k2: int|
            0 <= k1 < k2 < ones_below(x, n).len() ==> #[trigger] ones_below(x, n)[k1] < #[trigger] ones_below(x, n)[k2],
    decreases n,
{
    if n > 0 {
        lemma_ones_below(x, (n - 1) as nat);
        let prev = ones_below(x, (n - 1) as nat);
        let cur = ones_below(x, n);
        let tail = if bit(x, n - 1) {
            seq![(n - 1) as u32]
        } else {
            Seq::<u32>::empty()
        };
        assert(cur == prev + tail);
        assert forall|i: u32| #[trigger] cur.contains(i) <==> (i < n && bit(x, i as int)) by {
            if cur.contains(i) {
                let k = choose|k: int| 0 <= k < cur.len() && cur[k] == i;
                if k < prev.len() {
                    assert(prev[k] == i);
                    assert(prev.contains(i));
                } else {
                    assert(tail[k - prev.len()] == i);
                    assert(i as int == n - 1);
                }
            }
            if i < n && bit(x, i as int) {
                if i < n - 1 {
                    assert(prev.contains(i));
                    let k = choose|k: int| 0 <= k < prev.len() && prev[k] == i;
                    assert(cur[k] == i);
                } else {
                    assert(cur[cur.len() - 1] == i);
                }
            }
        }
    }
}

/// The positions of the set bits of `x`, lowest first.
pub fn iter_one_positions(x: u64) -> (r: Vec<u32>)
    ensures
        r@ == ones(x),
{
    let mut r: Vec<u32> = Vec::new();
    let mut i: u32 = 0;
    while i < 64
        invariant
            i <= 64,
            r@ == ones_below(x, i as nat),
        decreases 64 - i,
    {
        if (x >> (i as u64)) & 1 == 1 {
            r.push(i);
        }
        assert(r@ =~= ones_below(x, (i + 1) as nat));
        i = i + 1;
    }
    r
}

/// The squares of the set bits of `x`, lowest first.
pub fn iter_one_squares(x: u64) -> (r: Vec<Square>)
    ensures
        r.len() == ones(x).len(),
        forall|k: int| 0 <= k < r.len() ==> #[trigger] r[k] == Square(ones(x)[k] as i8),
{
    let positions = iter_one_positions(x);
    proof {
        lemma_ones_below(x, 64);
    }
    let mut r: Vec<Square> = Vec::new();
    let mut k: usize = 0;
    while k < positions.len()
        invariant
            k <= positions.len(),
            positions@ == ones(x),
            forall|j: int| 0 <= j < positions.len() ==> #[trigger] positions[j] < 64,
            r.len() == k,
            forall|j: int| 0 <= j < k ==> #[trigger] r[j] == Square(ones(x)[j] as i8),
        decreases positions.len() - k,
    {
        let pos = positions[k];
        r.push(Square(pos as i8));
        k = k + 1;
    }
    r
}

/// The line of rank `rank` of a mask: each square after a space, `1` if
/// its bit is set, `.` if not, and a space at the end.
pub open spec fn bb_line(x: u64, rank: int) -> Seq<char> {
    Seq::new(
        17,
        |j: int|
            if j % 2 == 0 {
                ' '
            } else if bit(x, rank * 8 + j / 2) {
                '1'
            } else {
                '.'
            },
    )
}

/// The mask as eight lines of text, the eighth rank first.
pub fn render_bb(x: u64) -> (r: Vec<String>)
    ensures
        r.len() == 8,
        forall|k: int| 0 <= k < 8 ==> #[trigger] r[k]@ == bb_line(x, 7 - k),
{
    let mut result: Vec<String> = Vec::new();
    let mut rank: u64 = 8;
    while rank > 0
        invariant
            rank <= 8,
            result.len() == 8 - rank,
            forall|k: int| 0 <= k < 8 - rank ==> #[trigger] result[k]@ == bb_line(x, 7 - k),
        decreases rank,
    {
        rank = rank - 1;
        let mut s = String::new();
        let mut file: u64 = 0;
        while file < 8
            invariant
                file <= 8,
                rank < 8,
                s@ == bb_line(x, rank as int).subrange(0, 2 * file),
            decreases 8 - file,
        {
            let pos = rank * 8 + file;
            push_char(&mut s, ' ');
            if (x >> pos) & 1 != 0 {
                push_char(&mut s, '1');
            } else {
                push_char(&mut s, '.');
            }
            proof {
                lemma_bit_values(x, pos);
            }
            assert(s@ =~= bb_line(x, rank as int).subrange(0, 2 * (file + 1)));
            file = file + 1;
        }
        push_char(&mut s, ' ');
        assert(s@ =~= bb_line(x, rank as int));
        result.push(s);
    }
    result
}

pub open spec fn abs(x: int) -> int {
    if x < 0 {
        -x
    } else {
        x
    }
}

/// `k` times a direction component of -1, 0 or 1.
pub open spec fn um(k: int, d: int) -> int {
    if d == 1 {
        k
    } else if d == -1 {
        -k
    } else {
        0
    }
}

/// The square `k` steps from square `from` in direction `(dr, df)`.
pub open spec fn step_sq(from: int, dr: int, df: int, k: int) -> int {
    (from / 8 + um(k, dr)) * 8 + from % 8 + um(k, df)
}

/// Whether `to` is another square on a rank, file or diagonal of `from`.
pub open spec fn aligned(from: int, to: int) -> bool {
    let dr = to / 8 - from / 8;
    let df = to % 8 - from % 8;
    &&& from != to
    &&& (dr == 0 || df == 0 || abs(dr) == abs(df))
}

/// The number of king steps from `from` to `to`.
pub open spec fn distance(from: int, to: int) -> int {
    let dr = abs(to / 8 - from / 8);
    let df = abs(to % 8 - from % 8);
    if dr < df {
        df
    } else {
        dr
    }
}

/// The direction from `from` towards `to`, one rank and file step at most.
pub open spec fn dir_r(from: int, to: int) -> int {
    sign(to / 8 - from / 8)
}

pub open spec fn dir_f(from: int, to: int) -> int {
    sign(to % 8 - from % 8)
}

/// Whether `p` is strictly between `from` and `to` on the line joining them.
pub open spec fn between(from: int, to: int, p: int) -> bool {
    exists|k: int| 1 <= k < distance(from, to) && #[trigger] step_sq(from, dir_r(from, to), dir_f(from, to), k) == p
}

/// Whether `p` lies beyond `to` on the line from `from` through `to`.
pub open spec fn beyond(from: int, to: int, p: int) -> bool {
    exists|k: int|
        1 <= k && in_board(to / 8 + um(k, dir_r(from, to)), to % 8 + um(k, dir_f(from, to))) && #[trigger] step_sq(
            to,
            dir_r(from, to),
            dir_f(from, to),
            k,
        ) == p
}

/// Walking from `to` away from `from`, once off the board the walk stays off.
proof fn lemma_leaves_board(sq: int, dr: int, df: int, k: int, j: int)
    requires
        0 <= sq < 64,
        -1 <= dr <= 1,
        -1 <= df <= 1,
        0 <= k <= j,
        !in_board(sq / 8 + um(k, dr), sq % 8 + um(k, df)),
    ensures
        !in_board(sq / 8 + um(j, dr), sq % 8 + um(j, df)),
{
}

/// The squares strictly between `from` and `to`, or `None` where they are
/// the same square or not on one line.
pub fn in_between(from: i8, to: i8) -> (r: Option<u64>)
    requires
        0 <= from < 64,
        0 <= to < 64,
    ensures
        r is None <==> !aligned(from as int, to as int),
        r is Some ==> forall|p: int| 0 <= p < 64 ==> (bit(r.unwrap(), p) <==> between(from as int, to as int, p)),
{
    if from == to {
        return None;
    }
    let mut rank = from / 8;
    let mut file = from % 8;
    let dr = to / 8 - rank;
    let df = to % 8 - file;
    if dr != 0 && df != 0 && dr != df && dr != -df {
        return None;
    }
    let ghost n = distance(from as int, to as int);
    let ghost sdr = dir_r(from as int, to as int);
    let ghost sdf = dir_f(from as int, to as int);
    let dr = signum(dr);
    let df = signum(df);
    assert(dr == sdr && df == sdf);
    assert(to as int == step_sq(from as int, sdr, sdf, n));
    let mut result: u64 = 0;
    rank = rank + dr;
    file = file + df;
    let mut pos = rank * 8 + file;
    let ghost mut k: int = 1;
    proof {
        assert forall|p: int| 0 <= p < 64 implies !bit(result, p) by {
            lemma_bit_zero(p as u64);
        }
    }
    while pos != to
        invariant
            0 <= from < 64,
            0 <= to < 64,
            aligned(from as int, to as int),
            n == distance(from as int, to as int),
            sdr == dir_r(from as int, to as int),
            sdf == dir_f(from as int, to as int),
            dr == sdr,
            df == sdf,
            to as int == step_sq(from as int, sdr, sdf, n),
            1 <= k <= n,
            rank == from / 8 + um(k, sdr),
            file == from % 8 + um(k, sdf),
            pos == rank * 8 + file,
            pos == step_sq(from as int, sdr, sdf, k),
            forall|p: int|
                0 <= p < 64 ==> (bit(result, p) <==> exists|j: int|
                    1 <= j < k && #[trigger] step_sq(from as int, sdr, sdf, j) == p),
        decreases n - k,
    {
        assert(k < n);
        assert(0 <= pos < 64);
        let ghost old_result = result;
        result = result | (1u64 << (pos as u64));
        proof {
            assert forall|p: int| 0 <= p < 64 implies (bit(result, p) <==> exists|j: int|
                1 <= j < k + 1 && #[trigger] step_sq(from as int, sdr, sdf, j) == p) by {
                lemma_bit_set(old_result, pos as u64, p as u64);
                assert(bit(result, p) == (bit(old_result, p) || p == pos));
                if p == pos {
                    assert(step_sq(from as int, sdr, sdf, k) == p);
                } else if bit(old_result, p) {
                    let j = choose|j: int| 1 <= j < k && #[trigger] step_sq(from as int, sdr, sdf, j) == p;
                    assert(1 <= j < k + 1 && step_sq(from as int, sdr, sdf, j) == p);
                }
                if exists|j: int| 1 <= j < k + 1 && #[trigger] step_sq(from as int, sdr, sdf, j) == p {
                    let j = choose|j: int| 1 <= j < k + 1 && #[trigger] step_sq(from as int, sdr, sdf, j) == p;
                    if j < k {
                        assert(bit(old_result, p));
                    }
                }
            }
        }
        rank = rank + dr;
        file = file + df;
        pos = rank * 8 + file;
        proof {
            k = k + 1;
        }
    }
    assert(k == n);
    Some(result)
}

/// The squares beyond `to` on the line from `from` through `to`, up to the
/// edge of the board, or `None` where the squares are the same or not on
/// one line.
pub fn behind(from: i8, to: i8) -> (r: Option<u64>)
    requires
        0 <= from < 64,
        0 <= to < 64,
    ensures
        r is None <==> !aligned(from as int, to as int),
        r is Some ==> forall|p: int| 0 <= p < 64 ==> (bit(r.unwrap(), p) <==> beyond(from as int, to as int, p)),
{
    if from == to {
        return None;
    }
    let dr = to / 8 - from / 8;
    let df = to % 8 - from % 8;
    if dr != 0 && df != 0 && dr != df && dr != -df {
        return None;
    }
    let ghost sdr = dir_r(from as int, to as int);
    let ghost sdf = dir_f(from as int, to as int);
    let dr = signum(dr);
    let df = signum(df);
    assert(dr == sdr && df == sdf);
    let mut result: u64 = 0;
    let mut r = to / 8 + dr;
    let mut f = to % 8 + df;
    let ghost mut k: int = 1;
    proof {
        assert forall|p: int| 0 <= p < 64 implies !bit(result, p) by {
            lemma_bit_zero(p as u64);
        }
    }
    while 0 <= r && r < 8 && 0 <= f && f < 8
        invariant
            0 <= from < 64,
            0 <= to < 64,
            aligned(from as int, to as int),
            sdr == dir_r(from as int, to as int),
            sdf == dir_f(from as int, to as int),
            dr == sdr,
            df == sdf,
            1 <= k <= 8,
            r == to / 8 + um(k, sdr),
            f == to % 8 + um(k, sdf),
            forall|j: int| 1 <= j < k ==> in_board(to / 8 + um(j, sdr), to % 8 + um(j, sdf)),
            forall|p: int|
                0 <= p < 64 ==> (bit(result, p) <==> exists|j: int|
                    1 <= j < k && #[trigger] step_sq(to as int, sdr, sdf, j) == p),
        decreases 8 - k,
    {
        let pos = r * 8 + f;
        assert(pos == step_sq(to as int, sdr, sdf, k));
        let ghost old_result = result;
        result = result | (1u64 << (pos as u64));
        proof {
            assert forall|p: int| 0 <= p < 64 implies (bit(result, p) <==> exists|j: int|
                1 <= j < k + 1 && #[trigger] step_sq(to as int, sdr, sdf, j) == p) by {
                lemma_bit_set(old_result, pos as u64, p as u64);
                assert(bit(result, p) == (bit(old_result, p) || p == pos));
                if p == pos {
                    assert(step_sq(to as int, sdr, sdf, k) == p);
                } else if bit(old_result, p) {
                    let j = choose|j: int| 1 <= j < k && #[trigger] step_sq(to as int, sdr, sdf, j) == p;
                    assert(1 <= j < k + 1 && step_sq(to as int, sdr, sdf, j) == p);
                }
                if exists|j: int| 1 <= j < k + 1 && #[trigger] step_sq(to as int, sdr, sdf, j) == p {
                    let j = choose|j: int| 1 <= j < k + 1 && #[trigger] step_sq(to as int, sdr, sdf, j) == p;
                    if j < k {
                        assert(bit(old_result, p));
                    }
                }
            }
        }
        r = r + dr;
        f = f + df;
        proof {
            k = k + 1;
        }
    }
    proof {
        assert forall|p: int| 0 <= p < 64 implies (bit(result, p) <==> beyond(from as int, to as int, p)) by {
            if beyond(from as int, to as int, p) {
                let j = choose|j: int|
                    1 <= j && in_board(to / 8 + um(j, sdr), to % 8 + um(j, sdf)) && #[trigger] step_sq(
                        to as int,
                        sdr,
                        sdf,
                        j,
                    ) == p;
                if j >= k {
                    lemma_leaves_board(to as int, sdr, sdf, k, j);
                }
            }
            if bit(result, p) {
                let j = choose|j: int| 1 <= j < k && #[trigger] step_sq(to as int, sdr, sdf, j) == p;
                assert(in_board(to / 8 + um(j, sdr), to % 8 + um(j, sdf)));
            }
        }
    }
    Some(result)
}

/// A bit of `a | b` is set where it is set in `a` or in `b`.
pub proof fn lemma_bit_or(a: u64, b: u64, q: u64)
    requires
        q < 64,
    ensures
        (((a | b) >> q) & 1 == 1) == (((a >> q) & 1 == 1) || ((b >> q) & 1 == 1)),
{
    lemma_bits64(a, b, 0, q);
}

/// The ways a piece attacks the squares around it.
#[derive(Clone, Copy, PartialEq, Eq, Structural, Debug)]
pub enum Pattern {
    Knight,
    Bishop,
    Rook,
    King,
}

/// Whether a piece attacking by `pat` attacks a square `dr` ranks and `df`
/// files away.
pub open spec fn attack_pred(pat: Pattern, dr: int, df: int) -> bool {
    match pat {
        Pattern::Knight => (abs(dr) == 1 && abs(df) == 2) || (abs(dr) == 2 && abs(df) == 1),
        Pattern::Bishop => abs(dr) == abs(df),
        Pattern::Rook => dr == 0 || df == 0,
        Pattern::King => abs(dr) <= 1 && abs(df) <= 1,
    }
}

/// Whether `to` is attacked from `from` by `pat`, on an empty board.
pub open spec fn attacks(pat: Pattern, from: int, to: int) -> bool {
    from != to && attack_pred(pat, from / 8 - to / 8, from % 8 - to % 8)
}

fn pattern_holds(pat: Pattern, dr: i8, df: i8) -> (b: bool)
    requires
        -8 < dr < 8,
        -8 < df < 8,
    ensures
        b == attack_pred(pat, dr as int, df as int),
{
    let a = if dr < 0 {
        -dr
    } else {
        dr
    };
    let c = if df < 0 {
        -df
    } else {
        df
    };
    match pat {
        Pattern::Knight => (a == 1 && c == 2) || (a == 2 && c == 1),
        Pattern::Bishop => a == c,
        Pattern::Rook => dr == 0 || df == 0,
        Pattern::King => a <= 1 && c <= 1,
    }
}

/// The squares that a piece on `from` attacks by `pat` on an empty board.
pub fn attack_mask(pat: Pattern, from: i8) -> (r: u64)
    requires
        0 <= from < 64,
    ensures
        forall|p: int| 0 <= p < 64 ==> (bit(r, p) <==> attacks(pat, from as int, p)),
{
    let mut res: u64 = 0;
    let mut to: i8 = 0;
    proof {
        assert forall|p: int| 0 <= p < 64 implies !bit(res, p) by {
            lemma_bit_zero(p as u64);
        }
    }
    while to < 64
        invariant
            0 <= from < 64,
            0 <= to <= 64,
            forall|p: int| 0 <= p < 64 ==> (bit(res, p) <==> (p < to && attacks(pat, from as int, p))),
        decreases 64 - to,
    {
        if from != to && pattern_holds(pat, from / 8 - to / 8, from % 8 - to % 8) {
            assert(attacks(pat, from as int, to as int));
            let ghost old_res = res;
            res = res | (1u64 << (to as u64));
            proof {
                assert forall|p: int| 0 <= p < 64 implies (bit(res, p) <==> (p < to + 1 && attacks(pat, from as int, p))) by {
                    lemma_bit_set(old_res, to as u64, p as u64);
                    assert(bit(res, p) == (bit(old_res, p) || p == to));
                }
            }
        }
        to = to + 1;
    }
    res
}

/// For each square, the squares that a piece there attacks by `pat` on an
/// empty board.
pub fn attacks_by_pred(pat: Pattern) -> (r: Vec<u64>)
    ensures
        r.len() == 64,
        forall|from: int, p: int|
            0 <= from < 64 && 0 <= p < 64 ==> (#[trigger] bit(r[from], p) <==> attacks(pat, from, p)),
{
    let mut r: Vec<u64> = Vec::new();
    let mut from: i8 = 0;
    while from < 64
        invariant
            0 <= from <= 64,
            r.len() == from,
            forall|f: int, p: int| 0 <= f < from && 0 <= p < 64 ==> (#[trigger] bit(r[f], p) <==> attacks(pat, f, p)),
        decreases 64 - from,
    {
        let m = attack_mask(pat, from);
        r.push(m);
        from = from + 1;
    }
    r
}

/// Whether `p` is a square of the ray from `from` in direction `(dr, df)`
/// that has another square of the board after it.
pub open spec fn ray_blocker(from: int, dr: int, df: int, p: int) -> bool {
    exists|k: int|
        1 <= k && in_board(from / 8 + um(k + 1, dr), from % 8 + um(k + 1, df)) && #[trigger] step_sq(from, dr, df, k)
            == p
}

/// Whether `p` is such a square for one of the directions `deltas`.
pub open spec fn blocker_sq(from: int, deltas: Seq<(i8, i8)>, p: int) -> bool {
    exists|d: int| 0 <= d < deltas.len() && #[trigger] ray_blocker(from, deltas[d].0 as int, deltas[d].1 as int, p)
}

/// Directions of one square at most, not standing still.
pub open spec fn unit_steps(deltas: Seq<(i8, i8)>) -> bool {
    forall|d: int|
        0 <= d < deltas.len() ==> -1 <= (#[trigger] deltas[d]).0 <= 1 && -1 <= deltas[d].1 <= 1 && (deltas[d].0 != 0
            || deltas[d].1 != 0)
}

fn ray_blockers(from: i8, dr: i8, df: i8) -> (r: u64)
    requires
        0 <= from < 64,
        -1 <= dr <= 1,
        -1 <= df <= 1,
        dr != 0 || df != 0,
    ensures
        forall|p: int| 0 <= p < 64 ==> (bit(r, p) <==> ray_blocker(from as int, dr as int, df as int, p)),
{
    let mut result: u64 = 0;
    let mut r = from / 8 + 2 * dr;
    let mut f = from % 8 + 2 * df;
    let ghost mut k: int = 1;
    proof {
        assert forall|p: int| 0 <= p < 64 implies !bit(result, p) by {
            lemma_bit_zero(p as u64);
        }
    }
    while 0 <= r && r < 8 && 0 <= f && f < 8
        invariant
            0 <= from < 64,
            -1 <= dr <= 1,
            -1 <= df <= 1,
            dr != 0 || df != 0,
            1 <= k <= 8,
            r == from / 8 + um(k + 1, dr as int),
            f == from % 8 + um(k + 1, df as int),
            forall|p: int|
                0 <= p < 64 ==> (bit(result, p) <==> exists|j: int|
                    1 <= j < k && in_board(from / 8 + um(j + 1, dr as int), from % 8 + um(j + 1, df as int)) && #[trigger] step_sq(from as int, dr as int, df as int, j) == p),
        decreases 8 - k,
    {
        let pos = (r - dr) * 8 + (f - df);
        assert(pos == step_sq(from as int, dr as int, df as int, k));
        let ghost old_result = result;
        result = result | (1u64 << (pos as u64));
        proof {
            assert forall|p: int| 0 <= p < 64 implies (bit(result, p) <==> exists|j: int|
                1 <= j < k + 1 && in_board(from / 8 + um(j + 1, dr as int), from % 8 + um(j + 1, df as int)) && #[trigger] step_sq(from as int, dr as int, df as int, j) == p) by {
                lemma_bit_set(old_result, pos as u64, p as u64);
                assert(bit(result, p) == (bit(old_result, p) || p == pos));
                if p == pos {
                    assert(step_sq(from as int, dr as int, df as int, k) == p);
                } else if bit(old_result, p) {
                    let j = choose|j: int| 1 <= j < k && in_board(from / 8 + um(j + 1, dr as int), from % 8 + um(j + 1, df as int)) && #[trigger] step_sq(from as int, dr as int, df as int, j) == p;
                    assert(1 <= j < k + 1 && in_board(from / 8 + um(j + 1, dr as int), from % 8 + um(j + 1, df as int)) && step_sq(from as int, dr as int, df as int, j) == p);
                }
                if exists|j: int| 1 <= j < k + 1 && in_board(from / 8 + um(j + 1, dr as int), from % 8 + um(j + 1, df as int)) && #[trigger] step_sq(from as int, dr as int, df as int, j) == p {
                    let j = choose|j: int| 1 <= j < k + 1 && in_board(from / 8 + um(j + 1, dr as int), from % 8 + um(j + 1, df as int)) && #[trigger] step_sq(from as int, dr as int, df as int, j) == p;
                    if j < k {
                        assert(bit(old_result, p));
                    }
                }
            }
        }
        r = r + dr;
        f = f + df;
        proof {
            k = k + 1;
        }
    }
    proof {
        assert forall|p: int| 0 <= p < 64 implies (bit(result, p) <==> ray_blocker(from as int, dr as int, df as int, p)) by {
            if ray_blocker(from as int, dr as int, df as int, p) {
                let j = choose|j: int|
                    1 <= j && in_board(from / 8 + um(j + 1, dr as int), from % 8 + um(j + 1, df as int))
                        && #[trigger] step_sq(from as int, dr as int, df as int, j) == p;
                if j >= k {
                    lemma_leaves_board(from as int, dr as int, df as int, k + 1, j + 1);
                }
            }
            if bit(result, p) {
                let j = choose|j: int| 1 <= j < k && in_board(from / 8 + um(j + 1, dr as int), from % 8 + um(j + 1, df as int)) && #[trigger] step_sq(from as int, dr as int, df as int, j) == p;
            }
        }
    }
    result
}

/// The squares on the rays from `from` in the directions `deltas` that have
/// another square of the board after them: the squares where a piece can
/// block a sliding piece on `from`.
pub fn blockers_and_beyond_from(from: i8, deltas: &[(i8, i8)]) -> (r: u64)
    requires
        0 <= from < 64,
        unit_steps(deltas@),
    ensures
        forall|p: int| 0 <= p < 64 ==> (bit(r, p) <==> blocker_sq(from as int, deltas@, p)),
{
    let mut result: u64 = 0;
    let mut i: usize = 0;
    proof {
        assert forall|p: int| 0 <= p < 64 implies !bit(result, p) by {
            lemma_bit_zero(p as u64);
        }
    }
    while i < deltas.len()
        invariant
            0 <= from < 64,
            unit_steps(deltas@),
            i <= deltas.len(),
            forall|p: int|
                0 <= p < 64 ==> (bit(result, p) <==> exists|d: int|
                    0 <= d < i && #[trigger] ray_blocker(from as int, deltas@[d].0 as int, deltas@[d].1 as int, p)),
        decreases deltas.len() - i,
    {
        let (dr, df) = deltas[i];
        assert(deltas@[i as int] == (dr, df));
        let m = ray_blockers(from, dr, df);
        let ghost old_result = result;
        result = result | m;
        proof {
            assert forall|p: int| 0 <= p < 64 implies (bit(result, p) <==> exists|d: int|
                0 <= d < i + 1 && #[trigger] ray_blocker(from as int, deltas@[d].0 as int, deltas@[d].1 as int, p)) by {
                lemma_bit_or(old_result, m, p as u64);
                if bit(m, p) {
                    assert(ray_blocker(from as int, deltas@[i as int].0 as int, deltas@[i as int].1 as int, p));
                } else if bit(old_result, p) {
                    let d = choose|d: int|
                        0 <= d < i && #[trigger] ray_blocker(from as int, deltas@[d].0 as int, deltas@[d].1 as int, p);
                    assert(0 <= d < i + 1);
                }
                if exists|d: int|
                    0 <= d < i + 1 && #[trigger] ray_blocker(from as int, deltas@[d].0 as int, deltas@[d].1 as int, p) {
                    let d = choose|d: int|
                        0 <= d < i + 1 && #[trigger] ray_blocker(from as int, deltas@[d].0 as int, deltas@[d].1 as int, p);
                    if d < i {
                        assert(bit(old_result, p));
                    }
                }
            }
        }
        i = i + 1;
    }
    result
}

/// For each square, the squares where a piece can block a sliding piece
/// there moving in the directions `deltas`.
pub fn blockers_and_beyond(deltas: &[(i8, i8)]) -> (r: Vec<u64>)
    requires
        unit_steps(deltas@),
    ensures
        r.len() == 64,
        forall|from: int, p: int|
            0 <= from < 64 && 0 <= p < 64 ==> (#[trigger] bit(r[from], p) <==> blocker_sq(from, deltas@, p)),
{
    let mut r: Vec<u64> = Vec::new();
    let mut from: i8 = 0;
    while from < 64
        invariant
            0 <= from <= 64,
            unit_steps(deltas@),
            r.len() == from,
            forall|f: int, p: int| 0 <= f < from && 0 <= p < 64 ==> (#[trigger] bit(r[f], p) <==> blocker_sq(f, deltas@, p)),
        decreases 64 - from,
    {
        let m = blockers_and_beyond_from(from, deltas);
        r.push(m);
        from = from + 1;
    }
    r
}

/// The number of set bits of `x`.
pub fn count_ones(x: u64) -> (r: u32)
    ensures
        r == ones(x).len(),
        r <= 64,
{
    let mut r: u32 = 0;
    let mut i: u64 = 0;
    while i < 64
        invariant
            i <= 64,
            r == ones_below(x, i as nat).len(),
            r <= i,
        decreases 64 - i,
    {
        if (x >> i) & 1 == 1 {
            r = r + 1;
        }
        i = i + 1;
    }
    r
}

} // verus!
