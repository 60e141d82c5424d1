//! Attack sets of knights, bishops, rooks and kings.
use vstd::prelude::*;

use crate::bits::{has_bit, lemma_bit_ops, lemma_single_and};
use crate::types::{file_of, lemma_square_coords, rank_of, Square};

verus! {

/// Rank and file of the square `from` moved by `k` steps of `(dr, df)`,
/// where each of `dr` and `df` is taken by its sign.
pub open spec fn ray_square(from: int, dr: int, df: int, k: int) -> (int, int) {
    (step(rank_of(from), dr, k), step(file_of(from), df, k))
}

/// `x` moved `k` times by the sign of `d`.
pub open spec fn step(x: int, d: int, k: int) -> int {
    if d > 0 {
        x + k
    } else if d < 0 {
        x - k
    } else {
        x
    }
}

/// A rank and file pair that lies on the board.
pub open spec fn on_board(rf: (int, int)) -> bool {
    0 <= rf.0 < 8 && 0 <= rf.1 < 8
}

/// The square index of a rank and file pair.
pub open spec fn index_of(rf: (int, int)) -> int {
    rf.0 * 8 + rf.1
}

/// `s` lies at offset `d` (ranks, files) from `from`, on the board.
pub open spec fn offset_hits(from: int, d: (i8, i8), s: int) -> bool {
    let rf = (rank_of(from) + d.0, file_of(from) + d.1);
    on_board(rf) && index_of(rf) == s
}

/// `s` lies at one of the offsets `ds` from `from`.
pub open spec fn hits_any(from: int, ds: Seq<(i8, i8)>, s: int) -> bool
    decreases ds.len(),
{
    if ds.len() == 0 {
        false
    } else {
        hits_any(from, ds.drop_last(), s) || offset_hits(from, ds.last(), s)
    }
}

/// A knight on `from` attacks square `s`: two ranks and one file away, or
/// one rank and two files away. (`from` may lie off the board: it is then
/// taken by its rank and file.)
pub open spec fn knight_step(from: int, s: int) -> bool {
    let dr = rank_of(s) - rank_of(from);
    let df = file_of(s) - file_of(from);
    ((dr == 2 || dr == -2) && (df == 1 || df == -1)) || ((dr == 1 || dr == -1) && (df == 2
        || df == -2))
}

/// A king on `from` attacks square `s`: at most one rank and one file away,
/// and not `from` itself.
pub open spec fn king_step(from: int, s: int) -> bool {
    let dr = rank_of(s) - rank_of(from);
    let df = file_of(s) - file_of(from);
    -1 <= dr <= 1 && -1 <= df <= 1 && !(dr == 0 && df == 0)
}

proof fn lemma_i8_as_u8(r: i8)
    by (bit_vector)
    ensures
        r >= 0 ==> r as u8 == r,
        r < 0 ==> r as u8 >= 128,
{
}

/// Ors into `result` the squares at the offsets `ds` from `from`.
fn offsets_attacks(from: u8, ds: &Vec<(i8, i8)>) -> (r: u64)
    requires
        forall|j: int| 0 <= j < ds.len() ==> -2 <= (#[trigger] ds[j]).0 <= 2 && -2 <= ds[j].1 <= 2,
    ensures
        forall|s: u64| s < 64 ==> (#[trigger] has_bit(r, s) <==> hits_any(from as int, ds@, s as int)),
{
    let sq = Square(from);
    let mut result: u64 = 0;
    let mut k: usize = 0;
    proof {
        assert forall|s: u64| s < 64 implies (#[trigger] has_bit(result, s) <==> hits_any(from as int, ds@.take(0), s as int)) by {
            lemma_bit_ops(0, 0, s);
        }
    }
    while k < ds.len()
        invariant
            k <= ds.len(),
            sq.0 == from,
            forall|j: int| 0 <= j < ds.len() ==> -2 <= (#[trigger] ds[j]).0 <= 2 && -2 <= ds[j].1 <= 2,
            forall|s: u64| s < 64 ==> (#[trigger] has_bit(result, s) <==> hits_any(from as int, ds@.take(k as int), s as int)),
        decreases ds.len() - k,
    {
        let (dr, df) = ds[k];
        let r = sq.rank() as i8 + dr;
        let f = sq.file() as i8 + df;
        let old_result = result;
        proof {
            lemma_i8_as_u8(r);
            lemma_i8_as_u8(f);
            assert(ds@.take(k + 1).drop_last() == ds@.take(k as int));
        }
        if Square::is_valid(r as u8, f as u8) {
            let bb = Square::from_rank_file(r as u8, f as u8).bitboard();
            result = result | bb;
            proof {
                assert forall|s: u64| s < 64 implies (#[trigger] has_bit(result, s) <==> hits_any(from as int, ds@.take(k + 1), s as int)) by {
                    lemma_bit_ops(old_result, bb, s);
                }
            }
        } else {
            proof {
                assert forall|s: u64| s < 64 implies (#[trigger] has_bit(result, s) <==> hits_any(from as int, ds@.take(k + 1), s as int)) by {
                }
            }
        }
        k = k + 1;
    }
    proof {
        assert(ds@.take(ds.len() as int) == ds@);
    }
    result
}

/// Squares attacked by a knight on `from`.
#[verifier::rlimit(40)]
pub fn knight_attacks(from: u8) -> (r: u64)
    ensures
        forall|s: u64| s < 64 ==> (#[trigger] has_bit(r, s) <==> knight_step(from as int, s as int)),
{
    let knights_offsets: Vec<(i8, i8)> = vec![(-2,-1), (-2,1), (2,-1), (2,1), (1,-2), (1,2), (-1,-2), (-1,2)];
    let r = offsets_attacks(from, &knights_offsets);
    proof {
        reveal_with_fuel(hits_any, 9);
    }
    r
}

/// Squares attacked by a king on `from`.
#[verifier::rlimit(40)]
pub fn king_attacks(from: u8) -> (r: u64)
    ensures
        forall|s: u64| s < 64 ==> (#[trigger] has_bit(r, s) <==> king_step(from as int, s as int)),
{
    let king_dir: Vec<(i8, i8)> = vec![(1,0), (-1,0), (0,1), (0,-1), (1,1), (-1,-1), (-1,1), (1,-1)];
    let r = offsets_attacks(from, &king_dir);
    proof {
        reveal_with_fuel(hits_any, 9);
    }
    r
}

/// The square index reached from `from` after `k` steps in direction `d`.
pub open spec fn ray_index(from: int, d: (i8, i8), k: int) -> int {
    index_of(ray_square(from, d.0 as int, d.1 as int, k))
}

/// Step `j` from `from` in direction `d` stays on the board and lands on a
/// square that `occ` leaves empty.
pub open spec fn ray_step_clear(from: int, d: (i8, i8), occ: u64, j: int) -> bool {
    on_board(ray_square(from, d.0 as int, d.1 as int, j)) && !has_bit(occ, ray_index(from, d, j) as u64)
}

/// The first `k - 1` steps from `from` in direction `d` stay on the board
/// and cross only squares that `occ` leaves empty.
pub open spec fn ray_open(from: int, d: (i8, i8), occ: u64, k: int) -> bool {
    forall|j: int| 1 <= j < k ==> #[trigger] ray_step_clear(from, d, occ, j)
}

/// Step `k` from `from` in direction `d` lands on the board at `s`, with an
/// open path before it.
pub open spec fn ray_reaches(from: int, d: (i8, i8), occ: u64, k: int, s: int) -> bool {
    &&& on_board(ray_square(from, d.0 as int, d.1 as int, k))
    &&& ray_index(from, d, k) == s
    &&& ray_open(from, d, occ, k)
}

/// A slider on `from` moving in direction `d` attacks `s`: `s` is the first
/// occupied square of the ray, or an empty square before it.
pub open spec fn ray_attacks(from: int, d: (i8, i8), occ: u64, s: int) -> bool {
    exists|k: int| k >= 1 && #[trigger] ray_reaches(from, d, occ, k, s)
}

/// A slider on `from` attacks `s` along one of the directions `ds`.
pub open spec fn slides_any(from: int, ds: Seq<(i8, i8)>, occ: u64, s: int) -> bool
    decreases ds.len(),
{
    if ds.len() == 0 {
        false
    } else {
        slides_any(from, ds.drop_last(), occ, s) || ray_attacks(from, ds.last(), occ, s)
    }
}

/// A bishop on `from` attacks `s`, given the occupied squares `occ`.
pub open spec fn bishop_ray(from: int, occ: u64, s: int) -> bool {
    ||| ray_attacks(from, (1i8, 1i8), occ, s)
    ||| ray_attacks(from, (-1i8, -1i8), occ, s)
    ||| ray_attacks(from, (-1i8, 1i8), occ, s)
    ||| ray_attacks(from, (1i8, -1i8), occ, s)
}

/// A rook on `from` attacks `s`, given the occupied squares `occ`.
pub open spec fn rook_ray(from: int, occ: u64, s: int) -> bool {
    ||| ray_attacks(from, (1i8, 0i8), occ, s)
    ||| ray_attacks(from, (-1i8, 0i8), occ, s)
    ||| ray_attacks(from, (0i8, 1i8), occ, s)
    ||| ray_attacks(from, (0i8, -1i8), occ, s)
}

/// A unit direction: each component is -1, 0 or 1, not both 0.
pub open spec fn unit_dir(d: (i8, i8)) -> bool {
    -1 <= d.0 <= 1 && -1 <= d.1 <= 1 && !(d.0 == 0 && d.1 == 0)
}

proof fn lemma_ray_hit_within(fr: int, d: (i8, i8), occ: u64, k: int, j: int, s: int)
    requires
        ray_open(fr, d, occ, k + 1),
        1 <= j <= k + 1,
        on_board(ray_square(fr, d.0 as int, d.1 as int, j)),
        ray_index(fr, d, j) == s,
    ensures
        ray_reaches(fr, d, occ, j, s),
{
    assert forall|i: int| 1 <= i < j implies #[trigger] ray_step_clear(fr, d, occ, i) by {
        assert(1 <= i < k + 1);
    }
}

/// When step `k + 1` leaves the board, the ray attacks exactly its first `k`
/// squares.
proof fn lemma_ray_stop_off_board(fr: int, d: (i8, i8), occ: u64, k: int, s: int)
    requires
        unit_dir(d),
        k >= 0,
        ray_open(fr, d, occ, k + 1),
        !on_board(ray_square(fr, d.0 as int, d.1 as int, k + 1)),
    ensures
        ray_attacks(fr, d, occ, s) <==> exists|j: int| 1 <= j <= k && ray_index(fr, d, j) == s,
{
    if exists|j: int| 1 <= j <= k && ray_index(fr, d, j) == s {
        let j = choose|j: int| 1 <= j <= k && ray_index(fr, d, j) == s;
        assert(ray_step_clear(fr, d, occ, j));
        lemma_ray_hit_within(fr, d, occ, k, j, s);
    }
    if ray_attacks(fr, d, occ, s) {
        let kk = choose|kk: int| kk >= 1 && #[trigger] ray_reaches(fr, d, occ, kk, s);
        if kk > k + 1 {
            assert(ray_step_clear(fr, d, occ, k + 1));
        }
        assert(1 <= kk <= k && ray_index(fr, d, kk) == s);
    }
}

/// When step `k + 1` lands on an occupied square, the ray attacks exactly
/// its first `k + 1` squares.
proof fn lemma_ray_stop_blocked(fr: int, d: (i8, i8), occ: u64, k: int, s: int)
    requires
        k >= 0,
        ray_open(fr, d, occ, k + 1),
        on_board(ray_square(fr, d.0 as int, d.1 as int, k + 1)),
        has_bit(occ, ray_index(fr, d, k + 1) as u64),
    ensures
        ray_attacks(fr, d, occ, s) <==> exists|j: int| 1 <= j <= k + 1 && ray_index(fr, d, j) == s,
{
    if exists|j: int| 1 <= j <= k + 1 && ray_index(fr, d, j) == s {
        let j = choose|j: int| 1 <= j <= k + 1 && ray_index(fr, d, j) == s;
        if j <= k {
            assert(ray_step_clear(fr, d, occ, j));
        }
        lemma_ray_hit_within(fr, d, occ, k, j, s);
    }
    if ray_attacks(fr, d, occ, s) {
        let kk = choose|kk: int| kk >= 1 && #[trigger] ray_reaches(fr, d, occ, kk, s);
        if kk > k + 1 {
            assert(ray_step_clear(fr, d, occ, k + 1));
        }
        assert(1 <= kk <= k + 1 && ray_index(fr, d, kk) == s);
    }
}

/// The squares attacked from `from` by a slider along the directions `dirs`.
fn slide_attacks(from: u8, dirs: &Vec<(i8, i8)>, occupied: u64) -> (r: u64)
    requires
        forall|j: int| 0 <= j < dirs.len() ==> unit_dir(#[trigger] dirs[j]),
    ensures
        forall|s: u64|
            s < 64 ==> (#[trigger] has_bit(r, s) <==> slides_any(from as int, dirs@, occupied, s as int)),
{
    let sq = Square(from);
    let mut result: u64 = 0;
    let mut i: usize = 0;
    proof {
        assert forall|s: u64| s < 64 implies (#[trigger] has_bit(result, s) <==> slides_any(from as int, dirs@.take(0), occupied, s as int)) by {
            lemma_bit_ops(0, 0, s);
        }
    }
    while i < dirs.len()
        invariant
            i <= dirs.len(),
            sq.0 == from,
            forall|j: int| 0 <= j < dirs.len() ==> unit_dir(#[trigger] dirs[j]),
            forall|s: u64|
                s < 64 ==> (#[trigger] has_bit(result, s) <==> slides_any(from as int, dirs@.take(i as int), occupied, s as int)),
        decreases dirs.len() - i,
    {
        let (dr, df) = dirs[i];
        let ghost d = (dr, df);
        let ghost prev = result;
        let ghost fr = from as int;
        let mut r = sq.rank() as i8;
        let mut f = sq.file() as i8;
        let ghost mut k: int = 0;
        loop
            invariant_except_break
                r == step(rank_of(fr), dr as int, k),
                f == step(file_of(fr), df as int, k),
                k >= 1 ==> on_board((r as int, f as int)),
                ray_open(fr, d, occupied, k + 1),
                forall|s: u64|
                    s < 64 ==> (#[trigger] has_bit(result, s) <==> (has_bit(prev, s) || exists|j: int| 1 <= j <= k && ray_index(fr, d, j) == s)),
            invariant
                unit_dir(d),
                d == (dr, df),
                sq.0 == from,
                fr == from,
                0 <= k <= 8,
            ensures
                forall|s: u64|
                    s < 64 ==> (#[trigger] has_bit(result, s) <==> (has_bit(prev, s) || ray_attacks(fr, d, occupied, s as int))),
            decreases 8 - k,
        {
            r += dr;
            f += df;
            proof {
                lemma_i8_as_u8(r);
                lemma_i8_as_u8(f);
                assert(ray_square(fr, d.0 as int, d.1 as int, k + 1) == (r as int, f as int));
            }
            if Square::is_valid(r as u8, f as u8) {
                let bb = Square::from_rank_file(r as u8, f as u8).bitboard();
                let old_result = result;
                result |= bb;
                let t = (r as u8) * 8 + (f as u8);
                proof {
                    assert(on_board(ray_square(fr, d.0 as int, d.1 as int, k + 1)));
                    assert(ray_index(fr, d, k + 1) == t);
                    assert forall|s: u64| s < 64 implies (#[trigger] has_bit(result, s) <==> (has_bit(prev, s) || exists|j: int| 1 <= j <= k + 1 && ray_index(fr, d, j) == s)) by {
                        lemma_bit_ops(old_result, bb, s);
                        if s == t {
                            assert(ray_index(fr, d, k + 1) == s);
                        }
                        if exists|j: int| 1 <= j <= k + 1 && ray_index(fr, d, j) == s {
                            let j = choose|j: int| 1 <= j <= k + 1 && ray_index(fr, d, j) == s;
                            if j > k {
                                assert(s == t);
                            }
                        }
                    }
                    lemma_single_and(t as u64, occupied);
                }
                if bb & occupied != 0 {
                    proof {
                        assert forall|s: u64| s < 64 implies (#[trigger] has_bit(result, s) <==> (has_bit(prev, s) || ray_attacks(fr, d, occupied, s as int))) by {
                            lemma_ray_stop_blocked(fr, d, occupied, k, s as int);
                        }
                    }
                    break;
                }
                proof {
                    assert forall|j: int| 1 <= j < k + 2 implies #[trigger] ray_step_clear(fr, d, occupied, j) by {
                        if j == k + 1 {
                            assert(ray_index(fr, d, j) == t);
                        }
                    }
                    if k >= 1 {
                        assert(ray_step_clear(fr, d, occupied, 1));
                    }
                    k = k + 1;
                }
            } else {
                proof {
                    assert(!on_board(ray_square(fr, d.0 as int, d.1 as int, k + 1)));
                    assert forall|s: u64| s < 64 implies (#[trigger] has_bit(result, s) <==> (has_bit(prev, s) || ray_attacks(fr, d, occupied, s as int))) by {
                        lemma_ray_stop_off_board(fr, d, occupied, k, s as int);
                    }
                }
                break;
            }
        }
        proof {
            assert(dirs@.take(i + 1).drop_last() == dirs@.take(i as int));
            assert(dirs@.take(i + 1).last() == d);
        }
        i = i + 1;
    }
    proof {
        assert(dirs@.take(dirs.len() as int) == dirs@);
    }
    result
}

/// Squares attacked by a bishop on `from`, given the occupied squares.
pub fn bishop_attacks(from: u8, occupied: u64) -> (r: u64)
    ensures
        forall|s: u64| s < 64 ==> (#[trigger] has_bit(r, s) <==> bishop_ray(from as int, occupied, s as int)),
{
    let bishops_dir: Vec<(i8, i8)> = vec![(1,1), (-1,-1), (-1,1), (1,-1)];
    let r = slide_attacks(from, &bishops_dir, occupied);
    proof {
        reveal_with_fuel(slides_any, 5);
    }
    r
}

/// Squares attacked by a rook on `from`, given the occupied squares.
pub fn rook_attacks(from: u8, occupied: u64) -> (r: u64)
    ensures
        forall|s: u64| s < 64 ==> (#[trigger] has_bit(r, s) <==> rook_ray(from as int, occupied, s as int)),
{
    let rooks_dir: Vec<(i8, i8)> = vec![(1,0), (-1,0), (0,1), (0,-1)];
    let r = slide_attacks(from, &rooks_dir, occupied);
    proof {
        reveal_with_fuel(slides_any, 5);
    }
    r
}

/// Every square that `occ1` holds, `occ2` holds too.
pub open spec fn bits_within(occ1: u64, occ2: u64) -> bool {
    forall|i: u64| i < 64 ==> (#[trigger] has_bit(occ1, i) ==> has_bit(occ2, i))
}

/// `occ1` and `occ2` hold the same squares, except perhaps square `sq`.
pub open spec fn same_bits_except(occ1: u64, occ2: u64, sq: int) -> bool {
    forall|i: u64| i < 64 && i != sq ==> #[trigger] has_bit(occ1, i) == has_bit(occ2, i)
}

/// The rank and file of a square that a ray reaches, and the step it takes.
proof fn lemma_ray_coords(from: int, d: (i8, i8), occ: u64, s: int) -> (k: int)
    requires
        ray_attacks(from, d, occ, s),
    ensures
        k >= 1,
        ray_reaches(from, d, occ, k, s),
        0 <= s < 64,
        rank_of(s) == step(rank_of(from), d.0 as int, k),
        file_of(s) == step(file_of(from), d.1 as int, k),
{
    let k = choose|k: int| k >= 1 && #[trigger] ray_reaches(from, d, occ, k, s);
    let rf = ray_square(from, d.0 as int, d.1 as int, k);
    lemma_square_coords(rf.0, rf.1);
    k
}

/// More blockers never let a ray reach further.
proof fn lemma_ray_fewer(from: int, d: (i8, i8), occ1: u64, occ2: u64, s: int)
    requires
        bits_within(occ1, occ2),
        ray_attacks(from, d, occ2, s),
    ensures
        ray_attacks(from, d, occ1, s),
{
    let k = lemma_ray_coords(from, d, occ2, s);
    assert forall|j: int| 1 <= j < k implies #[trigger] ray_step_clear(from, d, occ1, j) by {
        assert(ray_step_clear(from, d, occ2, j));
        let rf = ray_square(from, d.0 as int, d.1 as int, j);
        lemma_square_coords(rf.0, rf.1);
        let i = ray_index(from, d, j) as u64;
        if has_bit(occ1, i) {
            assert(has_bit(occ2, i));
        }
    }
    assert(ray_reaches(from, d, occ1, k, s));
}

/// A ray never comes back to its own start square.
proof fn lemma_ray_leaves_start(from: int, d: (i8, i8), j: int)
    requires
        0 <= from < 64,
        unit_dir(d),
        j >= 1,
        on_board(ray_square(from, d.0 as int, d.1 as int, j)),
    ensures
        ray_index(from, d, j) != from,
{
    let rf = ray_square(from, d.0 as int, d.1 as int, j);
    lemma_square_coords(rf.0, rf.1);
}

/// The bit of the start square in the occupancy does not change a ray.
proof fn lemma_ray_own_bit(from: int, d: (i8, i8), occ1: u64, occ2: u64, s: int)
    requires
        0 <= from < 64,
        unit_dir(d),
        same_bits_except(occ1, occ2, from),
        ray_attacks(from, d, occ1, s),
    ensures
        ray_attacks(from, d, occ2, s),
{
    let k = lemma_ray_coords(from, d, occ1, s);
    assert forall|j: int| 1 <= j < k implies #[trigger] ray_step_clear(from, d, occ2, j) by {
        assert(ray_step_clear(from, d, occ1, j));
        let rf = ray_square(from, d.0 as int, d.1 as int, j);
        lemma_square_coords(rf.0, rf.1);
        lemma_ray_leaves_start(from, d, j);
        let i = ray_index(from, d, j) as u64;
        assert(has_bit(occ1, i) == has_bit(occ2, i));
    }
    assert(ray_reaches(from, d, occ2, k, s));
}

/// A ray from `a` that reaches `b` is walked back by the opposite ray from
/// `b`, which reaches `a` over the same squares.
proof fn lemma_ray_back(a: int, d: (i8, i8), nd: (i8, i8), occ: u64, b: int)
    requires
        0 <= a < 64,
        unit_dir(d),
        nd.0 == -d.0,
        nd.1 == -d.1,
        ray_attacks(a, d, occ, b),
    ensures
        ray_attacks(b, nd, occ, a),
{
    let k = lemma_ray_coords(a, d, occ, b);
    lemma_square_coords(rank_of(a), file_of(a));
    assert forall|j: int| 0 <= j <= k implies #[trigger] ray_square(b, nd.0 as int, nd.1 as int, j)
        == ray_square(a, d.0 as int, d.1 as int, k - j) by {}
    assert forall|j: int| 1 <= j < k implies #[trigger] ray_step_clear(b, nd, occ, j) by {
        assert(ray_step_clear(a, d, occ, k - j));
        assert(ray_square(b, nd.0 as int, nd.1 as int, j) == ray_square(a, d.0 as int, d.1 as int, k - j));
    }
    assert(ray_square(b, nd.0 as int, nd.1 as int, k) == ray_square(a, d.0 as int, d.1 as int, 0));
    assert(ray_reaches(b, nd, occ, k, a));
}

/// A straight ray and a diagonal ray from one square meet no common square.
proof fn lemma_ray_cross_disjoint(from: int, dl: (i8, i8), dd: (i8, i8), occ: u64, s: int)
    requires
        dl.0 == 0 || dl.1 == 0,
        dd.0 != 0 && dd.1 != 0,
        unit_dir(dl),
        unit_dir(dd),
    ensures
        !(ray_attacks(from, dl, occ, s) && ray_attacks(from, dd, occ, s)),
{
    if ray_attacks(from, dl, occ, s) && ray_attacks(from, dd, occ, s) {
        let k1 = lemma_ray_coords(from, dl, occ, s);
        let k2 = lemma_ray_coords(from, dd, occ, s);
    }
}

/// More blockers never add attacked squares: with the blockers of `occ1`
/// among those of `occ2`, a bishop or rook on `from` attacks under `occ2`
/// only squares it attacks under `occ1`.
pub proof fn lemma_slider_blockers_monotone(from: int, occ1: u64, occ2: u64, s: int)
    requires
        bits_within(occ1, occ2),
    ensures
        bishop_ray(from, occ2, s) ==> bishop_ray(from, occ1, s),
        rook_ray(from, occ2, s) ==> rook_ray(from, occ1, s),
{
    if ray_attacks(from, (1i8, 1i8), occ2, s) { lemma_ray_fewer(from, (1i8, 1i8), occ1, occ2, s); }
    if ray_attacks(from, (-1i8, -1i8), occ2, s) { lemma_ray_fewer(from, (-1i8, -1i8), occ1, occ2, s); }
    if ray_attacks(from, (-1i8, 1i8), occ2, s) { lemma_ray_fewer(from, (-1i8, 1i8), occ1, occ2, s); }
    if ray_attacks(from, (1i8, -1i8), occ2, s) { lemma_ray_fewer(from, (1i8, -1i8), occ1, occ2, s); }
    if ray_attacks(from, (1i8, 0i8), occ2, s) { lemma_ray_fewer(from, (1i8, 0i8), occ1, occ2, s); }
    if ray_attacks(from, (-1i8, 0i8), occ2, s) { lemma_ray_fewer(from, (-1i8, 0i8), occ1, occ2, s); }
    if ray_attacks(from, (0i8, 1i8), occ2, s) { lemma_ray_fewer(from, (0i8, 1i8), occ1, occ2, s); }
    if ray_attacks(from, (0i8, -1i8), occ2, s) { lemma_ray_fewer(from, (0i8, -1i8), occ1, occ2, s); }
}

/// Attacks of bishops and rooks are symmetric: a slider on `a` attacks `b`
/// exactly when the same slider on `b` attacks `a`.
pub proof fn lemma_slider_symmetric(a: int, b: int, occ: u64)
    requires
        0 <= a < 64,
        0 <= b < 64,
    ensures
        bishop_ray(a, occ, b) == bishop_ray(b, occ, a),
        rook_ray(a, occ, b) == rook_ray(b, occ, a),
{
    if ray_attacks(a, (1i8, 1i8), occ, b) { lemma_ray_back(a, (1i8, 1i8), (-1i8, -1i8), occ, b); }
    if ray_attacks(b, (1i8, 1i8), occ, a) { lemma_ray_back(b, (1i8, 1i8), (-1i8, -1i8), occ, a); }
    if ray_attacks(a, (-1i8, -1i8), occ, b) { lemma_ray_back(a, (-1i8, -1i8), (1i8, 1i8), occ, b); }
    if ray_attacks(b, (-1i8, -1i8), occ, a) { lemma_ray_back(b, (-1i8, -1i8), (1i8, 1i8), occ, a); }
    if ray_attacks(a, (-1i8, 1i8), occ, b) { lemma_ray_back(a, (-1i8, 1i8), (1i8, -1i8), occ, b); }
    if ray_attacks(b, (-1i8, 1i8), occ, a) { lemma_ray_back(b, (-1i8, 1i8), (1i8, -1i8), occ, a); }
    if ray_attacks(a, (1i8, -1i8), occ, b) { lemma_ray_back(a, (1i8, -1i8), (-1i8, 1i8), occ, b); }
    if ray_attacks(b, (1i8, -1i8), occ, a) { lemma_ray_back(b, (1i8, -1i8), (-1i8, 1i8), occ, a); }
    if ray_attacks(a, (1i8, 0i8), occ, b) { lemma_ray_back(a, (1i8, 0i8), (-1i8, 0i8), occ, b); }
    if ray_attacks(b, (1i8, 0i8), occ, a) { lemma_ray_back(b, (1i8, 0i8), (-1i8, 0i8), occ, a); }
    if ray_attacks(a, (-1i8, 0i8), occ, b) { lemma_ray_back(a, (-1i8, 0i8), (1i8, 0i8), occ, b); }
    if ray_attacks(b, (-1i8, 0i8), occ, a) { lemma_ray_back(b, (-1i8, 0i8), (1i8, 0i8), occ, a); }
    if ray_attacks(a, (0i8, 1i8), occ, b) { lemma_ray_back(a, (0i8, 1i8), (0i8, -1i8), occ, b); }
    if ray_attacks(b, (0i8, 1i8), occ, a) { lemma_ray_back(b, (0i8, 1i8), (0i8, -1i8), occ, a); }
    if ray_attacks(a, (0i8, -1i8), occ, b) { lemma_ray_back(a, (0i8, -1i8), (0i8, 1i8), occ, b); }
    if ray_attacks(b, (0i8, -1i8), occ, a) { lemma_ray_back(b, (0i8, -1i8), (0i8, 1i8), occ, a); }
}

/// Whether the start square itself is occupied does not change what a
/// bishop or rook on it attacks.
pub proof fn lemma_slider_own_square(from: int, occ1: u64, occ2: u64, s: int)
    requires
        0 <= from < 64,
        same_bits_except(occ1, occ2, from),
    ensures
        bishop_ray(from, occ1, s) == bishop_ray(from, occ2, s),
        rook_ray(from, occ1, s) == rook_ray(from, occ2, s),
{
    assert(same_bits_except(occ2, occ1, from));
    if ray_attacks(from, (1i8, 1i8), occ1, s) { lemma_ray_own_bit(from, (1i8, 1i8), occ1, occ2, s); }
    if ray_attacks(from, (1i8, 1i8), occ2, s) { lemma_ray_own_bit(from, (1i8, 1i8), occ2, occ1, s); }
    if ray_attacks(from, (-1i8, -1i8), occ1, s) { lemma_ray_own_bit(from, (-1i8, -1i8), occ1, occ2, s); }
    if ray_attacks(from, (-1i8, -1i8), occ2, s) { lemma_ray_own_bit(from, (-1i8, -1i8), occ2, occ1, s); }
    if ray_attacks(from, (-1i8, 1i8), occ1, s) { lemma_ray_own_bit(from, (-1i8, 1i8), occ1, occ2, s); }
    if ray_attacks(from, (-1i8, 1i8), occ2, s) { lemma_ray_own_bit(from, (-1i8, 1i8), occ2, occ1, s); }
    if ray_attacks(from, (1i8, -1i8), occ1, s) { lemma_ray_own_bit(from, (1i8, -1i8), occ1, occ2, s); }
    if ray_attacks(from, (1i8, -1i8), occ2, s) { lemma_ray_own_bit(from, (1i8, -1i8), occ2, occ1, s); }
    if ray_attacks(from, (1i8, 0i8), occ1, s) { lemma_ray_own_bit(from, (1i8, 0i8), occ1, occ2, s); }
    if ray_attacks(from, (1i8, 0i8), occ2, s) { lemma_ray_own_bit(from, (1i8, 0i8), occ2, occ1, s); }
    if ray_attacks(from, (-1i8, 0i8), occ1, s) { lemma_ray_own_bit(from, (-1i8, 0i8), occ1, occ2, s); }
    if ray_attacks(from, (-1i8, 0i8), occ2, s) { lemma_ray_own_bit(from, (-1i8, 0i8), occ2, occ1, s); }
    if ray_attacks(from, (0i8, 1i8), occ1, s) { lemma_ray_own_bit(from, (0i8, 1i8), occ1, occ2, s); }
    if ray_attacks(from, (0i8, 1i8), occ2, s) { lemma_ray_own_bit(from, (0i8, 1i8), occ2, occ1, s); }
    if ray_attacks(from, (0i8, -1i8), occ1, s) { lemma_ray_own_bit(from, (0i8, -1i8), occ1, occ2, s); }
    if ray_attacks(from, (0i8, -1i8), occ2, s) { lemma_ray_own_bit(from, (0i8, -1i8), occ2, occ1, s); }
}

/// No square is attacked both by a rook and by a bishop standing on the
/// same square: a queen's targets are the disjoint union of the two.
pub proof fn lemma_rook_bishop_disjoint(from: int, occ: u64, s: int)
    ensures
        !(rook_ray(from, occ, s) && bishop_ray(from, occ, s)),
{
    let ls = seq![(1i8, 0i8), (-1i8, 0i8), (0i8, 1i8), (0i8, -1i8)];
    let ds = seq![(1i8, 1i8), (-1i8, -1i8), (-1i8, 1i8), (1i8, -1i8)];
    assert forall|i: int, j: int| 0 <= i < 4 && 0 <= j < 4 implies !(#[trigger] ray_attacks(from, ls[i], occ, s)
        && #[trigger] ray_attacks(from, ds[j], occ, s)) by {
        lemma_ray_cross_disjoint(from, ls[i], ds[j], occ, s);
    }
    assert(ls[0] == (1i8, 0i8) && ls[1] == (-1i8, 0i8) && ls[2] == (0i8, 1i8) && ls[3] == (0i8, -1i8));
    assert(ds[0] == (1i8, 1i8) && ds[1] == (-1i8, -1i8) && ds[2] == (-1i8, 1i8) && ds[3] == (1i8, -1i8));
}

} // verus!
