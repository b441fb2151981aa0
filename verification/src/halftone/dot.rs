//! Dot patterns: a square table that ranks every cell of a halftone dot, and
//! the two tables of thresholds that the ranks stand for.
//!
//! Each cell gets a score from the dot's shape. Cells are ranked by score,
//! highest first, equal scores in row-major order. With `n` cells and
//! `step = 0.5 / (n - 1)`, the cell of rank `k` has the base threshold
//! `0.5 - step * k`. The screen compares a tone against `1 - base` on even
//! tiles and against `base + 0.003` on odd tiles. Scores of round shapes and
//! all thresholds are binary32 numbers, computed in binary32 arithmetic.

use vstd::prelude::*;
use vstd::arithmetic::div_mod::lemma_fundamental_div_mod_converse;
use vstd::relations::injective_on;
use vstd::set_lib::{lemma_int_range, lemma_map_size, lemma_subset_equality, set_int_range};
use crate::arithmetic32::{
    difference,
    difference_bits,
    from_int,
    from_int_bits,
    from_nat,
    from_nat_bits,
    less,
    less_bits,
    product,
    product_bits,
    quotient,
    quotient_bits,
    root,
    root_bits,
    sum,
    sum_bits,
    HALF_BITS,
    TWO_BITS,
};
use crate::arithmetic32::ONE_BITS;
use crate::enums::TypeDot;
use crate::errors::PixelError;

verus! {

/// Largest supported side of a dot, in pixels.
pub const MAX_DOT_SIZE: usize = 65535;

/// Bit pattern of `0.1`: how far the centre of a round dot lies past the
/// middle along the rows.
pub const CENTRE_ROW_BITS: u32 = 0x3DCC_CCCD;

/// Bit pattern of `0.15`: how far the centre of a round dot lies past the
/// middle along the columns.
pub const CENTRE_COLUMN_BITS: u32 = 0x3E19_999A;

/// Bit pattern of `0.003`: what sets the thresholds of odd tiles apart.
pub const EPSILON_BITS: u32 = 0x3B44_9BA6;

/// Bit pattern of the cosine of sixty degrees in binary32.
pub const COS_SIXTY_BITS: u32 = 0x3EFF_FFFF;

/// Bit pattern of the sine of sixty degrees in binary32.
pub const SIN_SIXTY_BITS: u32 = 0x3F5D_B3D8;

/// `(x, y)` lies inside the diagonal band of half-width `h`.
pub open spec fn within_line(x: int, y: int, h: int) -> bool {
    x - h < y && y < x + h
}

/// `(x, y)` lies inside the anti-diagonal band of half-width `h`.
pub open spec fn within_invline(x: int, y: int, h: int) -> bool {
    -x - h < y && y < -x + h
}

/// The left side of the ellipse test for `(x, y)`:
/// `x * x + y * y - 2 * x * y * cos 60`.
pub open spec fn ellipse_left(x: int, y: int) -> u32 {
    difference(
        sum(product(from_int(x), from_int(x)), product(from_int(y), from_int(y))),
        product(product(product(TWO_BITS, from_int(x)), from_int(y)), COS_SIXTY_BITS),
    )
}

/// The right side of the ellipse test for half-width `h`:
/// `sin 60 * sin 60 * h * h`.
pub open spec fn ellipse_right(h: int) -> u32 {
    product(product(product(SIN_SIXTY_BITS, SIN_SIXTY_BITS), from_int(h)), from_int(h))
}

/// `(x, y)` lies inside the ellipse of half-width `h`.
pub open spec fn within_ellipse(x: int, y: int, h: int) -> bool {
    less(ellipse_left(x, y), ellipse_right(h))
}

/// `(x, y)` lies inside either diagonal band of half-width `h`.
pub open spec fn within_cross(x: int, y: int, h: int) -> bool {
    within_invline(x, y, h) || within_line(x, y, h)
}

/// The boundary test of a shape that is scored by coverage.
pub open spec fn within(shape: TypeDot, x: int, y: int, h: int) -> bool {
    match shape {
        TypeDot::LINE => within_line(x, y, h),
        TypeDot::INVLINE => within_invline(x, y, h),
        TypeDot::ELLIPSE => within_ellipse(x, y, h),
        TypeDot::CROSS => within_cross(x, y, h),
        TypeDot::CIRCLE => false,
    }
}

/// How many sizes of the shape a coverage score tries.
pub open spec fn sweep(shape: TypeDot, size: nat) -> nat {
    match shape {
        TypeDot::CROSS => size,
        _ => 2 * size,
    }
}

/// How many of the half-widths `1 ..= upto` leave `(x, y)` outside the shape.
pub open spec fn coverage(shape: TypeDot, x: int, y: int, upto: nat) -> nat
    decreases upto,
{
    if upto == 0 {
        0
    } else {
        coverage(shape, x, y, (upto - 1) as nat) + if within(shape, x, y, upto as int) {
            0nat
        } else {
            1nat
        }
    }
}

/// A coordinate of the centre of a round dot: the middle of the side and an
/// offset.
pub open spec fn circle_centre(size: nat, offset: u32) -> u32 {
    sum(quotient(from_nat(size), TWO_BITS), offset)
}

/// The distance of cell `(i, b)` from the centre of a round dot.
pub open spec fn circle_distance(size: nat, i: int, b: int) -> u32 {
    let dx = difference(from_int(i), circle_centre(size, CENTRE_ROW_BITS));
    let dy = difference(from_int(b), circle_centre(size, CENTRE_COLUMN_BITS));
    root(sum(product(dx, dx), product(dy, dy)))
}

/// The score of cell `(i, b)` of a round dot: the bit pattern of its
/// distance from the centre, which grows with the distance.
pub open spec fn circle_score(size: nat, i: int, b: int) -> nat {
    circle_distance(size, i, b) as nat
}

/// The score of cell `(i, b)` of a dot.
pub open spec fn score(shape: TypeDot, size: nat, i: int, b: int) -> nat {
    match shape {
        TypeDot::CIRCLE => circle_score(size, i, b),
        _ => coverage(
            shape,
            i - (size / 2) as int,
            b - (size / 2) as int,
            sweep(shape, size),
        ),
    }
}

/// The scores of all cells, row-major.
pub open spec fn score_table(shape: TypeDot, size: nat) -> Seq<nat> {
    Seq::new(size * size, |c: int| score(shape, size, c / (size as int), c % (size as int)))
}

/// Cell `a` comes before cell `b`: it scores higher, or the same and stands
/// earlier.
pub open spec fn outranks(scores: Seq<nat>, a: int, b: int) -> bool {
    scores[a] > scores[b] || (scores[a] == scores[b] && a < b)
}

/// How many of the cells `0 .. upto` come before cell `c`.
pub open spec fn count_outranking(scores: Seq<nat>, c: int, upto: nat) -> nat
    decreases upto,
{
    if upto == 0 {
        0
    } else {
        count_outranking(scores, c, (upto - 1) as nat) + if outranks(scores, upto - 1, c) {
            1nat
        } else {
            0nat
        }
    }
}

/// Position of cell `c` when all cells are ordered by descending score, equal
/// scores keeping their order.
pub open spec fn rank(scores: Seq<nat>, c: int) -> nat {
    count_outranking(scores, c, scores.len())
}

/// The rank of every cell.
pub open spec fn rank_table(scores: Seq<nat>) -> Seq<nat> {
    Seq::new(scores.len(), |c: int| rank(scores, c))
}

/// The step of the threshold ladder of a dot: `0.5 / (size * size - 1)`.
pub open spec fn ladder_step(size: nat) -> u32 {
    quotient(HALF_BITS, difference(product(from_nat(size), from_nat(size)), ONE_BITS))
}

/// The base threshold of a cell of the given rank: `0.5 - step * rank`.
pub open spec fn base_threshold(size: nat, rank: nat) -> u32 {
    difference(HALF_BITS, product(ladder_step(size), from_nat(rank)))
}

/// The threshold of a cell of the given rank: `1 - base` on even tiles,
/// `base + 0.003` on odd (`inverse`) tiles.
pub open spec fn threshold(size: nat, rank: nat, inverse: bool) -> u32 {
    if inverse {
        sum(base_threshold(size, rank), EPSILON_BITS)
    } else {
        difference(ONE_BITS, base_threshold(size, rank))
    }
}

/// Counting stops short of a cell that cannot come before itself.
pub proof fn lemma_count_bound(scores: Seq<nat>, c: int, upto: nat)
    ensures
        count_outranking(scores, c, upto) <= upto,
        0 <= c < upto ==> count_outranking(scores, c, upto) < upto,
    decreases upto,
{
    if upto > 0 {
        lemma_count_bound(scores, c, (upto - 1) as nat);
    }
}

/// Every rank is a position among the cells.
pub proof fn lemma_rank_bound(scores: Seq<nat>, c: int)
    requires
        0 <= c < scores.len(),
    ensures
        rank(scores, c) < scores.len(),
{
    lemma_count_bound(scores, c, scores.len());
}

/// A cell that comes before another is counted before everything the other
/// is counted before, and once more.
pub proof fn lemma_count_ordered(scores: Seq<nat>, a: int, b: int, upto: nat)
    requires
        0 <= a,
        0 <= b,
        outranks(scores, a, b),
    ensures
        count_outranking(scores, a, upto) + (if a < upto {
            1nat
        } else {
            0nat
        }) <= count_outranking(scores, b, upto),
    decreases upto,
{
    if upto > 0 {
        lemma_count_ordered(scores, a, b, (upto - 1) as nat);
    }
}

/// No two cells share a rank: the ranks of `n` cells are `0 .. n`, each once.
pub proof fn lemma_rank_injective(scores: Seq<nat>, a: int, b: int)
    requires
        0 <= a < scores.len(),
        0 <= b < scores.len(),
        a != b,
    ensures
        rank(scores, a) != rank(scores, b),
{
    if outranks(scores, a, b) {
        lemma_count_ordered(scores, a, b, scores.len());
    } else {
        assert(outranks(scores, b, a));
        lemma_count_ordered(scores, b, a, scores.len());
    }
}

/// Every position is the rank of some cell: with `lemma_rank_injective`, the
/// ranks of `n` cells are a bijection onto `0 .. n`.
pub proof fn lemma_rank_surjective(scores: Seq<nat>, k: int)
    requires
        0 <= k < scores.len(),
    ensures
        exists|c: int| 0 <= c < scores.len() && rank(scores, c) == k,
{
    let n = scores.len() as int;
    let cells = set_int_range(0, n);
    let f = |c: int| rank(scores, c) as int;
    let ranks = cells.map(f);
    lemma_int_range(0, n);
    assert(injective_on(f, cells)) by {
        assert forall|a: int, b: int|
            cells.contains(a) && cells.contains(b) && #[trigger] f(a) == #[trigger] f(
                b,
            ) implies a == b by {
            if a != b {
                lemma_rank_injective(scores, a, b);
            }
        }
    }
    lemma_map_size(cells, ranks, f);
    assert(ranks.subset_of(cells)) by {
        assert forall|r: int| ranks.contains(r) implies cells.contains(r) by {
            let c = choose|c: int| cells.contains(c) && f(c) == r;
            lemma_rank_bound(scores, c);
        }
    }
    lemma_subset_equality(ranks, cells);
    assert(cells.contains(k));
    assert(ranks.contains(k));
    let c = choose|c: int| cells.contains(c) && f(c) == k;
    assert(0 <= c < scores.len() && rank(scores, c) == k);
}

/// The mathematical content of a dot pattern.
pub struct DotView {
    pub size: nat,
    pub shape: TypeDot,
    pub ranks: Seq<nat>,
}

impl DotView {
    /// The table holds the rank of every cell of a dot of this shape and size.
    pub open spec fn wf(self) -> bool {
        &&& 2 <= self.size <= MAX_DOT_SIZE
        &&& self.ranks == rank_table(score_table(self.shape, self.size))
    }

    /// Rank of the cell at `row`, `col`.
    pub open spec fn rank_at(self, row: int, col: int) -> nat {
        self.ranks[row * self.size + col]
    }
}

/// The tables of one dot, made once and used for a whole screen: the rank
/// of every cell, and its threshold on even and on odd tiles.
pub struct DotPattern {
    size: usize,
    shape: TypeDot,
    ranks: Vec<usize>,
    dot: Vec<u32>,
    dot_inv: Vec<u32>,
}

impl View for DotPattern {
    type V = DotView;

    closed spec fn view(&self) -> DotView {
        DotView {
            size: self.size as nat,
            shape: self.shape,
            ranks: self.ranks@.map_values(|r: usize| r as nat),
        }
    }
}

/// The right sides of the ellipse test for the half-widths `1 ..= sweep`.
fn ellipse_rights(sweep: usize) -> (rights: Vec<u32>)
    requires
        sweep <= 0x2_0000,
    ensures
        rights@.len() == sweep,
        forall|k: int| 0 <= k < sweep ==> rights@[k] == ellipse_right(k + 1),
{
    let squared: u32 = product_bits(SIN_SIXTY_BITS, SIN_SIXTY_BITS);
    let mut rights: Vec<u32> = Vec::new();
    let mut k: usize = 0;
    while k < sweep
        invariant
            sweep <= 0x2_0000,
            squared == product(SIN_SIXTY_BITS, SIN_SIXTY_BITS),
            k <= sweep,
            rights@.len() == k,
            forall|j: int| 0 <= j < k ==> rights@[j] == ellipse_right(j + 1),
        decreases sweep - k,
    {
        let h: u32 = from_int_bits(k as i64 + 1);
        rights.push(product_bits(product_bits(squared, h), h));
        k += 1;
    }
    rights
}

/// Whether half-width `h` of a coverage shape holds `(x, y)`; `left` and
/// `right` are the two sides of the ellipse test.
fn within_shape(shape: TypeDot, x: i64, y: i64, h: i64, left: u32, right: u32) -> (inside: bool)
    requires
        -0x1_0000 <= x <= 0x1_0000,
        -0x1_0000 <= y <= 0x1_0000,
        0 <= h <= 0x2_0000,
        shape == TypeDot::ELLIPSE ==> left == ellipse_left(x as int, y as int) && right
            == ellipse_right(h as int),
    ensures
        inside == within(shape, x as int, y as int, h as int),
{
    match shape {
        TypeDot::LINE => x - h < y && y < x + h,
        TypeDot::INVLINE => -x - h < y && y < -x + h,
        TypeDot::ELLIPSE => less_bits(left, right),
        TypeDot::CROSS => (-x - h < y && y < -x + h) || (x - h < y && y < x + h),
        TypeDot::CIRCLE => false,
    }
}

/// The score of cell `(i, b)`; `rights` holds the right sides of the ellipse
/// test where the shape is an ellipse.
fn cell_score(shape: TypeDot, size: usize, i: usize, b: usize, rights: &Vec<u32>) -> (s: u64)
    requires
        2 <= size <= MAX_DOT_SIZE,
        i < size,
        b < size,
        shape == TypeDot::ELLIPSE ==> rights@.len() == 2 * size && forall|k: int|
            0 <= k < 2 * size ==> rights@[k] == ellipse_right(k + 1),
    ensures
        s == score(shape, size as nat, i as int, b as int),
{
    match shape {
        TypeDot::CIRCLE => {
            let half: u32 = quotient_bits(from_nat_bits(size as u64), TWO_BITS);
            let dx: u32 = difference_bits(
                from_int_bits(i as i64),
                sum_bits(half, CENTRE_ROW_BITS),
            );
            let dy: u32 = difference_bits(
                from_int_bits(b as i64),
                sum_bits(half, CENTRE_COLUMN_BITS),
            );
            root_bits(sum_bits(product_bits(dx, dx), product_bits(dy, dy))) as u64
        },
        _ => {
            let half: i64 = (size / 2) as i64;
            let x: i64 = i as i64 - half;
            let y: i64 = b as i64 - half;
            let ellipse: bool = match shape {
                TypeDot::ELLIPSE => true,
                _ => false,
            };
            let left: u32 = if ellipse {
                let xf: u32 = from_int_bits(x);
                let yf: u32 = from_int_bits(y);
                difference_bits(
                    sum_bits(product_bits(xf, xf), product_bits(yf, yf)),
                    product_bits(product_bits(product_bits(TWO_BITS, xf), yf), COS_SIXTY_BITS),
                )
            } else {
                0
            };
            let last: usize = match shape {
                TypeDot::CROSS => size,
                _ => 2 * size,
            };
            let mut count: u64 = 0;
            let mut h: usize = 0;
            while h < last
                invariant
                    last == sweep(shape, size as nat),
                    last <= 0x2_0000,
                    -0x1_0000 <= x <= 0x1_0000,
                    -0x1_0000 <= y <= 0x1_0000,
                    ellipse == (shape == TypeDot::ELLIPSE),
                    ellipse ==> left == ellipse_left(x as int, y as int) && rights@.len() == last
                        && forall|k: int| 0 <= k < last ==> rights@[k] == ellipse_right(k + 1),
                    h <= last,
                    count <= h,
                    count == coverage(shape, x as int, y as int, h as nat),
                decreases last - h,
            {
                let right: u32 = if ellipse {
                    rights[h]
                } else {
                    0
                };
                h += 1;
                if !within_shape(shape, x, y, h as i64, left, right) {
                    count += 1;
                }
            }
            count
        },
    }
}

/// Ranks every cell by counting the cells that come before it.
fn rank_cells(scores: &Vec<u64>) -> (ranks: Vec<usize>)
    ensures
        ranks@.map_values(|r: usize| r as nat) == rank_table(scores@.map_values(|s: u64| s as nat)),
{
    let n: usize = scores.len();
    let ghost table = scores@.map_values(|s: u64| s as nat);
    let mut ranks: Vec<usize> = Vec::new();
    let mut c: usize = 0;
    while c < n
        invariant
            n == scores@.len(),
            table == scores@.map_values(|s: u64| s as nat),
            c <= n,
            ranks@.len() == c,
            forall|k: int| 0 <= k < c ==> ranks@[k] == rank(table, k),
        decreases n - c,
    {
        let mine: u64 = scores[c];
        let mut count: usize = 0;
        let mut other: usize = 0;
        while other < n
            invariant
                n == scores@.len(),
                table == scores@.map_values(|s: u64| s as nat),
                c < n,
                mine == scores@[c as int],
                other <= n,
                count <= other,
                count == count_outranking(table, c as int, other as nat),
            decreases n - other,
        {
            let theirs: u64 = scores[other];
            if theirs > mine || (theirs == mine && other < c) {
                count += 1;
            }
            other += 1;
        }
        ranks.push(count);
        c += 1;
    }
    assert(ranks@.map_values(|r: usize| r as nat) =~= rank_table(table));
    ranks
}

/// Builds the dot pattern of the given side and shape. Fails when the side is
/// less than two pixels, for which the threshold ladder has no step, or more
/// than `MAX_DOT_SIZE`.
pub fn create_dot(dot_size: usize, dot_type: TypeDot) -> (r: Result<DotPattern, PixelError>)
    ensures
        r is Ok <==> 2 <= dot_size <= MAX_DOT_SIZE,
        r is Err ==> r == Err::<DotPattern, PixelError>(PixelError::InvalidParameter),
        r is Ok ==> r->Ok_0.wf() && r->Ok_0@.wf() && r->Ok_0@.size == dot_size && r->Ok_0@.shape
            == dot_type,
{
    if dot_size < 2 || dot_size > MAX_DOT_SIZE {
        return Err(PixelError::InvalidParameter);
    }
    let ghost table = score_table(dot_type, dot_size as nat);
    assert(dot_size * dot_size <= 0xFFFF_FFFF) by (nonlinear_arith)
        requires
            dot_size <= 65535,
    ;
    let n: usize = dot_size * dot_size;
    let rights: Vec<u32> = match dot_type {
        TypeDot::ELLIPSE => ellipse_rights(2 * dot_size),
        _ => Vec::new(),
    };
    let mut scores: Vec<u64> = Vec::new();
    let mut i: usize = 0;
    while i < dot_size
        invariant
            2 <= dot_size <= MAX_DOT_SIZE,
            n == dot_size * dot_size,
            table == score_table(dot_type, dot_size as nat),
            dot_type == TypeDot::ELLIPSE ==> rights@.len() == 2 * dot_size && forall|k: int|
                0 <= k < 2 * dot_size ==> rights@[k] == ellipse_right(k + 1),
            i <= dot_size,
            scores@.len() == i * dot_size,
            forall|c: int| 0 <= c < scores@.len() ==> scores@[c] == table[c],
        decreases dot_size - i,
    {
        let mut b: usize = 0;
        while b < dot_size
            invariant
                2 <= dot_size <= MAX_DOT_SIZE,
                n == dot_size * dot_size,
                table == score_table(dot_type, dot_size as nat),
                dot_type == TypeDot::ELLIPSE ==> rights@.len() == 2 * dot_size && forall|k: int|
                    0 <= k < 2 * dot_size ==> rights@[k] == ellipse_right(k + 1),
                i < dot_size,
                b <= dot_size,
                scores@.len() == i * dot_size + b,
                forall|c: int| 0 <= c < scores@.len() ==> scores@[c] == table[c],
            decreases dot_size - b,
        {
            proof {
                let c = i * dot_size + b;
                assert(c == dot_size * i + b && c < dot_size * dot_size) by (nonlinear_arith)
                    requires
                        c == i * dot_size + b,
                        i < dot_size,
                        b < dot_size,
                ;
                lemma_fundamental_div_mod_converse(c, dot_size as int, i as int, b as int);
            }
            scores.push(cell_score(dot_type, dot_size, i, b, &rights));
            b += 1;
        }
        i += 1;
        assert((i - 1) * dot_size + dot_size == i * dot_size) by (nonlinear_arith);
    }
    assert(scores@.map_values(|s: u64| s as nat) =~= table);
    let ranks: Vec<usize> = rank_cells(&scores);
    assert(ranks@.len() == ranks@.map_values(|r: usize| r as nat).len());
    assert(ranks@.len() == n);
    let side: u32 = from_nat_bits(dot_size as u64);
    let step: u32 = quotient_bits(HALF_BITS, difference_bits(product_bits(side, side), ONE_BITS));
    let mut dot: Vec<u32> = Vec::new();
    let mut dot_inv: Vec<u32> = Vec::new();
    let mut c: usize = 0;
    while c < n
        invariant
            n == ranks@.len(),
            step == ladder_step(dot_size as nat),
            c <= n,
            dot@.len() == c,
            dot_inv@.len() == c,
            forall|k: int|
                0 <= k < c ==> dot@[k] == threshold(dot_size as nat, ranks@[k] as nat, false),
            forall|k: int|
                0 <= k < c ==> dot_inv@[k] == threshold(dot_size as nat, ranks@[k] as nat, true),
        decreases n - c,
    {
        let base: u32 = difference_bits(HALF_BITS, product_bits(step, from_nat_bits(ranks[c] as u64)));
        dot.push(difference_bits(ONE_BITS, base));
        dot_inv.push(sum_bits(base, EPSILON_BITS));
        c += 1;
    }
    Ok(DotPattern { size: dot_size, shape: dot_type, ranks, dot, dot_inv })
}

impl DotPattern {
    /// Every pattern built by this library is well formed: its ranks are
    /// those of its shape and size, and its two tables hold the thresholds
    /// of the ranks.
    pub closed spec fn wf(&self) -> bool {
        &&& self@.wf()
        &&& self.dot@.len() == self.ranks@.len()
        &&& self.dot_inv@.len() == self.ranks@.len()
        &&& forall|k: int|
            0 <= k < self.ranks@.len() ==> self.dot@[k] == threshold(
                self.size as nat,
                self.ranks@[k] as nat,
                false,
            )
        &&& forall|k: int|
            0 <= k < self.ranks@.len() ==> self.dot_inv@[k] == threshold(
                self.size as nat,
                self.ranks@[k] as nat,
                true,
            )
    }

    /// A well-formed pattern has a well-formed content.
    pub proof fn lemma_view_wf(&self)
        requires
            self.wf(),
        ensures
            self@.wf(),
    {
    }

    /// Side of the dot in pixels.
    pub fn size(&self) -> (s: usize)
        ensures
            s == self@.size,
    {
        self.size
    }

    /// Shape of the dot.
    pub fn shape(&self) -> (s: TypeDot)
        ensures
            s == self@.shape,
    {
        self.shape
    }

    /// Rank of the cell at `row`, `col`.
    pub fn rank_at(&self, row: usize, col: usize) -> (k: usize)
        requires
            self.wf(),
            row < self@.size,
            col < self@.size,
        ensures
            self@.wf(),
            k == self@.rank_at(row as int, col as int),
            k < self@.size * self@.size,
    {
        proof {
            let size = self.size as int;
            let c = row * size + col;
            assert(0 <= c < size * size) by (nonlinear_arith)
                requires
                    c == row * size + col,
                    0 <= row < size,
                    0 <= col < size,
            ;
            assert(size * size <= 0xFFFF_FFFF) by (nonlinear_arith)
                requires
                    0 <= size <= 65535,
            ;
            let table = score_table(self.shape, self.size as nat);
            lemma_rank_bound(table, c);
            assert(table.len() == size * size);
            assert(self@.ranks.len() == self.ranks@.len());
            assert(self@.ranks[c] == rank(table, c));
            assert(self@.ranks[c] == self.ranks@[c] as nat);
        }
        self.ranks[row * self.size + col]
    }

    /// Threshold of the cell at `row`, `col` as a bit pattern; `inverse`
    /// selects the table of odd tiles.
    pub fn threshold_at(&self, row: usize, col: usize, inverse: bool) -> (t: u32)
        requires
            self.wf(),
            row < self@.size,
            col < self@.size,
        ensures
            self@.wf(),
            t == threshold(self@.size, self@.rank_at(row as int, col as int), inverse),
    {
        proof {
            let size = self.size as int;
            let c = row * size + col;
            assert(0 <= c < size * size) by (nonlinear_arith)
                requires
                    c == row * size + col,
                    0 <= row < size,
                    0 <= col < size,
            ;
            assert(size * size <= 0xFFFF_FFFF) by (nonlinear_arith)
                requires
                    0 <= size <= 65535,
            ;
            let table = score_table(self.shape, self.size as nat);
            assert(table.len() == size * size);
            assert(self@.ranks.len() == self.ranks@.len());
            assert(self@.ranks[c] == self.ranks@[c] as nat);
        }
        if inverse {
            self.dot_inv[row * self.size + col]
        } else {
            self.dot[row * self.size + col]
        }
    }
}

} // verus!
