//! A uniform-grid spatial hash: values are filed under the square cell that
//! holds their position, and looked up by the 3×3 block of cells around a
//! query point.
use crate::geometry::{floor_div, Vec2};
use itertools::Itertools;
use vstd::arithmetic::div_mod::*;
use vstd::hash_map::HashMapWithView;
use vstd::prelude::*;

verus! {

broadcast use vstd::std_specs::hash::group_hash_axioms;

/// Cell coordinates `(column, row)`.
pub type Region = (i64, i64);

/// Shift that makes every cell coordinate in range non-negative in a key.
pub const KEY_OFFSET: i64 = 0x1_0000_0000;

/// Factor that separates the column from the row in a key.
pub const KEY_SPAN: u128 = 0x4_0000_0000;

/// The cell coordinates that keys can tell apart; every cell of a position
/// and its neighbours lies in this range.
pub open spec fn region_in_range(r: (int, int)) -> bool {
    &&& -KEY_OFFSET <= r.0 < KEY_OFFSET
    &&& -KEY_OFFSET <= r.1 < KEY_OFFSET
}

/// The hash key of a cell.
pub open spec fn region_key(r: (int, int)) -> int {
    (r.0 + KEY_OFFSET) * KEY_SPAN + (r.1 + KEY_OFFSET)
}

proof fn lemma_region_key_injective(a: (int, int), b: (int, int))
    requires
        region_in_range(a),
        region_in_range(b),
        region_key(a) == region_key(b),
    ensures
        a == b,
{
    let k = region_key(a);
    lemma_fundamental_div_mod_converse(k, KEY_SPAN as int, a.0 + KEY_OFFSET, a.1 + KEY_OFFSET);
    lemma_fundamental_div_mod_converse(k, KEY_SPAN as int, b.0 + KEY_OFFSET, b.1 + KEY_OFFSET);
}

fn region_key_exec(r: Region) -> (k: u128)
    requires
        region_in_range((r.0 as int, r.1 as int)),
    ensures
        k == region_key((r.0 as int, r.1 as int)),
{
    let hi: u128 = (r.0 + KEY_OFFSET) as u128;
    let lo: u128 = (r.1 + KEY_OFFSET) as u128;
    assert(hi * KEY_SPAN <= 0x2_0000_0000 * 0x4_0000_0000) by (nonlinear_arith)
        requires
            hi <= 0x2_0000_0000,
    ;
    hi * KEY_SPAN + lo
}

/// The cell holding `p` for cells of side `s`: componentwise floor of `p / s`.
pub open spec fn region_of(p: Vec2, s: int) -> (int, int) {
    ((p.x as int) / s, (p.y as int) / s)
}

/// The 3×3 block of cells centred on `c`, row by row from the lowest row,
/// each row from the lowest column.
pub open spec fn block_regions(c: (int, int)) -> Seq<(int, int)> {
    Seq::new(9, |k: int| (c.0 - 1 + k % 3, c.1 - 1 + k / 3))
}

pub proof fn lemma_region_of_in_range(p: Vec2, s: int)
    requires
        s >= 1,
    ensures
        -0x8000_0000 <= region_of(p, s).0 < 0x8000_0000,
        -0x8000_0000 <= region_of(p, s).1 < 0x8000_0000,
{
    lemma_div_is_ordered(-0x8000_0000, p.x as int, s);
    lemma_div_is_ordered(p.x as int, 0x7fff_ffff, s);
    lemma_div_is_ordered(-0x8000_0000, p.y as int, s);
    lemma_div_is_ordered(p.y as int, 0x7fff_ffff, s);
    lemma_div_is_ordered_by_denominator(0x7fff_ffff, 1, s);
    lemma_div_neg_bound(s);
}

/// The cells of a block around a position's cell are all in range.
pub proof fn lemma_block_in_range(c: (int, int))
    requires
        -0x8000_0000 <= c.0 < 0x8000_0000,
        -0x8000_0000 <= c.1 < 0x8000_0000,
    ensures
        forall|k: int| 0 <= k < 9 ==> region_in_range(#[trigger] block_regions(c)[k]),
{
}

proof fn lemma_div_neg_bound(s: int)
    requires
        s >= 1,
    ensures
        -0x8000_0000 / s >= -0x8000_0000,
{
    lemma_fundamental_div_mod(-0x8000_0000, s);
    lemma_mod_bound(-0x8000_0000, s);
    let q = -0x8000_0000 / s;
    assert(q >= -0x8000_0000) by (nonlinear_arith)
        requires
            -0x8000_0000 == s * q + (-0x8000_0000int) % s,
            0 <= (-0x8000_0000int) % s < s,
            s >= 1,
    ;
}

/// Relies on itertools' `Itertools::cartesian_product`: every pair of an item
/// of the first range with an item of the second, the first item varying
/// slowest and each range walked in increasing order.
#[verifier::external_body]
fn cartesian_block(ylo: i64, yhi: i64, xlo: i64, xhi: i64) -> (r: Vec<(i64, i64)>)
    requires
        ylo <= yhi,
        xlo <= xhi,
        (yhi - ylo + 1) * (xhi - xlo + 1) <= usize::MAX,
    ensures
        r@.len() == (yhi - ylo + 1) * (xhi - xlo + 1),
        forall|k: int|
            0 <= k < r@.len() ==> #[trigger] r@[k] == ((ylo + k / (xhi - xlo + 1)) as i64, (xlo + k
                % (xhi - xlo + 1)) as i64),
{
    (ylo..=yhi).cartesian_product(xlo..=xhi).collect()
}

/// A spatial hash over the plane with square cells of a fixed side.
#[verifier::reject_recursive_types(V)]
pub struct SpatialHashMap2D<V> {
    cell_size: i32,
    map: HashMapWithView<u128, Vec<V>>,
}

impl<V: Copy> SpatialHashMap2D<V> {
    /// The side of a cell.
    pub closed spec fn spec_cell_size(&self) -> int {
        self.cell_size as int
    }

    /// The values filed under cell `r`, in the order they were added.
    pub closed spec fn cell(&self, r: (int, int)) -> Seq<V> {
        if self.map@.contains_key(region_key(r) as u128) {
            self.map@[region_key(r) as u128]@
        } else {
            Seq::empty()
        }
    }

    pub open spec fn wf(&self) -> bool {
        self.spec_cell_size() > 0
    }

    /// The values of the cells `rs`, cell after cell.
    pub open spec fn gather(&self, rs: Seq<(int, int)>) -> Seq<V>
        decreases rs.len(),
    {
        if rs.len() == 0 {
            Seq::empty()
        } else {
            self.gather(rs.drop_last()) + self.cell(rs.last())
        }
    }

    proof fn lemma_gather_contains(&self, rs: Seq<(int, int)>, k: int, i: int)
        requires
            0 <= k < rs.len(),
            0 <= i < self.cell(rs[k]).len(),
        ensures
            self.gather(rs).contains(self.cell(rs[k])[i]),
        decreases rs.len(),
    {
        let g = self.gather(rs);
        let front = self.gather(rs.drop_last());
        if k == rs.len() - 1 {
            assert(g[front.len() + i] == self.cell(rs[k])[i]);
        } else {
            assert(rs.drop_last()[k] == rs[k]);
            self.lemma_gather_contains(rs.drop_last(), k, i);
            let j = choose|j: int| 0 <= j < front.len() && front[j] == self.cell(rs[k])[i];
            assert(g[j] == front[j]);
        }
    }

    /// Every value filed under the cell of `p` is among the neighbours of `p`.
    pub proof fn lemma_own_cell_in_neighbors(&self, p: Vec2, i: int)
        requires
            self.wf(),
            0 <= i < self.cell(region_of(p, self.spec_cell_size())).len(),
        ensures
            self.gather(block_regions(region_of(p, self.spec_cell_size()))).contains(
                self.cell(region_of(p, self.spec_cell_size()))[i],
            ),
    {
        let c = region_of(p, self.spec_cell_size());
        assert(block_regions(c)[4] == c);
        self.lemma_gather_contains(block_regions(c), 4, i);
    }

    /// A value added at `p` is among the neighbours of `p` on the map that
    /// the addition leaves.
    pub proof fn lemma_added_is_neighbor(before: Self, after: Self, p: Vec2, v: V)
        requires
            before.wf(),
            after.wf(),
            after.spec_cell_size() == before.spec_cell_size(),
            after.cell(region_of(p, before.spec_cell_size())) == before.cell(
                region_of(p, before.spec_cell_size()),
            ).push(v),
        ensures
            after.gather(block_regions(region_of(p, after.spec_cell_size()))).contains(v),
    {
        let c = region_of(p, before.spec_cell_size());
        after.lemma_own_cell_in_neighbors(p, before.cell(c).len() as int);
    }

    /// Every cell of the map is empty.
    pub open spec fn is_empty_map(&self) -> bool {
        forall|r: (int, int)| region_in_range(r) ==> #[trigger] self.cell(r) == Seq::<V>::empty()
    }

    /// An empty map with cells of side `cell_size`.
    #[must_use]
    pub fn new(cell_size: i32) -> (r: Self)
        requires
            cell_size > 0,
        ensures
            r.wf(),
            r.spec_cell_size() == cell_size,
            r.is_empty_map(),
    {
        SpatialHashMap2D { cell_size, map: HashMapWithView::new() }
    }

    /// Empties every cell.
    pub fn clear(&mut self)
        ensures
            final(self).spec_cell_size() == old(self).spec_cell_size(),
            final(self).is_empty_map(),
    {
        self.map.clear();
    }

    /// The cell holding `position`.
    fn vec2_to_region(&self, position: Vec2) -> (r: Region)
        requires
            self.wf(),
        ensures
            (r.0 as int, r.1 as int) == region_of(position, self.spec_cell_size()),
            -0x8000_0000 <= r.0 < 0x8000_0000,
            -0x8000_0000 <= r.1 < 0x8000_0000,
    {
        proof {
            lemma_region_of_in_range(position, self.cell_size as int);
        }
        let s: i128 = self.cell_size as i128;
        let x: i128 = floor_div(position.x as i128, s);
        let y: i128 = floor_div(position.y as i128, s);
        (x as i64, y as i64)
    }

    /// Files `value` under the cell that holds `position`.
    pub fn add(&mut self, position: Vec2, value: V)
        requires
            old(self).wf(),
        ensures
            final(self).wf(),
            final(self).spec_cell_size() == old(self).spec_cell_size(),
            final(self).cell(region_of(position, old(self).spec_cell_size())) == old(self).cell(
                region_of(position, old(self).spec_cell_size()),
            ).push(value),
            forall|r: (int, int)|
                region_in_range(r) && r != region_of(position, old(self).spec_cell_size())
                    ==> #[trigger] final(self).cell(r) == old(self).cell(r),
    {
        let region = self.vec2_to_region(position);
        let key = region_key_exec(region);
        let ghost c = (region.0 as int, region.1 as int);
        let mut bucket: Vec<V> = match self.map.remove(&key) {
            Some(b) => b,
            None => Vec::new(),
        };
        assert(bucket@ == old(self).cell(c));
        bucket.push(value);
        self.map.insert(key, bucket);
        proof {
            assert forall|r: (int, int)| region_in_range(r) && r != c implies #[trigger] self.cell(r)
                == old(self).cell(r) by {
                if region_key(r) == region_key(c) {
                    lemma_region_key_injective(r, c);
                }
                assert(0 <= region_key(r) < 0x100_0000_0000_0000_0000) by (nonlinear_arith)
                    requires
                        region_in_range(r),
                ;
                assert(0 <= region_key(c) < 0x100_0000_0000_0000_0000) by (nonlinear_arith)
                    requires
                        region_in_range(c),
                ;
            }
        }
    }

    /// The values of the 3×3 block of cells around the cell of `position`,
    /// row by row; within a cell in the order they were added.
    #[must_use]
    pub fn neighbors(&self, position: Vec2) -> (r: Vec<V>)
        requires
            self.wf(),
        ensures
            r@ == self.gather(block_regions(region_of(position, self.spec_cell_size()))),
    {
        let (x, y) = self.vec2_to_region(position);
        assert(((y + 1) - (y - 1) + 1) * ((x + 1) - (x - 1) + 1) == 9) by (nonlinear_arith);
        let regions = cartesian_block(y - 1, y + 1, x - 1, x + 1);
        let ghost block = block_regions((x as int, y as int));
        let mut out: Vec<V> = Vec::new();
        let mut k: usize = 0;
        assert(block.take(0) =~= Seq::<(int, int)>::empty());
        while k < regions.len()
            invariant
                regions@.len() == 9,
                forall|j: int|
                    0 <= j < 9 ==> #[trigger] regions@[j] == ((y - 1 + j / 3) as i64, (x - 1 + j % 3)
                        as i64),
                block == block_regions((x as int, y as int)),
                -0x8000_0000 <= x < 0x8000_0000,
                -0x8000_0000 <= y < 0x8000_0000,
                0 <= k <= 9,
                out@ == self.gather(block.take(k as int)),
            decreases 9 - k,
        {
            let (ry, rx) = regions[k];
            assert(-0x8000_0001 <= rx <= 0x8000_0000 && -0x8000_0001 <= ry <= 0x8000_0000);
            let key = region_key_exec((rx, ry));
            let ghost c = (rx as int, ry as int);
            assert(c == block[k as int]);
            assert(block.take(k + 1).drop_last() =~= block.take(k as int));
            match self.map.get(&key) {
                Some(bucket) => {
                    let ghost before = out@;
                    let mut i: usize = 0;
                    while i < bucket.len()
                        invariant
                            0 <= i <= bucket@.len(),
                            out@ == before + bucket@.take(i as int),
                        decreases bucket@.len() - i,
                    {
                        out.push(bucket[i]);
                        i += 1;
                        assert(bucket@.take(i as int) =~= bucket@.take(i - 1).push(bucket@[i - 1]));
                        assert(out@ =~= before + bucket@.take(i as int));
                    }
                    assert(bucket@.take(i as int) =~= bucket@);
                },
                None => {
                    assert(out@ =~= out@ + self.cell(c));
                },
            }
            k += 1;
        }
        assert(block.take(9) =~= block);
        out
    }
}

} // verus!
