use vstd::prelude::*;
use roaring::RoaringBitmap;

verus! {

#[verifier::external_type_specification]
#[verifier::external_body]
pub struct ExRoaringBitmap(RoaringBitmap);

/// The row indices held by a roaring bitmap.
pub uninterp spec fn bitmap_members(b: RoaringBitmap) -> Set<u32>;

/// The set of row indices `0..n`.
pub open spec fn row_range(n: u32) -> Set<u32> {
    Set::<u32>::range(0, n)
}

/// Every set of row indices is finite.
pub proof fn lemma_rows_finite(s: Set<u32>)
    ensures
        s.finite(),
{
    broadcast use vstd::set_lib::full_set_properties;
    assert(s.subset_of(Set::<u32>::full()));
    vstd::set_lib::lemma_set_subset_finite(Set::<u32>::full(), s);
}

/// The range `0..n` holds exactly `n` rows.
pub proof fn lemma_row_range_len(n: u32)
    ensures
        row_range(n).finite(),
        row_range(n).len() == n,
{
    vstd::set_lib::range_set_properties::<u32>(0, n);
}

/// The complement of a row set `p` within a partition of `n` rows holds
/// `n - |p|` rows.
pub proof fn lemma_not_cardinality(n: u32, p: Set<u32>)
    requires
        p.subset_of(row_range(n)),
    ensures
        row_range(n).difference(p).len() == n - p.len(),
{
    lemma_row_range_len(n);
    lemma_rows_finite(p);
    vstd::set_lib::lemma_set_difference_len(row_range(n), p);
    assert(row_range(n).intersect(p) =~= p);
}

/// Relies on `RoaringBitmap::new`: the new bitmap is empty.
#[verifier::external_body]
fn bitmap_new() -> (r: RoaringBitmap)
    ensures
        bitmap_members(r) == Set::<u32>::empty(),
{
    RoaringBitmap::new()
}

/// Relies on `RoaringBitmap::insert`: adds one value to the set.
#[verifier::external_body]
fn bitmap_insert(b: &mut RoaringBitmap, value: u32)
    ensures
        bitmap_members(*final(b)) == bitmap_members(*old(b)).insert(value),
{
    b.insert(value);
}

/// Relies on `RoaringBitmap::insert_range`: adds every value of `0..n`.
#[verifier::external_body]
fn bitmap_insert_range(b: &mut RoaringBitmap, n: u32)
    ensures
        bitmap_members(*final(b)) == bitmap_members(*old(b)).union(row_range(n)),
{
    b.insert_range(0..n);
}

/// Relies on `RoaringBitmap::len`: the number of distinct values in the set.
#[verifier::external_body]
fn bitmap_len(b: &RoaringBitmap) -> (r: u64)
    ensures
        r as nat == bitmap_members(*b).len(),
{
    b.len()
}

/// Relies on `RoaringBitmap::iter`: each value once, in ascending order.
#[verifier::external_body]
fn bitmap_values(b: &RoaringBitmap) -> (r: Vec<u32>)
    ensures
        forall|i: int, j: int| 0 <= i < j < r@.len() ==> r@[i] < r@[j],
        forall|x: u32| bitmap_members(*b).contains(x) <==> r@.contains(x),
{
    b.iter().collect()
}

/// Relies on `BitAnd` for `&RoaringBitmap`: the intersection of two sets.
#[verifier::external_body]
fn bitmap_and(a: &RoaringBitmap, b: &RoaringBitmap) -> (r: RoaringBitmap)
    ensures
        bitmap_members(r) == bitmap_members(*a).intersect(bitmap_members(*b)),
{
    a & b
}

/// Relies on `BitOr` for `&RoaringBitmap`: the union of two sets.
#[verifier::external_body]
fn bitmap_or(a: &RoaringBitmap, b: &RoaringBitmap) -> (r: RoaringBitmap)
    ensures
        bitmap_members(r) == bitmap_members(*a).union(bitmap_members(*b)),
{
    a | b
}

/// Relies on `Sub` for `&RoaringBitmap`: the values of `a` that are not in `b`.
#[verifier::external_body]
fn bitmap_sub(a: &RoaringBitmap, b: &RoaringBitmap) -> (r: RoaringBitmap)
    ensures
        bitmap_members(r) == bitmap_members(*a).difference(bitmap_members(*b)),
{
    a - b
}

/// Relies on `Clone` for `RoaringBitmap`: the copy holds the same values.
#[verifier::external_body]
fn bitmap_clone(b: &RoaringBitmap) -> (r: RoaringBitmap)
    ensures
        bitmap_members(r) == bitmap_members(*b),
{
    b.clone()
}

/// The size of a roaring bitmap in roaring's serialized format; it follows
/// the bitmap's containers, not only the values it holds.
pub uninterp spec fn serialized_size_of(b: RoaringBitmap) -> nat;

/// Relies on `RoaringBitmap::serialized_size`: an 8-byte header plus the size
/// of each container, so at least 8 bytes.
#[verifier::external_body]
fn bitmap_serialized_size(b: &RoaringBitmap) -> (r: usize)
    ensures
        r as nat == serialized_size_of(*b),
        r >= 8,
{
    b.serialized_size()
}

/// The outcome of evaluating a compiled operator on one partition: a set of
/// row indices of that partition.
#[derive(Debug)]
pub struct OperatorResult {
    bitmap: RoaringBitmap,
}

impl View for OperatorResult {
    type V = Set<u32>;

    closed spec fn view(&self) -> Set<u32> {
        bitmap_members(self.bitmap)
    }
}

impl OperatorResult {
    /// The empty row set.
    pub fn empty() -> (r: OperatorResult)
        ensures
            r@ == Set::<u32>::empty(),
    {
        OperatorResult { bitmap: bitmap_new() }
    }

    /// Every row of a partition with `row_count` rows.
    pub fn full(row_count: u32) -> (r: OperatorResult)
        ensures
            r@ == row_range(row_count),
    {
        let mut bitmap = bitmap_new();
        bitmap_insert_range(&mut bitmap, row_count);
        assert(bitmap_members(bitmap) =~= row_range(row_count));
        OperatorResult { bitmap }
    }

    /// The rows listed in `rows`.
    pub fn from_rows(rows: &Vec<u32>) -> (r: OperatorResult)
        ensures
            forall|x: u32| r@.contains(x) <==> rows@.contains(x),
    {
        let mut bitmap = bitmap_new();
        let mut i: usize = 0;
        while i < rows.len()
            invariant
                i <= rows@.len(),
                forall|x: u32|
                    bitmap_members(bitmap).contains(x) <==> exists|k: int|
                        0 <= k < i && #[trigger] rows@[k] == x,
            decreases rows@.len() - i,
        {
            bitmap_insert(&mut bitmap, rows[i]);
            i = i + 1;
        }
        OperatorResult { bitmap }
    }

    /// Adds row `row` to the set.
    pub fn insert(&mut self, row: u32)
        ensures
            final(self)@ == old(self)@.insert(row),
    {
        bitmap_insert(&mut self.bitmap, row);
    }

    /// The number of rows in the set.
    pub fn cardinality(&self) -> (r: u64)
        ensures
            self@.finite(),
            r as nat == self@.len(),
    {
        proof {
            lemma_rows_finite(self@);
        }
        bitmap_len(&self.bitmap)
    }

    /// The rows of the set, each once, in ascending order.
    pub fn rows(&self) -> (r: Vec<u32>)
        ensures
            forall|i: int, j: int| 0 <= i < j < r@.len() ==> r@[i] < r@[j],
            forall|x: u32| self@.contains(x) <==> r@.contains(x),
    {
        bitmap_values(&self.bitmap)
    }

    /// The rows in both sets.
    pub fn and(&self, other: &OperatorResult) -> (r: OperatorResult)
        ensures
            r@ == self@.intersect(other@),
    {
        OperatorResult { bitmap: bitmap_and(&self.bitmap, &other.bitmap) }
    }

    /// The rows in either set.
    pub fn or(&self, other: &OperatorResult) -> (r: OperatorResult)
        ensures
            r@ == self@.union(other@),
    {
        OperatorResult { bitmap: bitmap_or(&self.bitmap, &other.bitmap) }
    }

    /// The rows of `0..row_count` that are not in the set.
    pub fn not(&self, row_count: u32) -> (r: OperatorResult)
        ensures
            r@ == row_range(row_count).difference(self@),
    {
        let full = OperatorResult::full(row_count);
        OperatorResult { bitmap: bitmap_sub(&full.bitmap, &self.bitmap) }
    }

    /// The size in bytes of the set in roaring's serialized format.
    pub closed spec fn serialized_size(&self) -> nat {
        serialized_size_of(self.bitmap)
    }

    /// The size in bytes of the set in roaring's serialized format.
    pub fn size_in_bytes(&self) -> (r: usize)
        ensures
            r as nat == self.serialized_size(),
            r >= 8,
    {
        bitmap_serialized_size(&self.bitmap)
    }

    /// A second result with the same rows.
    pub fn copy(&self) -> (r: OperatorResult)
        ensures
            r@ == self@,
    {
        OperatorResult { bitmap: bitmap_clone(&self.bitmap) }
    }
}

} // verus!
