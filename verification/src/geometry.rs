//! Display geometry and pixel-index transpositions.
//!
//! A transposition chain maps a logical (raster) pixel index to the physical
//! wiring position. Every primitive transform is an involution on
//! `[0, size)`, so any chain of them is a bijection; the chain is precomputed
//! once per run into a table of destination indices.

use vstd::prelude::*;
use vstd::arithmetic::div_mod::*;

verus! {

/// The shape of the display: a bare pixel count or a 2-D grid.
#[derive(Clone, Copy, PartialEq, Eq, Structural, Debug)]
pub enum Dimensions {
    One(usize),
    Two(usize, usize),
}

impl Dimensions {
    /// Size at least one pixel, and a 2-D grid's total pixel count representable.
    pub open spec fn valid(self) -> bool {
        match self {
            Dimensions::One(n) => 1 <= n,
            Dimensions::Two(w, h) => 1 <= w && 1 <= h && w * h <= usize::MAX,
        }
    }

    /// Total pixel count.
    pub open spec fn size_spec(self) -> int {
        match self {
            Dimensions::One(n) => n as int,
            Dimensions::Two(w, h) => w * h,
        }
    }

    /// Total pixel count: the count itself, or width times height.
    pub fn size(&self) -> (n: usize)
        requires
            self.valid(),
        ensures
            n == self.size_spec(),
            n >= 1,
    {
        match self {
            Dimensions::One(n) => *n,
            Dimensions::Two(w, h) => {
                proof {
                    let wi = *w as int;
                    let hi = *h as int;
                    assert(1 * 1 <= wi * hi) by (nonlinear_arith)
                        requires 1 <= wi && 1 <= hi;
                }
                *w * *h
            },
        }
    }
}

/// A named pixel-index transform. The set is closed and fixed at
/// configuration time.
#[derive(Clone, Copy, PartialEq, Eq, Structural, Debug)]
pub enum Transform {
    /// Destination = `size - 1 - index`.
    Reverse,
    /// Alternate rows run right-to-left, matching serpentine wiring along x.
    ZigzagX,
    /// Alternate columns run bottom-to-top, matching serpentine wiring along y.
    ZigzagY,
}

/// A configuration rejected before any frame is processed.
#[derive(Clone, Copy, PartialEq, Eq, Structural, Debug)]
pub enum ConfigError {
    /// A zigzag transform was requested against 1-D dimensions.
    ZigzagRequires2d,
}

/// Whether a transform may be used with the given dimensions: the zigzags
/// need a 2-D grid.
pub open spec fn transform_allowed(dims: Dimensions, t: Transform) -> bool {
    match t {
        Transform::Reverse => true,
        Transform::ZigzagX => dims is Two,
        Transform::ZigzagY => dims is Two,
    }
}

/// Whether every transform of a chain may be used with the given dimensions.
pub open spec fn chain_allowed(dims: Dimensions, ops: Seq<Transform>) -> bool {
    forall|k: int| 0 <= k < ops.len() ==> transform_allowed(dims, #[trigger] ops[k])
}

/// Destination index of one transform for source index `i`.
pub open spec fn apply_transform(dims: Dimensions, t: Transform, i: int) -> int {
    match t {
        Transform::Reverse => dims.size_spec() - 1 - i,
        Transform::ZigzagX => match dims {
            Dimensions::Two(w, h) => {
                let y = i / (w as int);
                let x = i % (w as int);
                if y % 2 == 1 {
                    y * w + (w - 1 - x)
                } else {
                    i
                }
            },
            Dimensions::One(_) => i,
        },
        Transform::ZigzagY => match dims {
            Dimensions::Two(w, h) => {
                let y = i / (w as int);
                let x = i % (w as int);
                if x % 2 == 1 {
                    (h - 1 - y) * w + x
                } else {
                    i
                }
            },
            Dimensions::One(_) => i,
        },
    }
}

/// Every primitive transform stays inside `[0, size)` and undoes itself:
/// applying it twice is the identity.
pub proof fn lemma_transform_involution(dims: Dimensions, t: Transform, i: int)
    requires
        dims.valid(),
        transform_allowed(dims, t),
        0 <= i < dims.size_spec(),
    ensures
        0 <= apply_transform(dims, t, i) < dims.size_spec(),
        apply_transform(dims, t, apply_transform(dims, t, i)) == i,
{
    match t {
        Transform::Reverse => {},
        Transform::ZigzagX => {
            match dims {
                Dimensions::Two(w0, h0) => {
                    let w = w0 as int;
                    let h = h0 as int;
                    lemma_fundamental_div_mod(i, w);
                    lemma_mod_bound(i, w);
                    let y = i / w;
                    let x = i % w;
                    lemma_div_pos_is_pos(i, w);
                    assert(y < h) by (nonlinear_arith)
                        requires i < w * h && i == w * y + x && 0 <= x && 0 <= y && 1 <= w;
                    if y % 2 == 1 {
                        let j = y * w + (w - 1 - x);
                        assert(j < w * h) by (nonlinear_arith)
                            requires j == y * w + (w - 1 - x) && y < h && 0 <= x < w && 1 <= w;
                        lemma_fundamental_div_mod_converse(j, w, y, w - 1 - x);
                        assert(apply_transform(dims, t, j) == y * w + (w - 1 - (w - 1 - x)));
                        assert(y * w + x == i) by (nonlinear_arith)
                            requires i == w * y + x;
                    }
                },
                Dimensions::One(_) => {},
            }
        },
        Transform::ZigzagY => {
            match dims {
                Dimensions::Two(w0, h0) => {
                    let w = w0 as int;
                    let h = h0 as int;
                    lemma_fundamental_div_mod(i, w);
                    lemma_mod_bound(i, w);
                    let y = i / w;
                    let x = i % w;
                    lemma_div_pos_is_pos(i, w);
                    assert(y < h) by (nonlinear_arith)
                        requires i < w * h && i == w * y + x && 0 <= x && 0 <= y && 1 <= w;
                    if x % 2 == 1 {
                        let j = (h - 1 - y) * w + x;
                        assert(0 <= j < w * h) by (nonlinear_arith)
                            requires j == (h - 1 - y) * w + x && 0 <= y < h && 0 <= x < w && 1 <= w;
                        lemma_fundamental_div_mod_converse(j, w, h - 1 - y, x);
                        assert(apply_transform(dims, t, j) == (h - 1 - (h - 1 - y)) * w + x);
                        assert(y * w + x == i) by (nonlinear_arith)
                            requires i == w * y + x;
                    }
                },
                Dimensions::One(_) => {},
            }
        },
    }
}

/// Destination index after the whole chain: the destination produced by
/// transform `k` becomes the source passed into transform `k + 1`.
pub open spec fn chain_apply(dims: Dimensions, ops: Seq<Transform>, i: int) -> int
    decreases ops.len(),
{
    if ops.len() == 0 {
        i
    } else {
        chain_apply(dims, ops.skip(1), apply_transform(dims, ops[0], i))
    }
}

/// The chain run backwards: because each primitive transform is its own
/// inverse, applying the transforms in reverse order inverts the chain.
pub open spec fn chain_unapply(dims: Dimensions, ops: Seq<Transform>, j: int) -> int
    decreases ops.len(),
{
    if ops.len() == 0 {
        j
    } else {
        apply_transform(dims, ops[0], chain_unapply(dims, ops.skip(1), j))
    }
}

/// The chain stays inside `[0, size)` and is undone by `chain_unapply`.
pub proof fn lemma_chain_left_inverse(dims: Dimensions, ops: Seq<Transform>, i: int)
    requires
        dims.valid(),
        chain_allowed(dims, ops),
        0 <= i < dims.size_spec(),
    ensures
        0 <= chain_apply(dims, ops, i) < dims.size_spec(),
        chain_unapply(dims, ops, chain_apply(dims, ops, i)) == i,
    decreases ops.len(),
{
    if ops.len() > 0 {
        let j = apply_transform(dims, ops[0], i);
        lemma_transform_involution(dims, ops[0], i);
        lemma_chain_left_inverse(dims, ops.skip(1), j);
    }
}

/// `chain_unapply` stays inside `[0, size)` and is undone by the chain:
/// together with the lemma above, the chain is a bijection on `[0, size)`.
pub proof fn lemma_chain_right_inverse(dims: Dimensions, ops: Seq<Transform>, j: int)
    requires
        dims.valid(),
        chain_allowed(dims, ops),
        0 <= j < dims.size_spec(),
    ensures
        0 <= chain_unapply(dims, ops, j) < dims.size_spec(),
        chain_apply(dims, ops, chain_unapply(dims, ops, j)) == j,
    decreases ops.len(),
{
    if ops.len() > 0 {
        let u = chain_unapply(dims, ops.skip(1), j);
        lemma_chain_right_inverse(dims, ops.skip(1), j);
        lemma_transform_involution(dims, ops[0], u);
    }
}

/// For all valid dimensions and allowed transform chains, the resulting
/// index map is a bijection on `[0, size)`: it stays in range, never sends
/// two indices to the same destination, and reaches every destination.
pub proof fn lemma_chain_bijection(dims: Dimensions, ops: Seq<Transform>)
    requires
        dims.valid(),
        chain_allowed(dims, ops),
    ensures
        forall|i: int| 0 <= i < dims.size_spec()
            ==> 0 <= #[trigger] chain_apply(dims, ops, i) < dims.size_spec(),
        forall|i1: int, i2: int|
            0 <= i1 < dims.size_spec() && 0 <= i2 < dims.size_spec()
                && #[trigger] chain_apply(dims, ops, i1) == #[trigger] chain_apply(dims, ops, i2)
            ==> i1 == i2,
        forall|j: int| 0 <= j < dims.size_spec()
            ==> 0 <= #[trigger] chain_unapply(dims, ops, j) < dims.size_spec()
                && chain_apply(dims, ops, chain_unapply(dims, ops, j)) == j,
{
    assert forall|i: int| 0 <= i < dims.size_spec()
        implies 0 <= #[trigger] chain_apply(dims, ops, i) < dims.size_spec() by {
        lemma_chain_left_inverse(dims, ops, i);
    }
    assert forall|i1: int, i2: int|
        0 <= i1 < dims.size_spec() && 0 <= i2 < dims.size_spec()
            && #[trigger] chain_apply(dims, ops, i1) == #[trigger] chain_apply(dims, ops, i2)
        implies i1 == i2 by {
        lemma_chain_left_inverse(dims, ops, i1);
        lemma_chain_left_inverse(dims, ops, i2);
    }
    assert forall|j: int| 0 <= j < dims.size_spec()
        implies 0 <= #[trigger] chain_unapply(dims, ops, j) < dims.size_spec()
            && chain_apply(dims, ops, chain_unapply(dims, ops, j)) == j by {
        lemma_chain_right_inverse(dims, ops, j);
    }
}

/// Reverse composed with itself is the identity permutation.
pub proof fn lemma_reverse_twice_identity(dims: Dimensions, i: int)
    requires
        dims.valid(),
        0 <= i < dims.size_spec(),
    ensures
        chain_apply(dims, seq![Transform::Reverse, Transform::Reverse], i) == i,
{
    let ops = seq![Transform::Reverse, Transform::Reverse];
    let s1 = seq![Transform::Reverse];
    let r1 = apply_transform(dims, Transform::Reverse, i);
    let r2 = apply_transform(dims, Transform::Reverse, r1);
    assert(ops[0] == Transform::Reverse);
    assert(chain_apply(dims, ops, i) == chain_apply(dims, ops.skip(1), r1));
    assert(ops.skip(1) =~= s1);
    assert(chain_apply(dims, s1, r1) == chain_apply(dims, s1.skip(1), r2));
    assert(s1.skip(1) =~= Seq::<Transform>::empty());
    assert(chain_apply(dims, s1.skip(1), r2) == r2);
}

/// What it means for a table to be a permutation of `[0, n)`: length `n`,
/// every entry in range, no destination used twice.
pub open spec fn is_permutation(t: Seq<usize>, n: int) -> bool {
    &&& t.len() == n
    &&& forall|i: int| 0 <= i < n ==> 0 <= #[trigger] t[i] < n
    &&& forall|i1: int, i2: int| 0 <= i1 < n && 0 <= i2 < n && i1 != i2
        ==> #[trigger] t[i1] != #[trigger] t[i2]
}

/// Destination index of one transform, executable form.
pub fn transform_index(dimensions: &Dimensions, t: Transform, i: usize) -> (j: usize)
    requires
        dimensions.valid(),
        transform_allowed(*dimensions, t),
        i < dimensions.size_spec(),
    ensures
        j == apply_transform(*dimensions, t, i as int),
        j < dimensions.size_spec(),
{
    proof {
        lemma_transform_involution(*dimensions, t, i as int);
    }
    match t {
        Transform::Reverse => dimensions.size() - 1 - i,
        Transform::ZigzagX => match dimensions {
            Dimensions::Two(w, h) => {
                let y = i / *w;
                let x = i % *w;
                proof {
                    let wi = *w as int;
                    let hi = *h as int;
                    let ii = i as int;
                    lemma_fundamental_div_mod(ii, wi);
                    lemma_mod_bound(ii, wi);
                    lemma_div_pos_is_pos(ii, wi);
                    let yi = ii / wi;
                    let xi = ii % wi;
                    assert(yi < hi) by (nonlinear_arith)
                        requires ii < wi * hi && ii == wi * yi + xi && 0 <= xi && 0 <= yi && 1 <= wi;
                    assert(yi * wi + (wi - 1 - xi) < wi * hi) by (nonlinear_arith)
                        requires yi < hi && 0 <= xi < wi && 1 <= wi;
                }
                if y % 2 == 1 {
                    y * *w + (*w - 1 - x)
                } else {
                    i
                }
            },
            Dimensions::One(_) => i,
        },
        Transform::ZigzagY => match dimensions {
            Dimensions::Two(w, h) => {
                let y = i / *w;
                let x = i % *w;
                proof {
                    let wi = *w as int;
                    let hi = *h as int;
                    let ii = i as int;
                    lemma_fundamental_div_mod(ii, wi);
                    lemma_mod_bound(ii, wi);
                    lemma_div_pos_is_pos(ii, wi);
                    let yi = ii / wi;
                    let xi = ii % wi;
                    assert(yi < hi) by (nonlinear_arith)
                        requires ii < wi * hi && ii == wi * yi + xi && 0 <= xi && 0 <= yi && 1 <= wi;
                    assert((hi - 1 - yi) * wi + xi < wi * hi) by (nonlinear_arith)
                        requires 0 <= yi < hi && 0 <= xi < wi && 1 <= wi;
                }
                if x % 2 == 1 {
                    (*h - 1 - y) * *w + x
                } else {
                    i
                }
            },
            Dimensions::One(_) => i,
        },
    }
}

/// Destination index after the whole chain, executable form.
fn chain_index(dimensions: &Dimensions, operations: &Vec<Transform>, i: usize) -> (j: usize)
    requires
        dimensions.valid(),
        chain_allowed(*dimensions, operations@),
        i < dimensions.size_spec(),
    ensures
        j == chain_apply(*dimensions, operations@, i as int),
        j < dimensions.size_spec(),
{
    let mut cur: usize = i;
    let mut k: usize = 0;
    proof {
        lemma_chain_left_inverse(*dimensions, operations@, i as int);
        assert(operations@.skip(0) =~= operations@);
    }
    while k < operations.len()
        invariant
            dimensions.valid(),
            chain_allowed(*dimensions, operations@),
            k <= operations.len(),
            0 <= cur < dimensions.size_spec(),
            chain_apply(*dimensions, operations@.skip(k as int), cur as int)
                == chain_apply(*dimensions, operations@, i as int),
            0 <= chain_apply(*dimensions, operations@, i as int) < dimensions.size_spec(),
        decreases operations.len() - k,
    {
        let ghost rest = operations@.skip(k as int);
        proof {
            assert(rest[0] == operations@[k as int]);
            assert(rest.skip(1) =~= operations@.skip(k as int + 1));
            assert(transform_allowed(*dimensions, operations@[k as int]));
        }
        cur = transform_index(dimensions, operations[k], cur);
        k = k + 1;
    }
    proof {
        assert(operations@.skip(operations@.len() as int) =~= Seq::<Transform>::empty());
    }
    cur
}

/// Build the transposition table for the given dimensions and transform
/// chain: entry `i` is where the `i`-th logical pixel lands. Fails fast with
/// a configuration error when a zigzag is requested against 1-D dimensions;
/// on success the table is a permutation of `[0, size)`.
pub fn transposition_table(dimensions: &Dimensions, operations: &Vec<Transform>) -> (r: Result<
    Vec<usize>,
    ConfigError,
>)
    requires
        dimensions.valid(),
    ensures
        match r {
            Ok(table) => {
                &&& chain_allowed(*dimensions, operations@)
                &&& table@.len() == dimensions.size_spec()
                &&& forall|i: int| 0 <= i < table@.len()
                    ==> #[trigger] table@[i] == chain_apply(*dimensions, operations@, i)
                &&& is_permutation(table@, dimensions.size_spec())
            },
            Err(e) => {
                &&& !chain_allowed(*dimensions, operations@)
                &&& e == ConfigError::ZigzagRequires2d
            },
        },
{
    let mut k: usize = 0;
    while k < operations.len()
        invariant
            k <= operations.len(),
            forall|m: int| 0 <= m < k ==> transform_allowed(*dimensions, #[trigger] operations@[m]),
        decreases operations.len() - k,
    {
        let allowed = match (operations[k], dimensions) {
            (Transform::Reverse, _) => true,
            (Transform::ZigzagX, Dimensions::Two(_, _)) => true,
            (Transform::ZigzagY, Dimensions::Two(_, _)) => true,
            _ => false,
        };
        if !allowed {
            assert(!transform_allowed(*dimensions, operations@[k as int]));
            return Err(ConfigError::ZigzagRequires2d);
        }
        k = k + 1;
    }
    let size = dimensions.size();
    let mut table: Vec<usize> = Vec::new();
    let mut i: usize = 0;
    while i < size
        invariant
            dimensions.valid(),
            chain_allowed(*dimensions, operations@),
            size == dimensions.size_spec(),
            i <= size,
            table@.len() == i,
            forall|m: int| 0 <= m < i
                ==> #[trigger] table@[m] == chain_apply(*dimensions, operations@, m),
        decreases size - i,
    {
        let j = chain_index(dimensions, operations, i);
        table.push(j);
        i = i + 1;
    }
    proof {
        lemma_chain_bijection(*dimensions, operations@);
    }
    Ok(table)
}

}
