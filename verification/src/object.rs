//! Joining the primitives of a mesh into one list of triangles.

use vstd::prelude::*;

verus! {

/// One primitive of a mesh as its file holds it: how many vertices it
/// brings, and the corners of its triangles as indices into those
/// vertices, three to a triangle.
pub struct Primitive {
    pub vertices: u32,
    pub indices: Vec<u32>,
}

/// The number of vertices in the first `k` primitives: where the vertices
/// of primitive `k` begin once all are laid end to end.
pub open spec fn vertices_before(primitives: Seq<Primitive>, k: int) -> int
    decreases k,
{
    if k <= 0 {
        0
    } else {
        vertices_before(primitives, k - 1) + primitives[k - 1].vertices
    }
}

/// The indices of the first `k` primitives laid end to end, each moved to
/// where its primitive's vertices begin.
pub open spec fn joined_indices(primitives: Seq<Primitive>, k: int) -> Seq<int>
    decreases k,
{
    if k <= 0 {
        Seq::empty()
    } else {
        joined_indices(primitives, k - 1) + Seq::new(
            primitives[k - 1].indices@.len(),
            |j: int| primitives[k - 1].indices@[j] + vertices_before(primitives, k - 1),
        )
    }
}

/// The mesh can be joined: its vertices can be counted in 32 bits, and
/// every index, once moved, names one of them.
pub open spec fn is_joinable(primitives: Seq<Primitive>) -> bool {
    let total = vertices_before(primitives, primitives.len() as int);
    let joined = joined_indices(primitives, primitives.len() as int);
    &&& total <= u32::MAX
    &&& forall|i: int| 0 <= i < joined.len() ==> 0 <= #[trigger] joined[i] < total
}

/// `triangles` cuts `joined` into threes; what is left over at the end
/// belongs to no triangle.
pub open spec fn cut_in_threes(triangles: Seq<[u32; 3]>, joined: Seq<int>) -> bool {
    &&& triangles.len() == joined.len() / 3
    &&& forall|t: int|
        0 <= t < triangles.len() ==> {
            &&& (#[trigger] triangles[t])@[0] == joined[3 * t]
            &&& triangles[t]@[1] == joined[3 * t + 1]
            &&& triangles[t]@[2] == joined[3 * t + 2]
        }
}

/// Joins the primitives of a mesh into one list of triangles over one list
/// of vertices: the vertices of all primitives laid end to end, every index
/// moved accordingly. `None` for a mesh that cannot be joined.
pub fn join_primitives(primitives: &[Primitive]) -> (r: Option<Vec<[u32; 3]>>)
    ensures
        r is Some <==> is_joinable(primitives@),
        r matches Some(triangles) ==> cut_in_threes(
            triangles@,
            joined_indices(primitives@, primitives@.len() as int),
        ),
{
    let n: usize = primitives.len();
    let mut total: u64 = 0;
    let mut k: usize = 0;
    while k < n
        invariant
            n == primitives@.len(),
            k <= n,
            total == vertices_before(primitives@, k as int),
        decreases n - k,
    {
        if total > 0xffff_ffff {
            proof {
                lemma_vertices_grow(primitives@, k as int, n as int);
            }
            return None;
        }
        total = total + primitives[k].vertices as u64;
        k += 1;
    }
    if total > 0xffff_ffff {
        return None;
    }
    let mut joined: Vec<u32> = Vec::new();
    let mut offset: u64 = 0;
    k = 0;
    while k < n
        invariant
            n == primitives@.len(),
            k <= n,
            total == vertices_before(primitives@, n as int),
            total <= 0xffff_ffff,
            offset == vertices_before(primitives@, k as int),
            joined@.len() == joined_indices(primitives@, k as int).len(),
            forall|i: int|
                0 <= i < joined@.len() ==> #[trigger] joined@[i] == joined_indices(
                    primitives@,
                    k as int,
                )[i],
            forall|i: int| 0 <= i < joined@.len() ==> #[trigger] joined@[i] < total,
        decreases n - k,
    {
        proof {
            lemma_vertices_grow(primitives@, k as int, n as int);
        }
        let indices = &primitives[k].indices;
        let m: usize = indices.len();
        let ghost before = joined@;
        let mut j: usize = 0;
        while j < m
            invariant
                m == indices@.len(),
                j <= m,
                k < n,
                n == primitives@.len(),
                indices@ == primitives@[k as int].indices@,
                offset == vertices_before(primitives@, k as int),
                offset <= total <= 0xffff_ffff,
                total == vertices_before(primitives@, n as int),
                before.len() == joined_indices(primitives@, k as int).len(),
                joined@.len() == before.len() + j,
                forall|i: int| 0 <= i < before.len() ==> #[trigger] joined@[i] == before[i],
                forall|i: int|
                    0 <= i < j ==> #[trigger] joined@[before.len() + i] == indices@[i] + offset,
                forall|i: int| 0 <= i < joined@.len() ==> #[trigger] joined@[i] < total,
            decreases m - j,
        {
            let moved: u64 = indices[j] as u64 + offset;
            if moved >= total {
                proof {
                    let whole = joined_indices(primitives@, n as int);
                    lemma_joined_prefix(primitives@, k + 1, n as int);
                    let here = joined_indices(primitives@, k + 1);
                    assert(here[before.len() + j] == indices@[j as int] + offset);
                    assert(whole[before.len() + j] == here[before.len() + j]);
                }
                return None;
            }
            joined.push(moved as u32);
            j += 1;
        }
        proof {
            let here = joined_indices(primitives@, k + 1);
            assert forall|i: int| 0 <= i < joined@.len() implies #[trigger] joined@[i] == here[i] by {
                if i >= before.len() {
                    assert(joined@[before.len() + (i - before.len())] == indices@[i
                        - before.len()] + offset);
                }
            }
        }
        offset = offset + primitives[k].vertices as u64;
        k += 1;
    }
    let count: usize = joined.len() / 3;
    let mut triangles: Vec<[u32; 3]> = Vec::new();
    let mut t: usize = 0;
    while t < count
        invariant
            count == joined@.len() / 3,
            joined@.len() <= usize::MAX,
            t <= count,
            triangles@.len() == t,
            forall|i: int|
                0 <= i < t ==> {
                    &&& (#[trigger] triangles@[i])@[0] == joined@[3 * i]
                    &&& triangles@[i]@[1] == joined@[3 * i + 1]
                    &&& triangles@[i]@[2] == joined@[3 * i + 2]
                },
        decreases count - t,
    {
        let triangle: [u32; 3] = [joined[3 * t], joined[3 * t + 1], joined[3 * t + 2]];
        triangles.push(triangle);
        t += 1;
    }
    proof {
        let whole = joined_indices(primitives@, n as int);
        assert forall|i: int| 0 <= i < whole.len() implies 0 <= #[trigger] whole[i] < total by {
            assert(joined@[i] == whole[i]);
        }
        assert forall|i: int| 0 <= i < triangles@.len() implies {
            &&& (#[trigger] triangles@[i])@[0] == whole[3 * i]
            &&& triangles@[i]@[1] == whole[3 * i + 1]
            &&& triangles@[i]@[2] == whole[3 * i + 2]
        } by {
            assert(joined@[3 * i] == whole[3 * i]);
            assert(joined@[3 * i + 1] == whole[3 * i + 1]);
            assert(joined@[3 * i + 2] == whole[3 * i + 2]);
        }
    }
    Some(triangles)
}

/// Counting more primitives never counts fewer vertices.
proof fn lemma_vertices_grow(primitives: Seq<Primitive>, k: int, n: int)
    requires
        0 <= k <= n,
    ensures
        0 <= vertices_before(primitives, k) <= vertices_before(primitives, n),
    decreases n,
{
    if k < n {
        lemma_vertices_grow(primitives, k, n - 1);
    } else if k > 0 {
        lemma_vertices_grow(primitives, k - 1, k - 1);
    }
}

/// The indices joined from the first `k` primitives begin the indices
/// joined from the first `n`.
proof fn lemma_joined_prefix(primitives: Seq<Primitive>, k: int, n: int)
    requires
        0 <= k <= n,
    ensures
        joined_indices(primitives, k).len() <= joined_indices(primitives, n).len(),
        forall|i: int|
            0 <= i < joined_indices(primitives, k).len() ==> joined_indices(primitives, n)[i]
                == #[trigger] joined_indices(primitives, k)[i],
    decreases n,
{
    if k < n {
        lemma_joined_prefix(primitives, k, n - 1);
    }
}

} // verus!
