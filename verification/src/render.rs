//! Small pieces of the renderer that hold no GPU state of their own.
use vstd::prelude::*;

verus! {

/// A buffer of vertices on the GPU, with the number of vertices it holds.
#[derive(Debug)]
pub struct VertexBuffer<B> {
    pub buffer: B,
    len: u32,
}

impl<B> VertexBuffer<B> {
    /// The buffer handle.
    pub closed spec fn handle(&self) -> B {
        self.buffer
    }

    /// The number of vertices, as recorded when the buffer was made.
    pub closed spec fn vertex_count(&self) -> u32 {
        self.len
    }

    /// A buffer holding `vertex_count` vertices; the count is kept as a `u32`,
    /// truncated.
    pub fn from_buffer(buffer: B, vertex_count: usize) -> (v: Self)
        ensures
            v.handle() == buffer,
            v.vertex_count() == vertex_count as u32,
    {
        VertexBuffer { buffer, len: #[verifier::truncate] (vertex_count as u32) }
    }

    /// The number of vertices.
    pub fn len(&self) -> (n: u32)
        ensures
            n == self.vertex_count(),
    {
        self.len
    }
}

/// `floor(log2 x)`, and 0 for 0: the bucket of a distance.
pub open spec fn log2_floor(x: nat) -> nat
    decreases x,
{
    if x < 2 {
        0
    } else {
        1 + log2_floor(x / 2)
    }
}

/// A larger distance is in the same bucket or a later one.
pub proof fn lemma_log2_floor_monotone(x: nat, y: nat)
    requires
        x <= y,
    ensures
        log2_floor(x) <= log2_floor(y),
    decreases y,
{
    if x >= 2 {
        lemma_log2_floor_monotone(x / 2, y / 2);
    }
}

proof fn lemma_log2_floor_le(x: nat)
    ensures
        log2_floor(x) <= x,
    decreases x,
{
    if x >= 2 {
        lemma_log2_floor_le(x / 2);
    }
}

/// The bucket of a distance: `checked_ilog2`, with 0 for 0.
pub fn distance_bucket(d: u32) -> (b: u32)
    ensures
        b == log2_floor(d as nat),
{
    let mut x: u32 = d;
    let mut n: u32 = 0;
    proof {
        lemma_log2_floor_le(d as nat);
    }
    while x >= 2
        invariant
            n + log2_floor(x as nat) == log2_floor(d as nat),
            log2_floor(d as nat) <= d,
        decreases x,
    {
        assert(log2_floor(x as nat) == 1 + log2_floor((x / 2) as nat));
        x = x / 2;
        n = n + 1;
    }
    n
}

/// The groups as sequences.
pub open spec fn group_seqs(g: Seq<Vec<usize>>) -> Seq<Seq<usize>> {
    g.map_values(|v: Vec<usize>| v@)
}

/// The bucket of the distance of index `i`.
pub open spec fn bucket_at(distances: Seq<u32>, i: usize) -> nat {
    log2_floor(distances[i as int] as nat)
}

/// `s` lists indices below `n`, each at most once, by distance.
pub open spec fn sorted_indices(distances: Seq<u32>, s: Seq<usize>, n: nat) -> bool {
    &&& s.no_duplicates()
    &&& forall|k: int| 0 <= k < s.len() ==> #[trigger] s[k] < n
    &&& forall|a: int, b: int|
        0 <= a < b < s.len() ==> distances[#[trigger] s[a] as int] <= distances[#[trigger] s[b] as int]
}

/// The order of the cells by distance, then grouped into passes: the indices
/// of `distances` sorted by distance, and cut into groups of one bucket of
/// the distance (`checked_ilog2`, with 0 for 0) each. Together the groups
/// list each index once, sorted by distance; each group is not empty and all
/// its indices are in one bucket, and the buckets of the groups increase.
pub fn distance_groups(distances: &Vec<u32>) -> (g: Vec<Vec<usize>>)
    ensures
        group_seqs(g@).flatten().len() == distances@.len(),
        sorted_indices(distances@, group_seqs(g@).flatten(), distances@.len()),
        forall|gi: int| 0 <= gi < g@.len() ==> (#[trigger] g@[gi])@.len() > 0,
        forall|gi: int, a: int|
            0 <= gi < g@.len() && 0 <= a < g@[gi]@.len() ==> bucket_at(
                distances@,
                #[trigger] g@[gi]@[a],
            ) == bucket_at(distances@, g@[gi]@[0]),
        forall|gi: int, gj: int|
            0 <= gi < gj < g@.len() ==> bucket_at(distances@, (#[trigger] g@[gi])@[0]) < bucket_at(
                distances@,
                (#[trigger] g@[gj])@[0],
            ),
{
    let n = distances.len();
    let ghost d = distances@;
    // sort the indices by distance, keeping equal distances in index order
    let mut order: Vec<usize> = Vec::new();
    let mut i: usize = 0;
    while i < n
        invariant
            n == d.len(),
            d == distances@,
            i <= n,
            order@.len() == i,
            sorted_indices(d, order@, i as nat),
        decreases n - i,
    {
        let di = distances[i];
        let mut p: usize = 0;
        while p < order.len()
            invariant
                n == d.len(),
                d == distances@,
                i < n,
                di == d[i as int],
                p <= order@.len(),
                sorted_indices(d, order@, i as nat),
                forall|k: int| 0 <= k < p ==> d[#[trigger] order@[k] as int] <= di,
            ensures
                p <= order@.len(),
                forall|k: int| 0 <= k < p ==> d[#[trigger] order@[k] as int] <= di,
                p < order@.len() ==> d[order@[p as int] as int] > di,
            decreases order@.len() - p,
        {
            if distances[order[p]] > di {
                break;
            }
            p = p + 1;
        }
        let ghost s = order@;
        proof {
            assert forall|k: int| p <= k < s.len() implies d[#[trigger] s[k] as int] > di by {
                if p < s.len() {
                    assert(d[s[p as int] as int] > di);
                    if k > p {
                        assert(d[s[p as int] as int] <= d[s[k] as int]);
                    }
                }
            }
        }
        order.insert(p, i);
        proof {
            let r = order@;
            assert(r == s.insert(p as int, i));
            assert forall|a: int, b: int| 0 <= a < b < r.len() implies r[a] != r[b] && d[
                #[trigger] r[a] as int] <= d[#[trigger] r[b] as int] by {
                if b < p {
                    assert(r[a] == s[a] && r[b] == s[b]);
                } else if b == p {
                    assert(r[a] == s[a]);
                } else if a < p {
                    assert(r[a] == s[a] && r[b] == s[b - 1]);
                } else if a == p {
                    assert(r[b] == s[b - 1]);
                } else {
                    assert(r[a] == s[a - 1] && r[b] == s[b - 1]);
                }
            }
            assert forall|k: int| 0 <= k < r.len() implies #[trigger] r[k] < i + 1 by {
                if k < p {
                    assert(r[k] == s[k]);
                } else if k > p {
                    assert(r[k] == s[k - 1]);
                }
            }
        }
        i = i + 1;
    }
    // cut the order into runs of one bucket
    let mut groups: Vec<Vec<usize>> = Vec::new();
    let mut cur: Vec<usize> = Vec::new();
    let mut cb: u32 = 0;
    let mut t: usize = 0;
    while t < n
        invariant
            n == d.len(),
            d == distances@,
            order@.len() == n,
            sorted_indices(d, order@, n as nat),
            t <= n,
            group_seqs(groups@).flatten() + cur@ == order@.take(t as int),
            t == 0 ==> cur@.len() == 0 && groups@.len() == 0,
            t > 0 ==> cur@.len() > 0 && cb == bucket_at(d, order@[t - 1]),
            forall|a: int| 0 <= a < cur@.len() ==> bucket_at(d, #[trigger] cur@[a]) == cb,
            forall|gi: int| 0 <= gi < groups@.len() ==> (#[trigger] groups@[gi])@.len() > 0,
            forall|gi: int, a: int|
                0 <= gi < groups@.len() && 0 <= a < groups@[gi]@.len() ==> bucket_at(
                    d,
                    #[trigger] groups@[gi]@[a],
                ) == bucket_at(d, groups@[gi]@[0]),
            forall|gi: int, gj: int|
                0 <= gi < gj < groups@.len() ==> bucket_at(d, (#[trigger] groups@[gi])@[0])
                    < bucket_at(d, (#[trigger] groups@[gj])@[0]),
            forall|gi: int| 0 <= gi < groups@.len() ==> bucket_at(d, (#[trigger] groups@[gi])@[0]) < cb,
        decreases n - t,
    {
        let x = order[t];
        let b = distance_bucket(distances[x]);
        proof {
            if t > 0 {
                assert(d[order@[t - 1] as int] <= d[order@[t as int] as int]);
                lemma_log2_floor_monotone(d[order@[t - 1] as int] as nat, d[x as int] as nat);
            }
            assert(order@.take(t + 1) =~= order@.take(t as int).push(x));
        }
        if t == 0 || b == cb {
            cur.push(x);
            cb = b;
            proof {
                assert(group_seqs(groups@).flatten() + cur@ =~= (group_seqs(groups@).flatten()
                    + cur@.drop_last()).push(x));
            }
        } else {
            let ghost old_groups = groups@;
            let ghost old_cur = cur@;
            let done = cur;
            groups.push(done);
            cur = Vec::new();
            cur.push(x);
            cb = b;
            proof {
                assert(group_seqs(groups@) =~= group_seqs(old_groups).push(old_cur));
                group_seqs(old_groups).lemma_flatten_push(old_cur);
                assert(group_seqs(groups@).flatten() + cur@ =~= (group_seqs(old_groups).flatten()
                    + old_cur).push(x));
                assert forall|gi: int| 0 <= gi < groups@.len() implies bucket_at(
                    d,
                    (#[trigger] groups@[gi])@[0],
                ) < cb by {
                    if gi < old_groups.len() {
                        assert(groups@[gi] == old_groups[gi]);
                    }
                }
            }
        }
        t = t + 1;
    }
    if cur.len() > 0 {
        let ghost old_groups = groups@;
        let ghost old_cur = cur@;
        groups.push(cur);
        proof {
            assert(group_seqs(groups@) =~= group_seqs(old_groups).push(old_cur));
            group_seqs(old_groups).lemma_flatten_push(old_cur);
        }
    } else {
        proof {
            assert(cur@ =~= Seq::<usize>::empty());
            assert(group_seqs(groups@).flatten() + cur@ =~= group_seqs(groups@).flatten());
        }
    }
    proof {
        assert(order@.take(n as int) =~= order@);
    }
    groups
}

} // verus!
