//! Kruskal's algorithm: knock down walls in a random order, but only between
//! cells that are not yet connected, tracked with a union-find structure.
use vstd::prelude::*;

use vstd::set_lib::{lemma_int_range, lemma_len_subset, lemma_set_disjoint_lens, set_int_range};

use crate::cell::{Cell, TYPE_MASK};
use crate::generators::generator::{
    lemma_flatten_push, lemma_frame_wall, lemma_frame_walling, lemma_record_pair,
    lemma_uniform_pass, lemma_wall_effect_types, types_kept, walls_every_cell, MazeGenerator,
};
use crate::generators::paths::{
    connected, inside, lemma_connected_monotone, lemma_connected_passage, lemma_connected_refl,
    lemma_connected_trans, lemma_no_open_sides, lemma_open_one_passage, lemma_open_sides_add,
    is_path, lemma_passage_symmetric, open_sides, passage, path_step_ok, perfect_maze, pos_index, Pos,
};
use crate::generators::trace::{
    change_index, distinct_positions, flatten, is_trace, replay_new, steps_view,
};
use crate::generators::walls::{facing, frame_closed, walled, walls_consistent};
use crate::maze::{cell_index, lemma_index_in_bounds, Maze, MazeChange};
use crate::utils::{scale, Draws};

verus! {

// ---------------------------------------------------------------------------
// Union-find
// ---------------------------------------------------------------------------

/// The parent links form a forest: every link points inside, and a ghost level
/// strictly increases along every link (so following links ends at a root),
/// with every level at most `bound`.
pub open spec fn forest_wf(parent: Seq<usize>, level: Seq<nat>, bound: nat) -> bool {
    &&& level.len() == parent.len()
    &&& forall|i: int|
        0 <= i < parent.len() ==> {
            &&& (#[trigger] parent[i]) < parent.len()
            &&& level[i] <= bound
            &&& parent[i] != i ==> level[i] < level[parent[i] as int]
        }
}

/// The root reached from `i` by following parent links.
pub open spec fn root_of(parent: Seq<usize>, level: Seq<nat>, bound: nat, i: int) -> int
    decreases bound - level[i],
{
    if !(0 <= i < parent.len()) || level.len() != parent.len() || parent[i] == i {
        i
    } else {
        let p = parent[i] as int;
        if 0 <= p < parent.len() && level[i] < level[p] <= bound {
            root_of(parent, level, bound, p)
        } else {
            i
        }
    }
}

/// `j` lies on the path of links from `i` to its root (both ends included).
pub open spec fn path_from(parent: Seq<usize>, level: Seq<nat>, bound: nat, i: int, j: int) -> bool
    decreases bound - level[i],
{
    if !(0 <= i < parent.len()) || level.len() != parent.len() {
        false
    } else if i == j {
        true
    } else if parent[i] == i {
        false
    } else {
        let p = parent[i] as int;
        if 0 <= p < parent.len() && level[i] < level[p] <= bound {
            path_from(parent, level, bound, p, j)
        } else {
            false
        }
    }
}

/// Along a link the path loses its first element.
proof fn lemma_path_step(parent: Seq<usize>, level: Seq<nat>, bound: nat, i: int, j: int)
    requires
        forest_wf(parent, level, bound),
        0 <= i < parent.len(),
        parent[i] != i,
    ensures
        path_from(parent, level, bound, i, j) == (j == i || path_from(
            parent,
            level,
            bound,
            parent[i] as int,
            j,
        )),
{
    let p = parent[i] as int;
    assert(parent[i] < parent.len());
    assert(parent[p] < parent.len());
    assert(level[p] <= bound);
    assert(level[i] < level[p]);
}

/// A path followed by a path is a path.
proof fn lemma_path_trans(parent: Seq<usize>, level: Seq<nat>, bound: nat, i: int, j: int, k: int)
    requires
        forest_wf(parent, level, bound),
        path_from(parent, level, bound, i, j),
        path_from(parent, level, bound, j, k),
    ensures
        path_from(parent, level, bound, i, k),
    decreases bound - level[i],
{
    if i != j {
        lemma_path_step(parent, level, bound, i, j);
        lemma_path_trans(parent, level, bound, parent[i] as int, j, k);
        lemma_path_step(parent, level, bound, i, k);
    }
}

/// Levels only grow along a path.
proof fn lemma_path_level(parent: Seq<usize>, level: Seq<nat>, bound: nat, i: int, j: int)
    requires
        forest_wf(parent, level, bound),
        path_from(parent, level, bound, i, j),
    ensures
        0 <= j < parent.len(),
        level[i] <= level[j],
    decreases bound - level[i],
{
    if i != j {
        lemma_path_level(parent, level, bound, parent[i] as int, j);
    }
}

/// The elements whose root is `r`.
pub open spec fn class_of(parent: Seq<usize>, level: Seq<nat>, bound: nat, r: int) -> Set<int> {
    Set::new(|j: int| 0 <= j < parent.len() && root_of(parent, level, bound, j) == r)
}

/// The root of an element is a root, reached by going up in level, and an
/// element shares its root with its parent.
pub proof fn lemma_root_facts(parent: Seq<usize>, level: Seq<nat>, bound: nat, i: int)
    requires
        forest_wf(parent, level, bound),
        0 <= i < parent.len(),
    ensures
        0 <= root_of(parent, level, bound, i) < parent.len(),
        parent[root_of(parent, level, bound, i)] == root_of(parent, level, bound, i),
        level[i] <= level[root_of(parent, level, bound, i)],
        root_of(parent, level, bound, i) != i ==> level[i] < level[root_of(
            parent,
            level,
            bound,
            i,
        )],
        root_of(parent, level, bound, i) == root_of(parent, level, bound, parent[i] as int),
    decreases bound - level[i],
{
    if parent[i] != i {
        let pi = parent[i] as int;
        assert(parent[pi] < parent.len());
        lemma_root_facts(parent, level, bound, pi);
    }
}

/// Pointing `x` straight at its root keeps the forest and every element's root.
pub proof fn lemma_compress(parent: Seq<usize>, level: Seq<nat>, bound: nat, x: int, r: usize)
    requires
        forest_wf(parent, level, bound),
        0 <= x < parent.len(),
        root_of(parent, level, bound, x) == r as int,
        x != r as int,
    ensures
        forest_wf(parent.update(x, r), level, bound),
        forall|j: int|
            0 <= j < parent.len() ==> root_of(parent.update(x, r), level, bound, j) == root_of(
                parent,
                level,
                bound,
                j,
            ),
{
    lemma_root_facts(parent, level, bound, x);
    let p2 = parent.update(x, r);
    assert forall|j: int| 0 <= j < parent.len() implies root_of(p2, level, bound, j) == root_of(
        parent,
        level,
        bound,
        j,
    ) by {
        lemma_compress_one(parent, level, bound, x, r, j);
    }
}

proof fn lemma_compress_one(
    parent: Seq<usize>,
    level: Seq<nat>,
    bound: nat,
    x: int,
    r: usize,
    j: int,
)
    requires
        forest_wf(parent, level, bound),
        0 <= x < parent.len(),
        0 <= j < parent.len(),
        root_of(parent, level, bound, x) == r as int,
        x != r as int,
    ensures
        root_of(parent.update(x, r), level, bound, j) == root_of(parent, level, bound, j),
    decreases bound - level[j],
{
    lemma_root_facts(parent, level, bound, x);
    let p2 = parent.update(x, r);
    if j == x {
        assert(root_of(p2, level, bound, r as int) == r as int);
    } else if parent[j] != j {
        let pj = parent[j] as int;
        assert(parent[pj] < parent.len());
        lemma_compress_one(parent, level, bound, x, r, pj);
    }
}

/// Linking root `ra` below root `rb` (raising `rb`'s level above `ra`'s) keeps a
/// forest, and sends exactly the elements whose root was `ra` to `rb`.
pub proof fn lemma_link(parent: Seq<usize>, level: Seq<nat>, bound: nat, ra: usize, rb: usize)
    requires
        forest_wf(parent, level, bound),
        ra < parent.len(),
        rb < parent.len(),
        parent[ra as int] == ra,
        parent[rb as int] == rb,
        ra != rb,
    ensures
        ({
            let l2 = level.update(rb as int, link_level(level, ra, rb));
            let b2 = if bound >= link_level(level, ra, rb) {
                bound
            } else {
                link_level(level, ra, rb)
            };
            let p2 = parent.update(ra as int, rb);
            &&& forest_wf(p2, l2, b2)
            &&& forall|j: int|
                0 <= j < parent.len() ==> root_of(p2, l2, b2, j) == if root_of(
                    parent,
                    level,
                    bound,
                    j,
                ) == ra as int {
                    rb as int
                } else {
                    root_of(parent, level, bound, j)
                }
        }),
{
    let l2 = level.update(rb as int, link_level(level, ra, rb));
    let b2 = if bound >= link_level(level, ra, rb) {
        bound
    } else {
        link_level(level, ra, rb)
    };
    let p2 = parent.update(ra as int, rb);
    assert forall|i: int| 0 <= i < p2.len() implies {
        &&& (#[trigger] p2[i]) < p2.len()
        &&& l2[i] <= b2
        &&& p2[i] != i ==> l2[i] < l2[p2[i] as int]
    } by {
        assert(parent[i] < parent.len());
    }
    assert forall|j: int| 0 <= j < parent.len() implies root_of(p2, l2, b2, j) == if root_of(
        parent,
        level,
        bound,
        j,
    ) == ra as int {
        rb as int
    } else {
        root_of(parent, level, bound, j)
    } by {
        lemma_link_one(parent, level, bound, ra, rb, j);
    }
}

/// The level a root gets when another root is linked below it.
pub open spec fn link_level(level: Seq<nat>, ra: usize, rb: usize) -> nat {
    if level[rb as int] > level[ra as int] {
        level[rb as int]
    } else {
        level[ra as int] + 1
    }
}

proof fn lemma_link_one(
    parent: Seq<usize>,
    level: Seq<nat>,
    bound: nat,
    ra: usize,
    rb: usize,
    j: int,
)
    requires
        forest_wf(parent, level, bound),
        ra < parent.len(),
        rb < parent.len(),
        parent[ra as int] == ra,
        parent[rb as int] == rb,
        ra != rb,
        0 <= j < parent.len(),
    ensures
        ({
            let l2 = level.update(rb as int, link_level(level, ra, rb));
            let b2 = if bound >= link_level(level, ra, rb) {
                bound
            } else {
                link_level(level, ra, rb)
            };
            let p2 = parent.update(ra as int, rb);
            root_of(p2, l2, b2, j) == if root_of(parent, level, bound, j) == ra as int {
                rb as int
            } else {
                root_of(parent, level, bound, j)
            }
        }),
    decreases bound - level[j],
{
    let l2 = level.update(rb as int, link_level(level, ra, rb));
    let b2 = if bound >= link_level(level, ra, rb) {
        bound
    } else {
        link_level(level, ra, rb)
    };
    let p2 = parent.update(ra as int, rb);
    if j == ra as int {
        assert(root_of(p2, l2, b2, rb as int) == rb as int);
    } else if parent[j] != j {
        let pj = parent[j] as int;
        assert(parent[pj] < parent.len());
        lemma_link_one(parent, level, bound, ra, rb, pj);
    }
}

/// Every class is a finite set of at most `parent.len()` elements.
pub proof fn lemma_class_finite(parent: Seq<usize>, level: Seq<nat>, bound: nat, r: int)
    ensures
        class_of(parent, level, bound, r).finite(),
        class_of(parent, level, bound, r).len() <= parent.len(),
{
    lemma_int_range(0, parent.len() as int);
    lemma_len_subset(class_of(parent, level, bound, r), set_int_range(0, parent.len() as int));
}

/// A union-find structure over the elements `0..n`, with path compression and
/// union by size.
pub struct UnionFind {
    parent: Vec<usize>,
    size: Vec<usize>,
    level: Ghost<Seq<nat>>,
    bound: Ghost<nat>,
}

impl UnionFind {
    /// Number of elements.
    pub closed spec fn spec_len(&self) -> nat {
        self.parent@.len()
    }

    /// The representative of the set that `i` belongs to.
    pub closed spec fn root(&self, i: int) -> int {
        root_of(self.parent@, self.level@, self.bound@, i)
    }

    /// The element that `i` links to (itself for a representative).
    pub closed spec fn spec_parent(&self, i: int) -> int {
        self.parent@[i] as int
    }

    /// The recorded size of the set whose representative is `i`.
    pub closed spec fn spec_size(&self, i: int) -> int {
        self.size@[i] as int
    }

    /// `j` lies on the path of links from `x` to its representative (both
    /// ends included).
    pub closed spec fn on_path(&self, x: int, j: int) -> bool {
        path_from(self.parent@, self.level@, self.bound@, x, j)
    }

    /// The elements that share the representative `r`.
    pub open spec fn class(&self, r: int) -> Set<int> {
        Set::new(|j: int| 0 <= j < self.spec_len() && self.root(j) == r)
    }

    /// The representatives: one element of each set.
    pub open spec fn roots(&self) -> Set<int> {
        Set::new(|i: int| 0 <= i < self.spec_len() && self.root(i) == i)
    }

    /// The set of representatives is finite, and when it has one member all
    /// elements share their representative.
    pub proof fn lemma_roots(&self)
        requires
            self.wf(),
        ensures
            self.roots().finite(),
            self.roots().len() <= self.spec_len(),
            forall|i: int| 0 <= i < self.spec_len() ==> self.roots().contains(#[trigger] self.root(i)),
            self.roots().len() == 1 ==> forall|i: int, j: int|
                0 <= i < self.spec_len() && 0 <= j < self.spec_len() ==> #[trigger] self.root(i)
                    == #[trigger] self.root(j),
    {
        lemma_int_range(0, self.spec_len() as int);
        lemma_len_subset(self.roots(), set_int_range(0, self.spec_len() as int));
        assert forall|i: int| 0 <= i < self.spec_len() implies self.roots().contains(
            #[trigger] self.root(i),
        ) by {
            self.lemma_root_is_root(i);
        }
        if self.roots().len() == 1 {
            assert forall|i: int, j: int|
                0 <= i < self.spec_len() && 0 <= j < self.spec_len() implies #[trigger] self.root(i)
                == #[trigger] self.root(j) by {
                self.lemma_root_is_root(i);
                self.lemma_root_is_root(j);
                let ri = self.root(i);
                let rj = self.root(j);
                if ri != rj {
                    assert(self.roots().remove(ri).contains(rj));
                    assert(self.roots().remove(ri).len() == 0);
                    vstd::set_lib::lemma_set_empty_equivalency_len(self.roots().remove(ri));
                }
            }
        }
    }

    /// The links form a forest over `0..n`, and every root records the size of its set.
    pub closed spec fn wf(&self) -> bool {
        &&& forest_wf(self.parent@, self.level@, self.bound@)
        &&& self.size@.len() == self.parent@.len()
        &&& forall|r: int|
            0 <= r < self.parent@.len() && #[trigger] self.parent@[r] == r ==> self.size@[r]
                == class_of(self.parent@, self.level@, self.bound@, r).len()
    }

    /// The representative of an element is an element, and is its own representative.
    pub proof fn lemma_root_is_root(&self, i: int)
        requires
            self.wf(),
            0 <= i < self.spec_len(),
        ensures
            0 <= self.root(i) < self.spec_len(),
            self.root(self.root(i)) == self.root(i),
    {
        lemma_root_facts(self.parent@, self.level@, self.bound@, i);
    }

    /// `n` elements, each in a set of its own.
    pub fn new(n: usize) -> (uf: UnionFind)
        ensures
            uf.wf(),
            uf.spec_len() == n,
            forall|i: int| 0 <= i < n ==> #[trigger] uf.root(i) == i,
            forall|i: int| 0 <= i < n ==> #[trigger] uf.spec_parent(i) == i && uf.spec_size(i) == 1,
            uf.roots() == set_int_range(0, n as int),
    {
        let mut parent: Vec<usize> = Vec::new();
        let mut size: Vec<usize> = Vec::new();
        let mut i: usize = 0;
        while i < n
            invariant
                i <= n,
                parent@.len() == i,
                size@.len() == i,
                forall|j: int| 0 <= j < i ==> #[trigger] parent@[j] == j,
                forall|j: int| 0 <= j < i ==> #[trigger] size@[j] == 1,
            decreases n - i,
        {
            parent.push(i);
            size.push(1);
            i = i + 1;
        }
        let ghost level = Seq::new(n as nat, |j: int| 0nat);
        let uf = UnionFind { parent, size, level: Ghost(level), bound: Ghost(0) };
        proof {
            assert forall|r: int|
                0 <= r < uf.parent@.len() && #[trigger] uf.parent@[r] == r implies uf.size@[r]
                == class_of(uf.parent@, uf.level@, uf.bound@, r).len() by {
                assert(class_of(uf.parent@, uf.level@, uf.bound@, r) =~= set![r]);
            }
            assert(uf.roots() =~= set_int_range(0, n as int));
        }
        uf
    }

    /// The representative of `x`'s set. Path compression re-links the
    /// elements on the way, leaving every element's representative as it was.
    pub fn find(&mut self, x: usize) -> (r: usize)
        requires
            old(self).wf(),
            x < old(self).spec_len(),
        ensures
            final(self).wf(),
            final(self).spec_len() == old(self).spec_len(),
            r as int == old(self).root(x as int),
            forall|j: int|
                0 <= j < old(self).spec_len() ==> #[trigger] final(self).root(j) == old(self).root(j),
            final(self).roots() == old(self).roots(),
            final(self).spec_parent(x as int) == r,
            forall|j: int|
                0 <= j < old(self).spec_len() ==> #[trigger] final(self).spec_parent(j) == if old(
                    self,
                ).on_path(x as int, j) {
                    r as int
                } else {
                    old(self).spec_parent(j)
                },
            forall|j: int|
                0 <= j < old(self).spec_len() ==> #[trigger] final(self).spec_parent(j) == old(self).spec_parent(j)
                    || final(self).spec_parent(j) == old(self).root(j),
            forall|j: int| 0 <= j < old(self).spec_len() ==> #[trigger] final(self).spec_size(j) == old(self).spec_size(j),
    {
        let mut root = x;
        proof {
            lemma_root_facts(self.parent@, self.level@, self.bound@, x as int);
        }
        while self.parent[root] != root
            invariant
                self.wf(),
                root < self.parent@.len(),
                root_of(self.parent@, self.level@, self.bound@, root as int) == root_of(
                    self.parent@,
                    self.level@,
                    self.bound@,
                    x as int,
                ),
            decreases self.bound@ - self.level@[root as int],
        {
            proof {
                lemma_root_facts(self.parent@, self.level@, self.bound@, root as int);
            }
            root = self.parent[root];
        }
        let ghost p0 = self.parent@;
        let mut cur = x;
        while cur != root
            invariant
                self.wf(),
                self.size@ == old(self).size@,
                self.level@ == old(self).level@,
                self.bound@ == old(self).bound@,
                self.parent@.len() == p0.len(),
                p0 == old(self).parent@,
                root < self.parent@.len(),
                cur < self.parent@.len(),
                self.parent@[root as int] == root,
                root_of(self.parent@, self.level@, self.bound@, cur as int) == root as int,
                forall|j: int|
                    0 <= j < p0.len() ==> #[trigger] root_of(self.parent@, self.level@, self.bound@, j)
                        == root_of(p0, self.level@, self.bound@, j),
                forall|j: int|
                    0 <= j < p0.len() ==> #[trigger] self.parent@[j] == p0[j] || (self.parent@[j] == root
                        && root_of(p0, self.level@, self.bound@, j) == root as int),
                x < p0.len(),
                forest_wf(p0, self.level@, self.bound@),
                cur == x || (self.parent@[x as int] == root && self.level@[x as int] < self.level@[cur as int]),
                path_from(p0, self.level@, self.bound@, x as int, cur as int),
                forall|j: int|
                    0 <= j < p0.len() ==> #[trigger] self.parent@[j] == if path_from(
                        p0,
                        self.level@,
                        self.bound@,
                        x as int,
                        j,
                    ) && !path_from(p0, self.level@, self.bound@, cur as int, j) {
                        root
                    } else {
                        p0[j]
                    },
            decreases self.bound@ - self.level@[cur as int],
        {
            let next = self.parent[cur];
            let ghost before = self.parent@;
            proof {
                lemma_root_facts(before, self.level@, self.bound@, cur as int);
                lemma_compress(before, self.level@, self.bound@, cur as int, root);
                assert(before[cur as int] != cur);
                assert(self.level@[cur as int] < self.level@[next as int]);
            }
            self.parent.set(cur, root);
            proof {
                let p = self.parent@;
                assert(p =~= before.update(cur as int, root));
                assert(root_of(before, self.level@, self.bound@, cur as int) == root_of(
                    p0,
                    self.level@,
                    self.bound@,
                    cur as int,
                ));
                if cur != x {
                    assert(p[x as int] == before[x as int]);
                }
                assert(p0[cur as int] == next);
                assert forall|j: int| 0 <= j < p0.len() implies #[trigger] p[j] == if path_from(
                    p0,
                    self.level@,
                    self.bound@,
                    x as int,
                    j,
                ) && !path_from(p0, self.level@, self.bound@, next as int, j) {
                    root
                } else {
                    p0[j]
                } by {
                    lemma_path_step(p0, self.level@, self.bound@, cur as int, j);
                    if j == cur as int {
                        if path_from(p0, self.level@, self.bound@, next as int, j) {
                            lemma_path_level(p0, self.level@, self.bound@, next as int, j);
                        }
                    }
                }
                lemma_path_step(p0, self.level@, self.bound@, cur as int, next as int);
                lemma_path_trans(p0, self.level@, self.bound@, x as int, cur as int, next as int);
                assert forall|j: int| 0 <= j < p0.len() implies #[trigger] root_of(
                    p,
                    self.level@,
                    self.bound@,
                    j,
                ) == root_of(p0, self.level@, self.bound@, j) by {
                    assert(root_of(before, self.level@, self.bound@, j) == root_of(
                        p0,
                        self.level@,
                        self.bound@,
                        j,
                    ));
                }
                assert forall|r: int|
                    0 <= r < p.len() && #[trigger] p[r] == r implies self.size@[r] == class_of(
                    p,
                    self.level@,
                    self.bound@,
                    r,
                ).len() by {
                    assert(before[r] == r);
                    assert(class_of(p, self.level@, self.bound@, r) =~= class_of(
                        before,
                        self.level@,
                        self.bound@,
                        r,
                    ));
                }
            }
            cur = next;
        }
        assert(self.roots() =~= old(self).roots());
        root
    }

    /// Merge the sets of `a` and `b`; false when they were already one set.
    /// The smaller set is attached below the larger one (below `a`'s on a tie).
    pub fn union(&mut self, a: usize, b: usize) -> (merged: bool)
        requires
            old(self).wf(),
            a < old(self).spec_len(),
            b < old(self).spec_len(),
        ensures
            final(self).wf(),
            final(self).spec_len() == old(self).spec_len(),
            merged == (old(self).root(a as int) != old(self).root(b as int)),
            ({
                let ra = old(self).root(a as int);
                let rb = old(self).root(b as int);
                let (winner, loser) = if old(self).class(ra).len() < old(self).class(rb).len() {
                    (rb, ra)
                } else {
                    (ra, rb)
                };
                forall|j: int|
                    0 <= j < old(self).spec_len() ==> #[trigger] final(self).root(j) == if merged
                        && old(self).root(j) == loser {
                        winner
                    } else {
                        old(self).root(j)
                    }
            }),
            final(self).root(a as int) == final(self).root(b as int),
            ({
                let ra = old(self).root(a as int);
                let rb = old(self).root(b as int);
                let loser = if old(self).class(ra).len() < old(self).class(rb).len() {
                    ra
                } else {
                    rb
                };
                final(self).roots() == if merged {
                    old(self).roots().remove(loser)
                } else {
                    old(self).roots()
                }
            }),
            ({
                let ra = old(self).root(a as int);
                let rb = old(self).root(b as int);
                let (winner, loser) = if old(self).class(ra).len() < old(self).class(rb).len() {
                    (rb, ra)
                } else {
                    (ra, rb)
                };
                &&& merged ==> final(self).spec_parent(loser) == winner && final(self).spec_size(winner)
                    == old(self).spec_size(winner) + old(self).spec_size(loser)
                &&& forall|j: int|
                    0 <= j < old(self).spec_len() && !(merged && j == loser) ==> #[trigger] final(self).spec_parent(j)
                        == old(self).spec_parent(j) || final(self).spec_parent(j) == old(self).root(j)
                &&& forall|j: int|
                    0 <= j < old(self).spec_len() && !(merged && j == winner) ==> #[trigger] final(self).spec_size(j)
                        == old(self).spec_size(j)
            }),
    {
        let root_a = self.find(a);
        let root_b = self.find(b);
        proof {
            assert(self.root(a as int) == old(self).root(a as int));
            assert(self.root(b as int) == old(self).root(b as int));
            lemma_root_facts(self.parent@, self.level@, self.bound@, a as int);
            lemma_root_facts(self.parent@, self.level@, self.bound@, b as int);
            assert(self.class(root_a as int) =~= old(self).class(root_a as int));
            assert(self.class(root_b as int) =~= old(self).class(root_b as int));
            assert(self.class(root_a as int) =~= class_of(
                self.parent@,
                self.level@,
                self.bound@,
                root_a as int,
            ));
            assert(self.class(root_b as int) =~= class_of(
                self.parent@,
                self.level@,
                self.bound@,
                root_b as int,
            ));
        }
        if root_a == root_b {
            return false;
        }
        if self.size[root_a] < self.size[root_b] {
            self.link(root_a, root_b);
        } else {
            self.link(root_b, root_a);
        }
        true
    }

    /// Attach root `ra` below root `rb` and add its size to `rb`'s.
    fn link(&mut self, ra: usize, rb: usize)
        requires
            old(self).wf(),
            ra < old(self).spec_len(),
            rb < old(self).spec_len(),
            ra != rb,
            old(self).root(ra as int) == ra,
            old(self).root(rb as int) == rb,
        ensures
            final(self).wf(),
            final(self).spec_len() == old(self).spec_len(),
            forall|j: int|
                0 <= j < old(self).spec_len() ==> #[trigger] final(self).root(j) == if old(self).root(
                    j,
                ) == ra as int {
                    rb as int
                } else {
                    old(self).root(j)
                },
            final(self).spec_parent(ra as int) == rb,
            forall|j: int|
                0 <= j < old(self).spec_len() && j != ra ==> #[trigger] final(self).spec_parent(j)
                    == old(self).spec_parent(j),
            final(self).spec_size(rb as int) == old(self).spec_size(rb as int) + old(self).spec_size(
                ra as int,
            ),
            forall|j: int|
                0 <= j < old(self).spec_len() && j != rb ==> #[trigger] final(self).spec_size(j)
                    == old(self).spec_size(j),
    {
        let ghost p = self.parent@;
        let ghost l = self.level@;
        let ghost b = self.bound@;
        proof {
            lemma_root_facts(p, l, b, ra as int);
            lemma_root_facts(p, l, b, rb as int);
            lemma_link(p, l, b, ra, rb);
            let ca = class_of(p, l, b, ra as int);
            let cb = class_of(p, l, b, rb as int);
            lemma_class_finite(p, l, b, ra as int);
            lemma_class_finite(p, l, b, rb as int);
            lemma_set_disjoint_lens(ca, cb);
            assert(ca.disjoint(cb));
            lemma_int_range(0, p.len() as int);
            lemma_len_subset(ca + cb, set_int_range(0, p.len() as int));
            assert(self.parent.len() == p.len());
            assert(p[ra as int] == ra);
            assert(p[rb as int] == rb);
            assert(self.size@[ra as int] == ca.len());
            assert(self.size@[rb as int] == cb.len());
        }
        let new_size = self.size[rb] + self.size[ra];
        self.parent.set(ra, rb);
        self.size.set(rb, new_size);
        proof {
            let l2 = l.update(rb as int, link_level(l, ra, rb));
            let b2 = if b >= link_level(l, ra, rb) {
                b
            } else {
                link_level(l, ra, rb)
            };
            self.level = Ghost(l2);
            self.bound = Ghost(b2);
            let p2 = self.parent@;
            assert(p2 =~= p.update(ra as int, rb));
            assert forall|r: int|
                0 <= r < p2.len() && #[trigger] p2[r] == r implies self.size@[r] == class_of(
                p2,
                l2,
                b2,
                r,
            ).len() by {
                if r == rb as int {
                    assert(class_of(p2, l2, b2, r) =~= class_of(p, l, b, ra as int) + class_of(
                        p,
                        l,
                        b,
                        rb as int,
                    ));
                } else {
                    assert(r != ra as int);
                    assert(class_of(p2, l2, b2, r) =~= class_of(p, l, b, r));
                }
            }
        }
    }
}

// ---------------------------------------------------------------------------
// The generator
// ---------------------------------------------------------------------------

/// Builds a maze with Kruskal's algorithm.
pub struct Kruskals;

impl Kruskals {
    pub fn new() -> Kruskals {
        Kruskals
    }
}

/// A candidate wall: the boundary between (row, col) and the cell below it
/// (direction (1, 0)) or to its right (direction (0, 1)), inside the grid.
pub open spec fn inner_wall_ok(wall: (u32, u32, i32, i32), width: u32, height: u32) -> bool {
    ||| wall.2 == 1 && wall.3 == 0 && wall.0 + 1 < height && wall.1 < width
    ||| wall.2 == 0 && wall.3 == 1 && wall.0 < height && wall.1 + 1 < width
}

/// The cell on the first side of a candidate wall.
pub open spec fn wall_from(e: (u32, u32, i32, i32)) -> Pos {
    (e.0, e.1)
}

/// The cell on the other side of a candidate wall.
pub open spec fn wall_to(e: (u32, u32, i32, i32)) -> Pos {
    ((e.0 + e.2) as u32, (e.1 + e.3) as u32)
}

/// The candidate walls of cell (r, c): the one below it, then the one to its
/// right, where they are inner walls.
pub open spec fn cell_walls(width: u32, height: u32, r: int, c: int) -> Seq<(u32, u32, i32, i32)> {
    (if r + 1 < height {
        seq![(r as u32, c as u32, 1i32, 0i32)]
    } else {
        Seq::empty()
    }) + (if c + 1 < width {
        seq![(r as u32, c as u32, 0i32, 1i32)]
    } else {
        Seq::empty()
    })
}

/// The candidate walls of the first `c` cells of row `r`, in order.
pub open spec fn row_walls(width: u32, height: u32, r: int, c: int) -> Seq<(u32, u32, i32, i32)>
    decreases c,
{
    if c <= 0 {
        Seq::empty()
    } else {
        row_walls(width, height, r, c - 1) + cell_walls(width, height, r, c - 1)
    }
}

/// The candidate walls of the first `r` rows, in row-major order.
pub open spec fn wall_listing(width: u32, height: u32, r: int) -> Seq<(u32, u32, i32, i32)>
    decreases r,
{
    if r <= 0 {
        Seq::empty()
    } else {
        wall_listing(width, height, r - 1) + row_walls(width, height, r - 1, width as int)
    }
}

/// The list after the shuffle's steps from position `i` down: each step
/// swaps entry `i - 1` with entry `scale(words[next], i)`, and takes the
/// next word.
pub open spec fn shuffled(
    list: Seq<(u32, u32, i32, i32)>,
    words: Seq<u32>,
    next: int,
    i: int,
) -> Seq<(u32, u32, i32, i32)>
    decreases i,
{
    if i <= 1 {
        list
    } else {
        let j = scale(words[next], i as u64) as int;
        shuffled(list.update(i - 1, list[j]).update(j, list[i - 1]), words, next + 1, i - 1)
    }
}

/// The candidate walls in the order the shuffle leaves them, drawing from
/// `words` at `next`: the row-major listing, shuffled from its last entry down.
pub open spec fn kruskal_order(width: u32, height: u32, words: Seq<u32>, next: int) -> Seq<(u32, u32, i32, i32)> {
    shuffled(
        wall_listing(width, height, height as int),
        words,
        next,
        wall_listing(width, height, height as int).len() as int,
    )
}

/// After at most one first step, each step opens a wall of `order`, in the
/// order they come there, and a wall of `order` is opened exactly when its
/// two cells do not yet reach each other (starting from `start`).
pub open spec fn knocked_from(
    steps: Seq<Seq<MazeChange>>,
    order: Seq<(u32, u32, i32, i32)>,
    start: Seq<Cell>,
    width: u32,
    height: u32,
) -> bool {
    exists|chosen: Seq<int>|
        steps.len() <= chosen.len() + 1 && #[trigger] knocked_in_order(steps, order, chosen) && greedy(
            start,
            width,
            height,
            steps,
            order,
            chosen,
        )
}

/// The shuffle from position `i` down leaves the entries from `i` on where
/// they are, and keeps the list's length.
proof fn lemma_shuffle_keeps_tail(list: Seq<(u32, u32, i32, i32)>, words: Seq<u32>, next: int, i: int)
    requires
        i <= list.len(),
    ensures
        shuffled(list, words, next, i).len() == list.len(),
        forall|k: int| i <= k < list.len() ==> #[trigger] shuffled(list, words, next, i)[k] == list[k],
    decreases i,
{
    if i > 1 {
        let j = scale(words[next], i as u64) as int;
        crate::utils::lemma_scale_below(words[next], i as u64);
        let l2 = list.update(i - 1, list[j]).update(j, list[i - 1]);
        lemma_shuffle_keeps_tail(l2, words, next + 1, i - 1);
    }
}

/// Swapping two entries keeps the entries, counted with repetition.
proof fn lemma_swap_multiset(list: Seq<(u32, u32, i32, i32)>, i: int, j: int)
    requires
        0 <= i < list.len(),
        0 <= j < list.len(),
    ensures
        list.update(i, list[j]).update(j, list[i]).to_multiset() == list.to_multiset(),
{
    broadcast use vstd::seq_lib::to_multiset_update, vstd::multiset::group_multiset_axioms;

    let l1 = list.update(i, list[j]);
    let a = list[j];
    let b = list[i];
    assert(l1[j] == a);
    assert(list.to_multiset().count(b) > 0) by {
        vstd::seq_lib::to_multiset_contains(list, b);
        assert(list.contains(b)) by {
            assert(list[i] == b);
        }
    }
    assert(l1.update(j, b).to_multiset() =~= list.to_multiset());
}

/// The shuffle from position `i` down keeps the list's entries, counted with
/// repetition: it only reorders them.
pub proof fn lemma_shuffle_permutes(list: Seq<(u32, u32, i32, i32)>, words: Seq<u32>, next: int, i: int)
    requires
        i <= list.len(),
        i <= u64::MAX,
    ensures
        shuffled(list, words, next, i).to_multiset() == list.to_multiset(),
    decreases i,
{
    if i > 1 {
        let j = scale(words[next], i as u64) as int;
        crate::utils::lemma_scale_below(words[next], i as u64);
        lemma_swap_multiset(list, i - 1, j);
        let l2 = list.update(i - 1, list[j]).update(j, list[i - 1]);
        lemma_shuffle_permutes(l2, words, next + 1, i - 1);
    }
}

/// What the shuffle does with its first draw: for a list of at least two
/// entries, the last position of the shuffled part (`n - 1`) ends up holding
/// the entry at `floor(words[next] * n / 2^32)` of the list, and the entries
/// from `n` on stay where they are. So the smallest first word moves the
/// first entry to the end, and different first words pick different
/// entries.
pub proof fn lemma_shuffle_law(list: Seq<(u32, u32, i32, i32)>, words: Seq<u32>, next: int, n: int)
    requires
        2 <= n <= list.len(),
        n <= u64::MAX,
    ensures
        shuffled(list, words, next, n).len() == list.len(),
        shuffled(list, words, next, n)[n - 1] == list[(words[next] as int * n) / 0x1_0000_0000],
        forall|k: int| n <= k < list.len() ==> #[trigger] shuffled(list, words, next, n)[k] == list[k],
{
    let j = scale(words[next], n as u64) as int;
    crate::utils::lemma_scale_below(words[next], n as u64);
    assert(j == (words[next] as int * n) / 0x1_0000_0000);
    let l2 = list.update(n - 1, list[j]).update(j, list[n - 1]);
    lemma_shuffle_keeps_tail(l2, words, next + 1, n - 1);
    lemma_shuffle_keeps_tail(list, words, next, n);
    assert(l2[n - 1] == list[j]);
}

/// The wall order of Kruskal's algorithm for a grid with at least two inner
/// walls holds every wall of the row-major listing once, and ends with the
/// wall of the listing that the first draw selects: the one at
/// `floor(words[next] * count / 2^32)`.
pub proof fn lemma_kruskal_order_last(width: u32, height: u32, words: Seq<u32>, next: int)
    requires
        2 <= wall_listing(width, height, height as int).len() <= u64::MAX,
    ensures
        ({
            let listing = wall_listing(width, height, height as int);
            let order = kruskal_order(width, height, words, next);
            &&& order.len() == listing.len()
            &&& order.to_multiset() == listing.to_multiset()
            &&& order[order.len() - 1] == listing[(words[next] as int * listing.len()) / 0x1_0000_0000]
        }),
{
    let listing = wall_listing(width, height, height as int);
    lemma_shuffle_law(listing, words, next, listing.len() as int);
    lemma_shuffle_permutes(listing, words, next, listing.len() as int);
}

/// The step opens the candidate wall `e`: its first change is at the cell on
/// the first side, its second at the cell on the other side.
pub open spec fn knocks_down(step: Seq<MazeChange>, e: (u32, u32, i32, i32)) -> bool {
    &&& step.len() == 2
    &&& (step[0].row, step[0].col) == wall_from(e)
    &&& (step[1].row, step[1].col) == wall_to(e)
}

/// The last `chosen.len()` steps open, in order, the walls of `order` at the
/// strictly increasing positions `chosen`.
pub open spec fn knocked_in_order(
    steps: Seq<Seq<MazeChange>>,
    order: Seq<(u32, u32, i32, i32)>,
    chosen: Seq<int>,
) -> bool {
    &&& chosen.len() <= steps.len()
    &&& forall|t: int| 0 <= t < chosen.len() ==> 0 <= #[trigger] chosen[t] < order.len()
    &&& forall|t1: int, t2: int| 0 <= t1 < t2 < chosen.len() ==> #[trigger] chosen[t1] < #[trigger] chosen[t2]
    &&& forall|t: int|
        0 <= t < chosen.len() ==> knocks_down(
            #[trigger] steps[steps.len() - chosen.len() + t],
            order[chosen[t]],
        )
}

/// `e` occurs in the list.
pub open spec fn listed(walls: Seq<(u32, u32, i32, i32)>, e: (u32, u32, i32, i32)) -> bool {
    exists|k: int| 0 <= k < walls.len() && walls[k] == e
}

/// The walls below and to the right of (r, c), where they are inner walls, are listed.
pub open spec fn fully_listed(
    walls: Seq<(u32, u32, i32, i32)>,
    width: u32,
    height: u32,
    r: u32,
    c: u32,
) -> bool {
    &&& r + 1 < height ==> listed(walls, (r, c, 1, 0))
    &&& c + 1 < width ==> listed(walls, (r, c, 0, 1))
}

/// The two sides of the candidate wall are in the same set.
pub open spec fn same_set(uf: UnionFind, width: u32, e: (u32, u32, i32, i32)) -> bool {
    uf.root(pos_index(width, wall_from(e))) == uf.root(pos_index(width, wall_to(e)))
}

/// Cells in the same set can reach each other.
pub open spec fn sets_are_connected(uf: UnionFind, cells: Seq<Cell>, width: u32, height: u32) -> bool {
    forall|a: Pos, b: Pos|
        inside(a, width, height) && inside(b, width, height) && uf.root(pos_index(width, a))
            == uf.root(pos_index(width, b)) ==> #[trigger] connected(cells, width, height, a, b)
}

/// A step that opens the wall between two neighbours: two changes, each
/// clearing the wall that faces the other cell.
pub open spec fn removes_one_wall(step: Seq<MazeChange>) -> bool {
    &&& step.len() == 2
    &&& match facing(step[0].row, step[0].col, step[1].row, step[1].col) {
        Some((w1, w2)) => step[0].new@ == step[0].old@ & !w1 && step[1].new@ == step[1].old@ & !w2,
        None => false,
    }
}

/// Pushing keeps what was listed and lists the pushed wall.
proof fn lemma_listed_push(walls: Seq<(u32, u32, i32, i32)>, x: (u32, u32, i32, i32), e: (u32, u32, i32, i32))
    ensures
        listed(walls, e) ==> listed(walls.push(x), e),
        listed(walls.push(x), x),
{
    if listed(walls, e) {
        let k = choose|k: int| 0 <= k < walls.len() && walls[k] == e;
        assert(walls.push(x)[k] == e);
    }
    assert(walls.push(x)[walls.len() as int] == x);
}

/// Swapping two entries keeps what was listed.
proof fn lemma_listed_swap(walls: Seq<(u32, u32, i32, i32)>, i: int, j: int, e: (u32, u32, i32, i32))
    requires
        0 <= i < walls.len(),
        0 <= j < walls.len(),
        listed(walls, e),
    ensures
        listed(walls.update(i, walls[j]).update(j, walls[i]), e),
{
    let s2 = walls.update(i, walls[j]).update(j, walls[i]);
    let k = choose|k: int| 0 <= k < walls.len() && walls[k] == e;
    if k == i {
        assert(s2[j] == e);
    } else if k == j {
        assert(s2[i] == e);
    } else {
        assert(s2[k] == e);
    }
}

/// When every inner wall has both its sides in the same set, all cells are in one set.
proof fn lemma_grid_one_set(uf: UnionFind, width: u32, height: u32)
    requires
        forall|r: u32, c: u32|
            r < height && c < width ==> {
                &&& c + 1 < width ==> #[trigger] uf.root(cell_index(width, r, c)) == uf.root(
                    cell_index(width, r, (c + 1) as u32),
                )
                &&& r + 1 < height ==> uf.root(cell_index(width, r, c)) == uf.root(
                    cell_index(width, (r + 1) as u32, c),
                )
            },
    ensures
        forall|r: u32, c: u32|
            r < height && c < width ==> #[trigger] uf.root(cell_index(width, r, c)) == uf.root(
                cell_index(width, 0, 0),
            ),
{
    assert forall|r: u32, c: u32| r < height && c < width implies #[trigger] uf.root(
        cell_index(width, r, c),
    ) == uf.root(cell_index(width, 0, 0)) by {
        lemma_grid_column(uf, width, height, r);
        lemma_grid_row(uf, width, height, r, c);
    }
}

proof fn lemma_grid_column(uf: UnionFind, width: u32, height: u32, r: u32)
    requires
        r < height,
        0 < width,
        forall|r: u32, c: u32|
            r < height && c < width ==> {
                &&& c + 1 < width ==> #[trigger] uf.root(cell_index(width, r, c)) == uf.root(
                    cell_index(width, r, (c + 1) as u32),
                )
                &&& r + 1 < height ==> uf.root(cell_index(width, r, c)) == uf.root(
                    cell_index(width, (r + 1) as u32, c),
                )
            },
    ensures
        uf.root(cell_index(width, r, 0)) == uf.root(cell_index(width, 0, 0)),
    decreases r,
{
    if r > 0 {
        lemma_grid_column(uf, width, height, (r - 1) as u32);
        assert(uf.root(cell_index(width, (r - 1) as u32, 0)) == uf.root(
            cell_index(width, r, 0),
        ));
    }
}

proof fn lemma_grid_row(uf: UnionFind, width: u32, height: u32, r: u32, c: u32)
    requires
        r < height,
        c < width,
        forall|r: u32, c: u32|
            r < height && c < width ==> {
                &&& c + 1 < width ==> #[trigger] uf.root(cell_index(width, r, c)) == uf.root(
                    cell_index(width, r, (c + 1) as u32),
                )
                &&& r + 1 < height ==> uf.root(cell_index(width, r, c)) == uf.root(
                    cell_index(width, (r + 1) as u32, c),
                )
            },
    ensures
        uf.root(cell_index(width, r, c)) == uf.root(cell_index(width, r, 0)),
    decreases c,
{
    if c > 0 {
        lemma_grid_row(uf, width, height, r, (c - 1) as u32);
        assert(uf.root(cell_index(width, r, (c - 1) as u32)) == uf.root(
            cell_index(width, r, c),
        ));
    }
}

/// When every passage joins cells of one set, cells that reach each other
/// are in one set.
proof fn lemma_connected_same_set(
    cells: Seq<Cell>,
    width: u32,
    height: u32,
    uf: UnionFind,
    a: Pos,
    b: Pos,
)
    requires
        connected(cells, width, height, a, b),
        forall|x: Pos, y: Pos|
            inside(x, width, height) && inside(y, width, height) && #[trigger] passage(
                cells,
                width,
                x,
                y,
            ) ==> uf.root(pos_index(width, x)) == uf.root(pos_index(width, y)),
    ensures
        uf.root(pos_index(width, a)) == uf.root(pos_index(width, b)),
{
    let p = choose|p: Seq<Pos>| #[trigger] is_path(cells, width, height, p) && p[0] == a && p.last() == b;
    lemma_path_same_set(cells, width, height, uf, p, p.len() - 1);
}

proof fn lemma_path_same_set(
    cells: Seq<Cell>,
    width: u32,
    height: u32,
    uf: UnionFind,
    p: Seq<Pos>,
    k: int,
)
    requires
        is_path(cells, width, height, p),
        0 <= k < p.len(),
        forall|x: Pos, y: Pos|
            inside(x, width, height) && inside(y, width, height) && #[trigger] passage(
                cells,
                width,
                x,
                y,
            ) ==> uf.root(pos_index(width, x)) == uf.root(pos_index(width, y)),
    ensures
        uf.root(pos_index(width, p[0])) == uf.root(pos_index(width, p[k])),
    decreases k,
{
    if k > 0 {
        lemma_path_same_set(cells, width, height, uf, p, k - 1);
        assert(path_step_ok(cells, width, p, k - 1));
        assert(inside(p[k - 1], width, height));
        assert(inside(p[k], width, height));
    }
}

/// How many of the increasing positions `chosen` lie below `j`.
pub open spec fn count_below(chosen: Seq<int>, j: int) -> int
    decreases chosen.len(),
{
    if chosen.len() == 0 {
        0
    } else if chosen.last() < j {
        chosen.len() as int
    } else {
        count_below(chosen.drop_last(), j)
    }
}

proof fn lemma_count_below_bound(chosen: Seq<int>, j: int)
    ensures
        0 <= count_below(chosen, j) <= chosen.len(),
    decreases chosen.len(),
{
    if chosen.len() > 0 && chosen.last() >= j {
        lemma_count_below_bound(chosen.drop_last(), j);
    }
}

proof fn lemma_count_below_push(chosen: Seq<int>, k: int, j: int)
    requires
        j <= k,
    ensures
        count_below(chosen.push(k), j) == count_below(chosen, j),
{
    assert(chosen.push(k).drop_last() =~= chosen);
}

/// Kruskal's rule: each wall of `order` is knocked down (its position is in
/// `chosen`) exactly when its two cells do not yet reach each other in the
/// maze built by the steps before it (the walling step and the walls knocked
/// down at earlier positions).
pub open spec fn greedy(
    start: Seq<Cell>,
    width: u32,
    height: u32,
    steps: Seq<Seq<MazeChange>>,
    order: Seq<(u32, u32, i32, i32)>,
    chosen: Seq<int>,
) -> bool {
    forall|j: int|
        0 <= j < order.len() ==> (chosen.contains(j) <==> !connected(
            replay_new(start, width, flatten(steps.take(1 + #[trigger] count_below(chosen, j)))),
            width,
            height,
            wall_from(order[j]),
            wall_to(order[j]),
        ))
}

/// After merging the sets of `x` and `y` and opening the passage between
/// them, cells in the same set can still reach each other.
proof fn lemma_merge_connects(
    old_cells: Seq<Cell>,
    new_cells: Seq<Cell>,
    width: u32,
    height: u32,
    uf0: UnionFind,
    uf1: UnionFind,
    x: Pos,
    y: Pos,
    winner: int,
    loser: int,
)
    requires
        inside(x, width, height),
        inside(y, width, height),
        passage(new_cells, width, x, y),
        forall|a: Pos, b: Pos|
            inside(a, width, height) && inside(b, width, height) && #[trigger] passage(
                old_cells,
                width,
                a,
                b,
            ) ==> #[trigger] passage(new_cells, width, a, b),
        sets_are_connected(uf0, old_cells, width, height),
        (winner == uf0.root(pos_index(width, x)) && loser == uf0.root(pos_index(width, y))) || (
        winner == uf0.root(pos_index(width, y)) && loser == uf0.root(pos_index(width, x))),
        forall|j: int|
            0 <= j < width as int * height as int ==> #[trigger] uf1.root(j) == if uf0.root(j)
                == loser {
                winner
            } else {
                uf0.root(j)
            },
    ensures
        sets_are_connected(uf1, new_cells, width, height),
{
    assert forall|a: Pos, b: Pos|
        inside(a, width, height) && inside(b, width, height) && uf1.root(pos_index(width, a))
            == uf1.root(pos_index(width, b)) implies #[trigger] connected(
        new_cells,
        width,
        height,
        a,
        b,
    ) by {
        lemma_index_in_bounds(width, height, a.0, a.1);
        lemma_index_in_bounds(width, height, b.0, b.1);
        lemma_index_in_bounds(width, height, x.0, x.1);
        lemma_index_in_bounds(width, height, y.0, y.1);
        let pa = pos_index(width, a);
        let pb = pos_index(width, b);
        let px = pos_index(width, x);
        let py = pos_index(width, y);
        assert(uf1.root(pa) == if uf0.root(pa) == loser { winner } else { uf0.root(pa) });
        assert(uf1.root(pb) == if uf0.root(pb) == loser { winner } else { uf0.root(pb) });
        if uf0.root(pa) == uf0.root(pb) {
            assert(connected(old_cells, width, height, a, b));
            lemma_connected_monotone(old_cells, new_cells, width, height, a, b);
        } else if uf0.root(pa) == uf0.root(px) {
            assert(uf0.root(pb) == uf0.root(py));
            assert(connected(old_cells, width, height, a, x));
            assert(connected(old_cells, width, height, y, b));
            lemma_connected_monotone(old_cells, new_cells, width, height, a, x);
            lemma_connected_monotone(old_cells, new_cells, width, height, y, b);
            lemma_connected_passage(new_cells, width, height, x, y);
            lemma_connected_trans(new_cells, width, height, a, x, y);
            lemma_connected_trans(new_cells, width, height, a, y, b);
        } else {
            assert(uf0.root(pa) == uf0.root(py));
            assert(uf0.root(pb) == uf0.root(px));
            assert(connected(old_cells, width, height, a, y));
            assert(connected(old_cells, width, height, x, b));
            lemma_connected_monotone(old_cells, new_cells, width, height, a, y);
            lemma_connected_monotone(old_cells, new_cells, width, height, x, b);
            lemma_passage_symmetric(new_cells, width, x, y);
            lemma_connected_passage(new_cells, width, height, y, x);
            lemma_connected_trans(new_cells, width, height, a, y, x);
            lemma_connected_trans(new_cells, width, height, a, x, b);
        }
    }
}

pub open spec fn min_int(a: int, b: int) -> int {
    if a <= b {
        a
    } else {
        b
    }
}

/// How many candidate walls the cells before (row, col) contribute, in
/// row-major order (for a grid with at least one row and one column).
pub open spec fn walls_listed(width: int, height: int, row: int, col: int) -> int {
    row * (width - 1) + min_int(row, height - 1) * width + (if row + 1 < height {
        col
    } else {
        0
    }) + min_int(col, width - 1)
}

/// The number of inner walls of a `width` x `height` grid.
pub open spec fn inner_wall_count(width: u32, height: u32) -> int {
    if width == 0 || height == 0 {
        0
    } else {
        height * (width - 1) + (height - 1) * width
    }
}

/// How many draws shuffling the inner walls takes.
pub open spec fn shuffle_draws(width: u32, height: u32) -> int {
    if inner_wall_count(width, height) > 1 {
        inner_wall_count(width, height) - 1
    } else {
        0
    }
}

proof fn lemma_walls_listed_row_end(width: int, height: int, row: int)
    requires
        width >= 1,
        height >= 1,
        0 <= row,
    ensures
        walls_listed(width, height, row, width) == walls_listed(width, height, row + 1, 0),
{
    assert((row + 1) * (width - 1) == row * (width - 1) + (width - 1)) by (nonlinear_arith);
    assert(min_int(row + 1, height - 1) * width == min_int(row, height - 1) * width + (if row
        + 1 < height {
        width
    } else {
        0
    })) by (nonlinear_arith)
        requires
            min_int(row + 1, height - 1) == min_int(row, height - 1) + (if row + 1 < height {
                1int
            } else {
                0
            }),
    ;
}

impl MazeGenerator for Kruskals {
    open spec fn accepts(&self, width: u32, height: u32) -> bool {
        true
    }

    /// Wall every cell, list the inner walls, shuffle them (one draw per wall
    /// but the first), then knock down each wall whose two sides are not yet
    /// connected, until every cell is connected. Returns `None` exactly when
    /// there are fewer draws than the shuffle needs. The result is a perfect
    /// maze: after the walling step there is one step per knocked-down wall,
    /// one fewer than there are cells, and every cell can reach every other.
    /// The walls knocked down are, in order, walls of the shuffled list.
    fn generate_maze_steps(&mut self, original_maze: &Maze, draws: &mut Draws) -> (r: Option<
        Vec<Vec<MazeChange>>,
    >)
        ensures
            r is Some <==> old(draws).spec_words().len() - old(draws).spec_next() >= shuffle_draws(
                original_maze.spec_width(),
                original_maze.spec_height(),
            ),
            r is Some ==> final(draws).spec_next() == old(draws).spec_next() + shuffle_draws(
                original_maze.spec_width(),
                original_maze.spec_height(),
            ),
            r matches Some(steps) ==> {
                let built = replay_new(
                    original_maze.spec_cells(),
                    original_maze.spec_width(),
                    flatten(steps_view(steps@)),
                );
                &&& frame_closed(built, original_maze.spec_width(), original_maze.spec_height())
                &&& perfect_maze(built, original_maze.spec_width(), original_maze.spec_height())
                &&& types_kept(original_maze.spec_cells(), built)
                &&& forall|k: int|
                    0 <= k < steps@.len() ==> distinct_positions(
                        original_maze.spec_width(),
                        #[trigger] steps@[k]@,
                    )
                &&& steps@.len() == original_maze.spec_width() as int * original_maze.spec_height() as int
                &&& steps@.len() > 0 ==> walls_every_cell(
                    steps@[0]@,
                    original_maze.spec_cells(),
                    original_maze.spec_width(),
                )
                &&& forall|k: int| 1 <= k < steps@.len() ==> removes_one_wall(#[trigger] steps@[k]@)
            },
            r matches Some(steps) ==> knocked_from(
                steps_view(steps@),
                kruskal_order(
                    original_maze.spec_width(),
                    original_maze.spec_height(),
                    old(draws).spec_words(),
                    old(draws).spec_next() as int,
                ),
                original_maze.spec_cells(),
                original_maze.spec_width(),
                original_maze.spec_height(),
            ),
    {
        let mut steps: Vec<Vec<MazeChange>> = Vec::new();
        let mut maze = original_maze.clone();
        let ghost start = maze.spec_cells();
        let ghost width = maze.spec_width();
        let ghost height = maze.spec_height();
        let h = maze.height() as usize;
        let w = maze.width() as usize;
        let total_cells = h * w;

        // Make all into walls
        let walling_step: Vec<MazeChange> = self.add_all_walls(&mut maze);
        proof {
            lemma_uniform_pass(start, width, height, walling_step@, maze.spec_cells(), true);
            crate::generators::trace::lemma_full_pass_order(
                start,
                width,
                height,
                walling_step@,
                maze.spec_cells(),
                crate::generators::generator::every_position(),
                crate::generators::generator::with_all_walls(),
            );
            assert(walls_every_cell(walling_step@, start, width));
            lemma_frame_walling(start, width, height, walling_step@, maze.spec_cells(), true);
            assert(0x0fu8 & 0xf0u8 == 0) by (bit_vector);
            assert forall|i: int| 0 <= i < maze.spec_cells().len() implies walled(
                #[trigger] maze.spec_cells()[i],
            ) && maze.spec_cells()[i]@ & TYPE_MASK == start[i]@ & TYPE_MASK by {
                assert(maze.spec_cells()[i] == crate::cell::cell_of(start[i]@ | 0x0f));
                crate::generators::walls::lemma_full_and_empty_walls(start[i]@);
                crate::cell::lemma_cell_of(start[i]@ | 0x0f, start[i]);
                crate::cell::lemma_wall_change_keeps_type(start[i]@, 0x0f);
            }
            lemma_no_open_sides(maze.spec_cells(), width, height);
            if total_cells > 0 {
                assert(crate::generators::generator::every_position()(0));
                let k0 = choose|k0: int|
                    0 <= k0 < walling_step@.len() && crate::generators::trace::change_index(
                        width,
                        #[trigger] walling_step@[k0],
                    ) == 0;
            } else if walling_step@.len() > 0 {
                assert(walling_step@[0].row < height);
            }
        }
        proof {
            assert forall|a: int, b: int| 0 <= a < b < walling_step@.len() implies change_index(
                width,
                #[trigger] walling_step@[a],
            ) != change_index(width, #[trigger] walling_step@[b]) by {}
        }
        if walling_step.len() > 0 {
            steps.push(walling_step);
            proof {
                lemma_flatten_push(Seq::empty(), walling_step);
                assert(steps@ =~= Seq::<Vec<MazeChange>>::empty().push(walling_step));
                assert(Seq::<MazeChange>::empty() + walling_step@ =~= walling_step@);
            }
        } else {
            proof {
                assert(walling_step@ =~= Seq::<MazeChange>::empty());
            }
        }

        // Collect all walls
        let mut walls: Vec<(u32, u32, i32, i32)> = Vec::new();
        proof {
            if width >= 1 && height >= 1 {
                assert(walls_listed(width as int, height as int, 0, 0) == 0) by (nonlinear_arith)
                    requires
                        width >= 1,
                        height >= 1,
                ;
            }
        }
        let mut r: u32 = 0;
        while r < maze.height()
            invariant
                maze.wf(),
                maze.spec_width() == width,
                maze.spec_height() == height,
                r <= height,
                forall|k: int| 0 <= k < walls@.len() ==> inner_wall_ok(#[trigger] walls@[k], width, height),
                width >= 1 && height >= 1 ==> walls@.len() == walls_listed(width as int, height as int, r as int, 0),
                width == 0 || height == 0 ==> walls@.len() == 0,
                forall|r2: u32, c2: u32|
                    r2 < r && c2 < width ==> #[trigger] fully_listed(walls@, width, height, r2, c2),
                walls@ == wall_listing(width, height, r as int),
            decreases height - r,
        {
            let mut c: u32 = 0;
            while c < maze.width()
                invariant
                    maze.wf(),
                    maze.spec_width() == width,
                    maze.spec_height() == height,
                    r < height,
                    c <= width,
                    forall|k: int| 0 <= k < walls@.len() ==> inner_wall_ok(#[trigger] walls@[k], width, height),
                    width >= 1 && height >= 1 ==> walls@.len() == walls_listed(width as int, height as int, r as int, c as int),
                    width == 0 || height == 0 ==> walls@.len() == 0,
                    forall|r2: u32, c2: u32|
                        (r2 < r && c2 < width) || (r2 == r && c2 < c) ==> #[trigger] fully_listed(
                            walls@,
                            width,
                            height,
                            r2,
                            c2,
                        ),
                    walls@ == wall_listing(width, height, r as int) + row_walls(width, height, r as int, c as int),
                decreases width - c,
            {
                let ghost w0 = walls@;
                if r + 1 < maze.height() {
                    walls.push((r, c, 1, 0));
                }
                let ghost w1 = walls@;
                if c + 1 < maze.width() {
                    walls.push((r, c, 0, 1));
                }
                proof {
                    assert forall|e: (u32, u32, i32, i32)| listed(w0, e) implies listed(walls@, e) by {
                        if r + 1 < height {
                            lemma_listed_push(w0, (r, c, 1, 0), e);
                        }
                        if c + 1 < width {
                            lemma_listed_push(w1, (r, c, 0, 1), e);
                        }
                    }
                    if r + 1 < height {
                        lemma_listed_push(w0, (r, c, 1, 0), (r, c, 1, 0));
                        if c + 1 < width {
                            lemma_listed_push(w1, (r, c, 0, 1), (r, c, 1, 0));
                        }
                    }
                    if c + 1 < width {
                        lemma_listed_push(w1, (r, c, 0, 1), (r, c, 0, 1));
                    }
                    assert(walls@ =~= wall_listing(width, height, r as int) + row_walls(
                        width,
                        height,
                        r as int,
                        c as int + 1,
                    ));
                    assert forall|r2: u32, c2: u32|
                        (r2 < r && c2 < width) || (r2 == r && c2 < c + 1) implies #[trigger] fully_listed(
                        walls@,
                        width,
                        height,
                        r2,
                        c2,
                    ) by {
                        if r2 != r || c2 != c {
                            assert(fully_listed(w0, width, height, r2, c2));
                        }
                    }
                }
                c = c + 1;
            }
            proof {
                if width >= 1 && height >= 1 {
                    lemma_walls_listed_row_end(width as int, height as int, r as int);
                }
            }
            r = r + 1;
        }
        proof {
            if width >= 1 && height >= 1 {
                assert(walls_listed(width as int, height as int, height as int, 0) == inner_wall_count(
                    width,
                    height,
                ));
            }
        }

        // Shuffle the walls to randomize the order
        let ghost listed_count = walls@.len();
        let mut i = walls.len();
        while i > 1
            invariant
                i <= walls@.len(),
                walls@.len() == listed_count,
                listed_count == inner_wall_count(width, height),
                forall|k: int| 0 <= k < walls@.len() ==> inner_wall_ok(#[trigger] walls@[k], width, height),
                forall|r2: u32, c2: u32|
                    r2 < height && c2 < width ==> #[trigger] fully_listed(walls@, width, height, r2, c2),
                draws.wf(),
                old(draws).advanced_to(draws),
                listed_count > 1 ==> draws.spec_next() == old(draws).spec_next() + (listed_count - 1) - (i - 1),
                listed_count <= 1 ==> draws.spec_next() == old(draws).spec_next(),
                listed_count >= 1 ==> i >= 1,
                width == original_maze.spec_width(),
                height == original_maze.spec_height(),
                shuffled(walls@, draws.spec_words(), draws.spec_next() as int, i as int) == shuffled(
                    wall_listing(width, height, height as int),
                    old(draws).spec_words(),
                    old(draws).spec_next() as int,
                    listed_count as int,
                ),
            decreases i,
        {
            i = i - 1;
            // pick a random index j in [0..=i]
            let j = match draws.below((i + 1) as u64) {
                Some(j) => j,
                None => {
                    return None;
                },
            };
            proof {
                crate::utils::lemma_scale_below(
                    draws.spec_words()[draws.spec_next() - 1],
                    (i + 1) as u64,
                );
            }
            let j = j as usize;
            let ghost before = walls@;
            let a = walls[i];
            let b = walls[j];
            walls.set(i, b);
            walls.set(j, a);
            proof {
                assert(walls@ == before.update(i as int, before[j as int]).update(j as int, before[i as int]));
                assert forall|r2: u32, c2: u32| r2 < height && c2 < width implies #[trigger] fully_listed(
                    walls@,
                    width,
                    height,
                    r2,
                    c2,
                ) by {
                    assert(fully_listed(before, width, height, r2, c2));
                    if r2 + 1 < height {
                        lemma_listed_swap(before, i as int, j as int, (r2, c2, 1, 0));
                    }
                    if c2 + 1 < width {
                        lemma_listed_swap(before, i as int, j as int, (r2, c2, 0, 1));
                    }
                }
            }
        }

        proof {
            if walls@.len() > 0 {
                assert(inner_wall_ok(walls@[0], width, height));
                assert(total_cells >= 2) by (nonlinear_arith)
                    requires
                        total_cells == width as int * height as int,
                        (width >= 1 && height >= 2) || (width >= 2 && height >= 1),
                ;
            }
        }
        let mut uf = UnionFind::new(total_cells);
        proof {
            lemma_int_range(0, total_cells as int);
            assert forall|a: Pos, b: Pos|
                inside(a, width, height) && inside(b, width, height) && #[trigger] passage(
                    maze.spec_cells(),
                    width,
                    a,
                    b,
                ) implies uf.root(pos_index(width, a)) == uf.root(pos_index(width, b)) by {
                lemma_index_in_bounds(width, height, a.0, a.1);
                assert(walled(maze.spec_cells()[pos_index(width, a)]));
            }
            assert forall|a: Pos, b: Pos|
                inside(a, width, height) && inside(b, width, height) && uf.root(pos_index(width, a))
                    == uf.root(pos_index(width, b)) implies #[trigger] connected(
                maze.spec_cells(),
                width,
                height,
                a,
                b,
            ) by {
                lemma_index_in_bounds(width, height, a.0, a.1);
                lemma_index_in_bounds(width, height, b.0, b.1);
                if pos_index(width, a) == pos_index(width, b) {
                    crate::maze::lemma_index_injective(width, a.0, a.1, b.0, b.1);
                }
                lemma_connected_refl(maze.spec_cells(), width, height, a);
            }
        }
        let ghost order = walls@;
        let ghost mut chosen: Seq<int> = Seq::empty();
        proof {
            assert(walls@ == shuffled(
                wall_listing(width, height, height as int),
                old(draws).spec_words(),
                old(draws).spec_next() as int,
                listed_count as int,
            ));
            assert(order == kruskal_order(width, height, old(draws).spec_words(), old(draws).spec_next() as int));
        }
        let mut carved: usize = 0;
        let mut k: usize = 0;
        while k < walls.len()
            invariant
                walls@ == order,
                steps@.len() > 0 ==> steps@[0]@ == walling_step@,
                walls_every_cell(walling_step@, start, width),
                order == shuffled(
                    wall_listing(width, height, height as int),
                    old(draws).spec_words(),
                    old(draws).spec_next() as int,
                    order.len() as int,
                ),
                chosen.len() == carved,
                forall|t: int| 0 <= t < chosen.len() ==> #[trigger] chosen[t] < k,
                knocked_in_order(steps_view(steps@), order, chosen),
                forall|j: int|
                    0 <= j < k ==> (chosen.contains(j) <==> !connected(
                        replay_new(start, width, flatten(steps_view(steps@).take(1 + #[trigger] count_below(chosen, j)))),
                        width,
                        height,
                        wall_from(order[j]),
                        wall_to(order[j]),
                    )),
                same_shape_as(maze, width, height),
                walls@.len() == listed_count,
                k <= walls@.len(),
                forall|k: int| 0 <= k < walls@.len() ==> inner_wall_ok(#[trigger] walls@[k], width, height),
                forall|r2: u32, c2: u32|
                    r2 < height && c2 < width ==> #[trigger] fully_listed(walls@, width, height, r2, c2),
                is_trace(start, width, height, flatten(steps_view(steps@)), maze.spec_cells()),
                walls_consistent(maze.spec_cells(), width, height),
                frame_closed(maze.spec_cells(), width, height),
                start == original_maze.spec_cells(),
                width == original_maze.spec_width(),
                height == original_maze.spec_height(),
                uf.wf(),
                uf.spec_len() == total_cells,
                total_cells == width as int * height as int,
                carved < total_cells || walls@.len() == 0,
                w == width as usize,
                h == height as usize,
                forall|k2: int| 0 <= k2 < k ==> #[trigger] same_set(uf, width, walls@[k2]),
                sets_are_connected(uf, maze.spec_cells(), width, height),
                uf.roots().finite(),
                uf.roots().len() + carved == total_cells,
                steps@.len() == (if total_cells > 0 {
                    1int
                } else {
                    0
                }) + carved,
                forall|k2: int| 1 <= k2 < steps@.len() ==> removes_one_wall(#[trigger] steps@[k2]@),
                open_sides(maze.spec_cells(), width, height).len() == carved,
                types_kept(start, maze.spec_cells()),
                forall|k2: int| 0 <= k2 < steps@.len() ==> distinct_positions(width, #[trigger] steps@[k2]@),
                forall|a: Pos, b: Pos|
                    inside(a, width, height) && inside(b, width, height) && #[trigger] passage(
                        maze.spec_cells(),
                        width,
                        a,
                        b,
                    ) ==> uf.root(pos_index(width, a)) == uf.root(pos_index(width, b)),
            ensures
                k == walls@.len() || (total_cells >= 1 && carved == total_cells - 1),
            decreases walls@.len() - k,
        {
            let (r, c, dr, dc) = walls[k];
            proof {
                assert(inner_wall_ok(walls@[k as int], width, height));
                assert(total_cells >= 2) by (nonlinear_arith)
                    requires
                        total_cells == width as int * height as int,
                        (width >= 1 && height >= 2) || (width >= 2 && height >= 1),
                ;
            }
            if carved == total_cells - 1 {
                break;
            }
            let nr = (r as i64 + dr as i64) as u32;
            let nc = (c as i64 + dc as i64) as u32;
            proof {
                lemma_index_in_bounds(width, height, r, c);
                lemma_index_in_bounds(width, height, nr, nc);
            }
            let idx1 = (r as usize) * w + (c as usize);
            let idx2 = (nr as usize) * w + (nc as usize);
            let ghost uf0 = uf;
            let ghost cells0 = maze.spec_cells();
            let ghost x: Pos = (r, c);
            let ghost y: Pos = (nr, nc);
            let ghost sv0 = steps_view(steps@);
            let ghost chosen0 = chosen;
            proof {
                uf0.lemma_roots();
                assert(wall_from(order[k as int]) == x && wall_to(order[k as int]) == y);
                if connected(cells0, width, height, x, y) {
                    lemma_connected_same_set(cells0, width, height, uf0, x, y);
                }
                assert(uf0.root(pos_index(width, x)) == uf0.root(pos_index(width, y)) ==> connected(
                    cells0,
                    width,
                    height,
                    x,
                    y,
                ));
                assert(flatten(sv0) + Seq::<MazeChange>::empty() =~= flatten(sv0));
                assert(sv0.take(sv0.len() as int) =~= sv0);
            }

            // only carve if these cells weren't already connected
            let merged = uf.union(idx1, idx2);
            let ghost ra = uf0.root(idx1 as int);
            let ghost rb = uf0.root(idx2 as int);
            let ghost loser = if uf0.class(ra).len() < uf0.class(rb).len() {
                ra
            } else {
                rb
            };
            let ghost winner = if uf0.class(ra).len() < uf0.class(rb).len() {
                rb
            } else {
                ra
            };
            proof {
                uf.lemma_roots();
                assert forall|k2: int| 0 <= k2 < k + 1 implies #[trigger] same_set(
                    uf,
                    width,
                    walls@[k2],
                ) by {
                    if k2 < k {
                        assert(same_set(uf0, width, walls@[k2]));
                        assert(inner_wall_ok(walls@[k2], width, height));
                        lemma_index_in_bounds(width, height, walls@[k2].0, walls@[k2].1);
                        lemma_index_in_bounds(
                            width,
                            height,
                            wall_to(walls@[k2]).0,
                            wall_to(walls@[k2]).1,
                        );
                        assert(uf.root(pos_index(width, wall_from(walls@[k2]))) == if uf0.root(
                            pos_index(width, wall_from(walls@[k2])),
                        ) == loser && merged {
                            winner
                        } else {
                            uf0.root(pos_index(width, wall_from(walls@[k2])))
                        });
                        assert(uf.root(pos_index(width, wall_to(walls@[k2]))) == if uf0.root(
                            pos_index(width, wall_to(walls@[k2])),
                        ) == loser && merged {
                            winner
                        } else {
                            uf0.root(pos_index(width, wall_to(walls@[k2])))
                        });
                    }
                }
            }
            if merged {
                let mut step: Vec<MazeChange> = Vec::new();
                proof {
                    lemma_record_pair(
                        start,
                        width,
                        height,
                        flatten(steps_view(steps@)),
                        maze.spec_cells(),
                        r,
                        c,
                        nr,
                        nc,
                        false,
                    );
                }
                let ghost prefix = flatten(steps_view(steps@));
                let ghost m_before = maze;
                self.remove_wall_between(&mut maze, r, c, nr, nc, &mut step);
                proof {
                    lemma_frame_wall(m_before, Seq::empty(), maze, step@, r, c, nr, nc, false, true);
                    lemma_wall_effect_types(m_before, Seq::empty(), maze, step@, r, c, nr, nc, false);
                    lemma_flatten_push(steps@, step);
                    let (w1, w2) = facing(r, c, nr, nc).unwrap();
                    assert(prefix + step@ =~= prefix.push(step@[0]).push(step@[1]));
                    let o1 = cells0[pos_index(width, x)];
                    let o2 = cells0[pos_index(width, y)];
                    crate::generators::walls::lemma_wall_bits(o1@, w1, 0);
                    crate::generators::walls::lemma_wall_bits(o2@, w2, 0);
                    crate::cell::lemma_cell_of(o1@, o1);
                    crate::cell::lemma_cell_of(o2@, o2);
                    crate::cell::lemma_cell_of(o1@ & !w1, o1);
                    crate::cell::lemma_cell_of(o2@ & !w2, o2);
                    lemma_open_one_passage(
                        cells0,
                        width,
                        height,
                        x,
                        y,
                        crate::cell::cell_of(o1@ & !w1),
                        crate::cell::cell_of(o2@ & !w2),
                    );
                    lemma_merge_connects(
                        cells0,
                        maze.spec_cells(),
                        width,
                        height,
                        uf0,
                        uf,
                        x,
                        y,
                        winner,
                        loser,
                    );
                    assert(removes_one_wall(step@));
                    assert(distinct_positions(width, step@)) by {
                        if cell_index(width, r, c) == cell_index(width, nr, nc) {
                            crate::maze::lemma_index_injective(width, r, c, nr, nc);
                        }
                    }
                    assert(uf0.roots().contains(loser));
                    assert(!passage(cells0, width, x, y));
                    lemma_open_sides_add(cells0, maze.spec_cells(), width, height, x, y);
                    assert forall|a: Pos, b: Pos|
                        inside(a, width, height) && inside(b, width, height) && #[trigger] passage(
                            maze.spec_cells(),
                            width,
                            a,
                            b,
                        ) implies uf.root(pos_index(width, a)) == uf.root(pos_index(width, b)) by {
                        lemma_index_in_bounds(width, height, a.0, a.1);
                        lemma_index_in_bounds(width, height, b.0, b.1);
                        if passage(cells0, width, a, b) {
                            assert(uf0.root(pos_index(width, a)) == uf0.root(pos_index(width, b)));
                        }
                    }
                }
                let ghost steps_before = steps_view(steps@);
                steps.push(step);
                carved = carved + 1;
                proof {
                    assert(knocks_down(step@, order[k as int]));
                    let old_chosen = chosen;
                    chosen = chosen.push(k as int);
                    let sv = steps_view(steps@);
                    assert(sv =~= steps_before.push(step@));
                    assert forall|t: int| 0 <= t < chosen.len() implies knocks_down(
                        #[trigger] sv[sv.len() - chosen.len() + t],
                        order[chosen[t]],
                    ) by {
                        if t < old_chosen.len() {
                            assert(sv[sv.len() - chosen.len() + t] == steps_before[steps_before.len()
                                - old_chosen.len() + t]);
                        }
                    }
                }
            } else {
                proof {
                    assert forall|a: Pos, b: Pos|
                        inside(a, width, height) && inside(b, width, height) && uf.root(
                            pos_index(width, a),
                        ) == uf.root(pos_index(width, b)) implies #[trigger] connected(
                        maze.spec_cells(),
                        width,
                        height,
                        a,
                        b,
                    ) by {
                        lemma_index_in_bounds(width, height, a.0, a.1);
                        lemma_index_in_bounds(width, height, b.0, b.1);
                        assert(uf.root(pos_index(width, a)) == uf0.root(pos_index(width, a)));
                        assert(uf.root(pos_index(width, b)) == uf0.root(pos_index(width, b)));
                    }
                    assert forall|a: Pos, b: Pos|
                        inside(a, width, height) && inside(b, width, height) && #[trigger] passage(
                            maze.spec_cells(),
                            width,
                            a,
                            b,
                        ) implies uf.root(pos_index(width, a)) == uf.root(pos_index(width, b)) by {
                        lemma_index_in_bounds(width, height, a.0, a.1);
                        lemma_index_in_bounds(width, height, b.0, b.1);
                        assert(uf.root(pos_index(width, a)) == uf0.root(pos_index(width, a)));
                        assert(uf.root(pos_index(width, b)) == uf0.root(pos_index(width, b)));
                    }
                }
            }
            proof {
                let sv = steps_view(steps@);
                assert(sv.len() >= sv0.len());
                assert(forall|m: int| 0 <= m <= sv0.len() ==> #[trigger] sv.take(m) =~= sv0.take(m));
                assert forall|j: int| 0 <= j < k + 1 implies (chosen.contains(j) <==> !connected(
                    replay_new(start, width, flatten(sv.take(1 + #[trigger] count_below(chosen, j)))),
                    width,
                    height,
                    wall_from(order[j]),
                    wall_to(order[j]),
                )) by {
                    lemma_count_below_bound(chosen0, j);
                    if merged {
                        lemma_count_below_push(chosen0, k as int, j);
                        assert(chosen == chosen0.push(k as int));
                        if chosen.contains(j) {
                            let t = choose|t: int| 0 <= t < chosen.len() && chosen[t] == j;
                            if t < chosen0.len() {
                                assert(chosen0[t] == j);
                            }
                        }
                        if chosen0.contains(j) {
                            let t = choose|t: int| 0 <= t < chosen0.len() && chosen0[t] == j;
                            assert(chosen[t] == j);
                        }
                        if j == k {
                            assert(chosen[chosen0.len() as int] == j);
                        }
                        assert(chosen.contains(j) <==> (chosen0.contains(j) || j == k));
                    }
                    if j == k {
                        assert(!chosen0.contains(j));
                        assert(count_below(chosen0, k as int) == chosen0.len());
                        assert(sv.take(1 + count_below(chosen, j)) =~= sv0);
                    } else {
                        assert(sv.take(1 + count_below(chosen, j)) =~= sv0.take(1 + count_below(chosen0, j)));
                    }
                }
            }
            k = k + 1;
        }

        // Every cell ends in one set, so every cell reaches every other.
        proof {
            uf.lemma_roots();
            if k == walls@.len() {
                assert forall|r2: u32, c2: u32| r2 < height && c2 < width implies {
                    &&& c2 + 1 < width ==> #[trigger] uf.root(cell_index(width, r2, c2)) == uf.root(
                        cell_index(width, r2, (c2 + 1) as u32),
                    )
                    &&& r2 + 1 < height ==> uf.root(cell_index(width, r2, c2)) == uf.root(
                        cell_index(width, (r2 + 1) as u32, c2),
                    )
                } by {
                    assert(fully_listed(walls@, width, height, r2, c2));
                    if c2 + 1 < width {
                        let k2 = choose|k2: int| 0 <= k2 < walls@.len() && walls@[k2] == (r2, c2, 0i32, 1i32);
                        assert(same_set(uf, width, walls@[k2]));
                    }
                    if r2 + 1 < height {
                        let k2 = choose|k2: int| 0 <= k2 < walls@.len() && walls@[k2] == (r2, c2, 1i32, 0i32);
                        assert(same_set(uf, width, walls@[k2]));
                    }
                }
                lemma_grid_one_set(uf, width, height);
                if total_cells > 0 {
                    lemma_index_in_bounds(width, height, 0, 0);
                    assert(uf.roots() =~= set![uf.root(0)]) by {
                        assert forall|m: int| uf.roots().contains(m) implies m == uf.root(0) by {
                            let r2 = (m / width as int) as u32;
                            let c2 = (m % width as int) as u32;
                            assert(m == r2 as int * width as int + c2 as int && r2 < height && c2 < width)
                                by (nonlinear_arith)
                                requires
                                    0 <= m < width as int * height as int,
                                    width > 0,
                                    r2 == m / width as int,
                                    c2 == m % width as int,
                            ;
                            assert(uf.root(cell_index(width, r2, c2)) == uf.root(cell_index(width, 0, 0)));
                        }
                        assert(uf.roots().contains(uf.root(0)));
                    }
                }
            }
            assert forall|a: Pos, b: Pos|
                inside(a, width, height) && inside(b, width, height) implies #[trigger] connected(
                maze.spec_cells(),
                width,
                height,
                a,
                b,
            ) by {
                lemma_index_in_bounds(width, height, a.0, a.1);
                lemma_index_in_bounds(width, height, b.0, b.1);
                if k == walls@.len() {
                    assert(uf.root(cell_index(width, a.0, a.1)) == uf.root(cell_index(width, 0, 0)));
                    assert(uf.root(cell_index(width, b.0, b.1)) == uf.root(cell_index(width, 0, 0)));
                } else {
                    assert(uf.root(pos_index(width, a)) == uf.root(pos_index(width, b)));
                }
            }
        }
        proof {
            assert(order == kruskal_order(width, height, old(draws).spec_words(), old(draws).spec_next() as int));
            let ko = kruskal_order(
                original_maze.spec_width(),
                original_maze.spec_height(),
                old(draws).spec_words(),
                old(draws).spec_next() as int,
            );
            assert(width == original_maze.spec_width() && height == original_maze.spec_height());
            assert(steps@.len() <= chosen.len() + 1 && knocked_in_order(steps_view(steps@), ko, chosen));
            let built = replay_new(start, width, flatten(steps_view(steps@)));
            assert(frame_closed(built, width, height));
            assert(perfect_maze(built, width, height));
            let sv = steps_view(steps@);
            assert forall|j: int| 0 <= j < order.len() implies (chosen.contains(j) <==> !connected(
                replay_new(start, width, flatten(sv.take(1 + #[trigger] count_below(chosen, j)))),
                width,
                height,
                wall_from(order[j]),
                wall_to(order[j]),
            )) by {
                if j >= k {
                    if chosen.contains(j) {
                        let t = choose|t: int| 0 <= t < chosen.len() && chosen[t] == j;
                        assert(chosen[t] < k);
                    }
                    assert(inner_wall_ok(walls@[j], width, height));
                    assert(sv.take(1 + count_below(chosen, j)) =~= sv);
                    assert(connected(built, width, height, wall_from(order[j]), wall_to(order[j])));
                }
            }
            assert(greedy(start, width, height, sv, ko, chosen));
            assert(knocked_from(sv, ko, start, width, height));
            assert(types_kept(start, built));
        }
        Some(steps)
    }
}

/// The maze is well formed and has the given size.
pub open spec fn same_shape_as(m: Maze, width: u32, height: u32) -> bool {
    &&& m.wf()
    &&& m.spec_width() == width
    &&& m.spec_height() == height
}

} // verus!
