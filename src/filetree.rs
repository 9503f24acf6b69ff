use vstd::prelude::*;

use crate::path::{parent_dir, path_parent, paths_match, same_path};

verus! {

/// One tracked path: its group, the handle of its parent node, the handle of
/// its path slot, and the handles of its children in insertion order.
pub struct FileNode {
    group: String,
    parent_node_idx: usize,
    path_idx: usize,
    children: Option<Vec<usize>>,
}

/// A tree of paths tagged with groups. Paths and nodes live in two
/// append-only arenas addressed by handles; removal tombstones a slot and
/// never reuses it. The first path inserted becomes the root, slot 0; every
/// later path hangs under the node that holds its parent directory.
pub struct FileTree {
    paths: Vec<Option<String>>,
    nodes: Vec<Option<FileNode>>,
    groups: Vec<String>,
}

/// The predicate that keeps every handle but `x`.
pub open spec fn other_than(x: usize) -> spec_fn(usize) -> bool {
    |c: usize| c != x
}

/// The texts of a sequence of strings.
pub open spec fn texts(v: Seq<String>) -> Seq<Seq<char>> {
    v.map_values(|s: String| s@)
}

/// `s` is among the strings of `v`, compared by text.
fn contains_text(v: &Vec<String>, s: &String) -> (r: bool)
    ensures
        r == texts(v@).contains(s@),
{
    let mut k: usize = 0;
    while k < v.len()
        invariant
            k <= v@.len(),
            forall|m: int| 0 <= m < k ==> #[trigger] v@[m]@ != s@,
        decreases v@.len() - k,
    {
        if v[k] == *s {
            assert(texts(v@)[k as int] == s@);
            return true;
        }
        k = k + 1;
    }
    assert forall|m: int| 0 <= m < texts(v@).len() implies #[trigger] texts(v@)[m] != s@ by {
        assert(v@[m]@ != s@);
    }
    false
}

/// Proof that filtering out `x` keeps exactly the other handles.
proof fn lemma_filter_out(s: Seq<usize>, x: usize)
    ensures
        forall|k: int|
            0 <= k < s.filter(other_than(x)).len() ==> {
                let c = #[trigger] s.filter(other_than(x))[k];
                s.contains(c) && c != x
            },
        forall|c: usize| s.contains(c) && c != x ==> #[trigger] s.filter(other_than(x)).contains(c),
    decreases s.len(),
{
    reveal(Seq::filter);
    let f = s.filter(other_than(x));
    if s.len() > 0 {
        let r = s.drop_last();
        lemma_filter_out(r, x);
        if s.last() != x {
            assert(f == r.filter(other_than(x)).push(s.last()));
        } else {
            assert(f == r.filter(other_than(x)));
        }
        assert forall|k: int| 0 <= k < f.len() implies {
            let c = #[trigger] f[k];
            s.contains(c) && c != x
        } by {
            if k < r.filter(other_than(x)).len() {
                let c = f[k];
                assert(c == r.filter(other_than(x))[k]);
                let i = choose|i: int| 0 <= i < r.len() && r[i] == c;
                assert(s[i] == c);
            } else {
                assert(f[k] == s.last());
                assert(s[s.len() - 1] == s.last());
            }
        }
        assert forall|c: usize| s.contains(c) && c != x implies #[trigger] f.contains(c) by {
            let i = choose|i: int| 0 <= i < s.len() && s[i] == c;
            if i < s.len() - 1 {
                assert(r[i] == c);
                assert(r.contains(c));
                assert(r.filter(other_than(x)).contains(c));
                let j = choose|j: int|
                    0 <= j < r.filter(other_than(x)).len() && r.filter(other_than(x))[j] == c;
                if s.last() != x {
                    assert(f[j] == r.filter(other_than(x))[j]);
                } else {
                    assert(f[j] == r.filter(other_than(x))[j]);
                }
            } else {
                assert(f[f.len() - 1] == c);
            }
        }
    }
}

/// The handles of `v` other than `x`, in order.
fn filter_out(v: &Vec<usize>, x: usize) -> (r: Vec<usize>)
    ensures
        r@ == v@.filter(other_than(x)),
{
    let mut out: Vec<usize> = Vec::new();
    let mut k: usize = 0;
    while k < v.len()
        invariant
            k <= v@.len(),
            out@ == v@.take(k as int).filter(other_than(x)),
        decreases v@.len() - k,
    {
        proof {
            reveal(Seq::filter);
            assert(v@.take(k as int + 1).drop_last() =~= v@.take(k as int));
            assert(v@.take(k as int + 1).last() == v@[k as int]);
        }
        if v[k] != x {
            out.push(v[k]);
        }
        k = k + 1;
    }
    assert(v@.take(k as int) =~= v@);
    out
}

/// Some entry of `out` names the same path as `p`.
pub open spec fn covers(out: Seq<Seq<char>>, p: Seq<char>) -> bool {
    exists|k: int| 0 <= k < out.len() && paths_match(#[trigger] out[k], p)
}

/// The position of the first string of `v` that names the same path as `p`.
fn match_index(v: &Vec<String>, p: &String) -> (r: Option<usize>)
    ensures
        r matches Some(a) ==> a < v@.len() && paths_match(v@[a as int]@, p@),
        r is None ==> forall|a: int| 0 <= a < v@.len() ==> !paths_match(#[trigger] v@[a]@, p@),
{
    let mut i: usize = 0;
    while i < v.len()
        invariant
            i <= v@.len(),
            forall|a: int| 0 <= a < i ==> !paths_match(#[trigger] v@[a]@, p@),
        decreases v@.len() - i,
    {
        if same_path(v[i].as_str(), p.as_str()) {
            return Some(i);
        }
        i = i + 1;
    }
    None
}

impl FileTree {
    /// Node slot `i` holds a node.
    pub closed spec fn live(self, i: int) -> bool {
        0 <= i < self.nodes@.len() && self.nodes@[i] is Some
    }

    spec fn node(self, i: int) -> FileNode {
        self.nodes@[i]->Some_0
    }

    /// The parent handle of node `i`.
    pub closed spec fn parent(self, i: int) -> int {
        self.node(i).parent_node_idx as int
    }

    /// The children handles of node `i`, in insertion order.
    pub closed spec fn kids(self, i: int) -> Seq<usize> {
        match self.node(i).children {
            Some(c) => c@,
            None => Seq::empty(),
        }
    }

    /// The path of node `i`.
    pub closed spec fn path_of(self, i: int) -> Seq<char> {
        self.paths@[self.node(i).path_idx as int]->Some_0@
    }

    /// The group of node `i`.
    pub closed spec fn group_of(self, i: int) -> Seq<char> {
        self.node(i).group@
    }

    /// The group tags recorded in the tree.
    pub closed spec fn group_set(self) -> Set<Seq<char>> {
        texts(self.groups@).to_set()
    }

    /// The number of slots in each arena.
    pub closed spec fn slots(self) -> nat {
        self.nodes@.len()
    }

    /// Every path slot and every node slot is absent.
    pub closed spec fn vacant(self) -> bool {
        &&& forall|i: int| 0 <= i < self.nodes@.len() ==> #[trigger] self.nodes@[i] is None
        &&& forall|i: int| 0 <= i < self.paths@.len() ==> #[trigger] self.paths@[i] is None
    }

    /// The arenas agree slot by slot, every node's parent has a smaller
    /// handle (the root is its own parent), children point back to their
    /// parent, a live node is listed among its live parent's children, and
    /// a live parent holds its live child's parent directory.
    pub closed spec fn wf(self) -> bool {
        &&& self.paths@.len() == self.nodes@.len()
        &&& forall|i: int|
            0 <= i < self.nodes@.len() ==> (#[trigger] self.nodes@[i] is Some
                <==> self.paths@[i] is Some)
        &&& forall|i: int| #[trigger] self.live(i) ==> self.node(i).path_idx == i
        &&& forall|i: int|
            #[trigger] self.live(i) ==> if i == 0 {
                self.parent(i) == 0
            } else {
                0 <= self.parent(i) < i
            }
        &&& forall|i: int, k: int|
            self.live(i) && 0 <= k < self.kids(i).len() ==> {
                let c = #[trigger] self.kids(i)[k] as int;
                &&& i < c
                &&& self.live(c)
                &&& self.parent(c) == i
            }
        &&& forall|j: int|
            #[trigger] self.live(j) && j > 0 && self.live(self.parent(j)) ==> self.kids(
                self.parent(j),
            ).contains(j as usize)
        &&& forall|i: int|
            #[trigger] self.live(i) && i > 0 && self.live(self.parent(i)) ==> paths_match(
                self.path_of(self.parent(i)),
                path_parent(self.path_of(i)),
            )
        &&& texts(self.groups@).no_duplicates()
    }

    /// The handles that a depth-first walk from node `i` yields: `i` itself,
    /// then, for a live node, the walks from its children, the last child
    /// first. A tombstoned node yields its handle and nothing below it.
    pub closed spec fn visit(self, i: usize) -> Seq<usize>
        decreases self.slots() - i, self.kids(i as int).len() + 1,
    {
        if i < self.nodes@.len() {
            if self.nodes@[i as int] is Some {
                seq![i] + self.visit_all(i as int, self.kids(i as int))
            } else {
                seq![i]
            }
        } else {
            Seq::empty()
        }
    }

    /// The walks from the handles of `cs` that lie above `from`, the last
    /// handle first.
    pub closed spec fn visit_all(self, from: int, cs: Seq<usize>) -> Seq<usize>
        decreases self.slots() - from, cs.len(),
    {
        if cs.len() == 0 {
            Seq::empty()
        } else {
            let c = cs.last() as int;
            let rest = self.visit_all(from, cs.drop_last());
            if from < c < self.nodes@.len() {
                self.visit(cs.last()) + rest
            } else {
                rest
            }
        }
    }

    /// The traversal order of the whole tree: the walk from slot 0.
    pub open spec fn order(self) -> Seq<usize> {
        self.visit(0)
    }

    /// Node `j` is live and every node on its chain of parents up to the
    /// root is live: the walk from the root reaches it.
    pub closed spec fn reached(self, j: int) -> bool
        decreases j,
    {
        if self.live(j) {
            if j == 0 {
                true
            } else {
                let p = self.parent(j);
                0 <= p < j && self.reached(p)
            }
        } else {
            false
        }
    }

    /// Proof that splitting the handle sequence splits the walk.
    proof fn lemma_visit_all_concat(self, from: int, a: Seq<usize>, b: Seq<usize>)
        ensures
            self.visit_all(from, a + b) == self.visit_all(from, b) + self.visit_all(from, a),
        decreases b.len(),
    {
        if b.len() == 0 {
            assert(a + b =~= a);
            assert(self.visit_all(from, b) + self.visit_all(from, a) =~= self.visit_all(
                from,
                a,
            ));
        } else {
            assert((a + b).drop_last() =~= a + b.drop_last());
            assert((a + b).last() == b.last());
            self.lemma_visit_all_concat(from, a, b.drop_last());
            let c = b.last() as int;
            if from < c < self.nodes@.len() {
                assert(self.visit_all(from, a + b) =~= self.visit_all(from, b) + self.visit_all(
                    from,
                    a,
                ));
            }
        }
    }

    /// Proof that a lower bound under all the handles does not matter.
    proof fn lemma_visit_all_lower(self, from: int, cs: Seq<usize>)
        requires
            -1 <= from,
            forall|k: int| 0 <= k < cs.len() ==> from < #[trigger] cs[k],
        ensures
            self.visit_all(from, cs) == self.visit_all(-1, cs),
        decreases cs.len(),
    {
        if cs.len() > 0 {
            self.lemma_visit_all_lower(from, cs.drop_last());
        }
    }

    /// Proof that what a walk over several handles yields comes from the
    /// walk of one of them.
    proof fn lemma_visit_all_member(self, from: int, cs: Seq<usize>, x: usize)
        requires
            self.visit_all(from, cs).contains(x),
        ensures
            exists|k: int|
                0 <= k < cs.len() && from < cs[k] < self.nodes@.len() && #[trigger] self.visit(cs[k]).contains(x),
        decreases cs.len(),
    {
        let c = cs.last() as int;
        let rest = self.visit_all(from, cs.drop_last());
        if from < c < self.nodes@.len() && self.visit(cs.last()).contains(x) {
            assert(cs[cs.len() - 1] == c);
        } else {
            if from < c < self.nodes@.len() {
                let i = choose|i: int|
                    0 <= i < self.visit_all(from, cs).len() && self.visit_all(from, cs)[i] == x;
                assert(rest[i - self.visit(cs.last()).len()] == x);
            }
            self.lemma_visit_all_member(from, cs.drop_last(), x);
            let k = choose|k: int|
                0 <= k < cs.drop_last().len() && from < cs.drop_last()[k] < self.nodes@.len()
                    && #[trigger] self.visit(cs.drop_last()[k]).contains(x);
            assert(cs[k] == cs.drop_last()[k]);
        }
    }

    /// Proof that the walk over several handles yields what the walk of each
    /// of them yields.
    proof fn lemma_visit_all_includes(self, from: int, cs: Seq<usize>, k: int, x: usize)
        requires
            0 <= k < cs.len(),
            from < cs[k] < self.nodes@.len(),
            self.visit(cs[k]).contains(x),
        ensures
            self.visit_all(from, cs).contains(x),
        decreases cs.len(),
    {
        let c = cs.last() as int;
        let rest = self.visit_all(from, cs.drop_last());
        if k == cs.len() - 1 {
            let i = choose|i: int| 0 <= i < self.visit(cs.last()).len() && self.visit(cs.last())[i] == x;
            assert(self.visit_all(from, cs)[i] == x);
        } else {
            assert(cs.drop_last()[k] == cs[k]);
            self.lemma_visit_all_includes(from, cs.drop_last(), k, x);
            let i = choose|i: int| 0 <= i < rest.len() && rest[i] == x;
            if from < c < self.nodes@.len() {
                assert(self.visit_all(from, cs)[i + self.visit(cs.last()).len()] == x);
            } else {
                assert(self.visit_all(from, cs)[i] == x);
            }
        }
    }

    /// Proof that a walk contains the walk from any handle it yields.
    proof fn lemma_visit_trans(self, r: usize, p: usize, x: usize)
        requires
            self.visit(r).contains(p),
            self.visit(p).contains(x),
        ensures
            self.visit(r).contains(x),
        decreases self.slots() - r,
    {
        let i = choose|i: int| 0 <= i < self.visit(r).len() && self.visit(r)[i] == p;
        let ks = self.kids(r as int);
        if r < self.nodes@.len() && self.nodes@[r as int] is Some {
            let rest = self.visit_all(r as int, ks);
            assert(self.visit(r) == seq![r] + rest);
            if i > 0 {
                assert(rest[i - 1] == p);
                assert(rest.contains(p));
                self.lemma_visit_all_member(r as int, ks, p);
                let k = choose|k: int|
                    0 <= k < ks.len() && r < ks[k] < self.nodes@.len()
                        && #[trigger] self.visit(ks[k]).contains(p);
                self.lemma_visit_trans(ks[k], p, x);
                self.lemma_visit_all_includes(r as int, ks, k, x);
                let j = choose|j: int| 0 <= j < rest.len() && rest[j] == x;
                assert(self.visit(r)[j + 1] == x);
            }
        }
    }

    /// Proof that the walk from a reached node yields reached nodes only.
    proof fn lemma_visit_sound(self, i: usize, x: usize)
        requires
            self.wf(),
            self.reached(i as int),
            self.visit(i).contains(x),
        ensures
            self.reached(x as int),
        decreases self.slots() - i,
    {
        if x != i {
            let ks = self.kids(i as int);
            let n = choose|n: int| 0 <= n < self.visit(i).len() && self.visit(i)[n] == x;
            let rest = self.visit_all(i as int, ks);
            assert(self.visit(i) == seq![i] + rest);
            assert(rest[n - 1] == x);
            assert(rest.contains(x));
            self.lemma_visit_all_member(i as int, ks, x);
            let k = choose|k: int|
                0 <= k < ks.len() && i < ks[k] < self.nodes@.len()
                    && #[trigger] self.visit(ks[k]).contains(x);
            let c = ks[k] as int;
            assert(self.live(c) && self.parent(c) == i);
            self.lemma_visit_sound(ks[k], x);
        }
    }

    /// Proof that the walk from the root yields every reached node.
    proof fn lemma_reached_visited(self, j: int)
        requires
            self.wf(),
            self.reached(j),
        ensures
            self.order().contains(j as usize),
        decreases j,
    {
        assert(self.visit(j as usize)[0] == j as usize);
        if j != 0 {
            let p = self.parent(j);
            self.lemma_reached_visited(p);
            assert(self.reached(p));
            assert(self.live(p));
            let ks = self.kids(p);
            assert(ks.contains(j as usize));
            let k = choose|k: int| 0 <= k < ks.len() && ks[k] == j as usize;
            assert(self.visit(j as usize).contains(j as usize));
            self.lemma_visit_all_includes(p, ks, k, j as usize);
            let n = choose|n: int|
                0 <= n < self.visit_all(p, ks).len() && self.visit_all(p, ks)[n] == j as usize;
            assert(self.visit(p as usize)[n + 1] == j as usize);
            self.lemma_visit_trans(0, p as usize, j as usize);
        }
    }

    /// Proof that the live handles of the traversal order are exactly the
    /// reached nodes.
    pub proof fn lemma_order_reached(self)
        requires
            self.wf(),
        ensures
            forall|j: usize|
                #![trigger self.order().contains(j)]
                #![trigger self.reached(j as int)]
                (self.order().contains(j) && self.live(j as int)) <==> self.reached(j as int),
            forall|j: int| #[trigger] self.reached(j) ==> 0 <= j < self.slots(),
            forall|k: int|
                0 <= k < self.order().len() ==> #[trigger] self.order()[k] < self.slots(),
    {
        assert forall|j: usize|
            #![trigger self.order().contains(j)]
            #![trigger self.reached(j as int)]
            (self.order().contains(j) && self.live(j as int)) <==> self.reached(j as int) by {
            if self.reached(j as int) {
                self.lemma_reached_visited(j as int);
            }
            if self.order().contains(j) && self.live(j as int) {
                if self.live(0) {
                    self.lemma_visit_sound(0, j);
                }
            }
        }
        assert forall|k: int| 0 <= k < self.order().len() implies #[trigger] self.order()[k]
            < self.slots() by {
            let x = self.order()[k];
            assert(self.order().contains(x));
            if self.live(0) {
                self.lemma_visit_sound(0, x);
            }
        }
    }

    /// Node `i` is live and holds the path `v`.
    pub closed spec fn holds(self, i: int, v: Seq<char>) -> bool {
        self.live(i) && paths_match(self.path_of(i), v)
    }

    /// Some node that the walk from the root reaches holds the path `v`.
    pub closed spec fn tracks(self, v: Seq<char>) -> bool {
        exists|j: int| self.reached(j) && paths_match(#[trigger] self.path_of(j), v)
    }

    /// Node `i` is the first node in traversal order that holds `v`.
    pub closed spec fn first_holder(self, i: int, v: Seq<char>) -> bool {
        exists|k: int|
            0 <= k < self.order().len() && self.order()[k] == i && self.holds(i, v) && forall|
                m: int,
            |
                0 <= m < k ==> !self.holds(#[trigger] self.order()[m] as int, v)
    }

    /// A reached node whose group is `g` holds the path `p`.
    pub closed spec fn listed(self, g: Seq<char>, p: Seq<char>) -> bool {
        exists|j: int|
            self.reached(j) && self.group_of(j) == g && paths_match(#[trigger] self.path_of(j), p)
    }

    /// A reached node whose group is `g` has exactly the text `p` as path.
    pub closed spec fn from_group(self, g: Seq<char>, p: Seq<char>) -> bool {
        exists|j: int| self.reached(j) && self.group_of(j) == g && #[trigger] self.path_of(j) == p
    }

    /// `out` answers a query for group `g`: each entry is the path of a
    /// reached node of `g`, each such node's path matches an entry, and no
    /// entry matches a later one.
    pub closed spec fn answers(self, g: Seq<char>, out: Seq<Seq<char>>) -> bool {
        &&& forall|k: int| 0 <= k < out.len() ==> self.from_group(g, #[trigger] out[k])
        &&& forall|j: int|
            self.reached(j) && self.group_of(j) == g ==> covers(out, #[trigger] self.path_of(j))
        &&& forall|a: int, b: int|
            0 <= a < b < out.len() ==> !paths_match(#[trigger] out[a], #[trigger] out[b])
    }

    /// An empty tree.
    pub fn new() -> (r: FileTree)
        ensures
            r.wf(),
            r.slots() == 0,
            r.vacant(),
            r.group_set() == Set::<Seq<char>>::empty(),
            forall|v: Seq<char>| !r.tracks(v),
            forall|g: Seq<char>, v: Seq<char>| !r.listed(g, v),
    {
        let r = FileTree { paths: Vec::new(), nodes: Vec::new(), groups: Vec::new() };
        assert(r.group_set() =~= Set::<Seq<char>>::empty());
        r
    }

    /// The handles of the depth-first walk from the root, in the order in
    /// which it yields them; a tombstoned root yields its handle alone.
    pub fn iter(&self) -> (r: Vec<usize>)
        requires
            self.wf(),
        ensures
            r@ == self.order(),
    {
        let mut out: Vec<usize> = Vec::new();
        if self.nodes.len() == 0 {
            assert(out@ =~= self.order());
            return out;
        }
        let mut stack: Vec<usize> = Vec::new();
        stack.push(0);
        assert(stack@.drop_last() =~= Seq::<usize>::empty());
        assert(self.visit_all(-1, stack@) == self.visit(0) + self.visit_all(-1, Seq::<usize>::empty()));
        assert(out@ + self.visit_all(-1, stack@) =~= self.order());
        while stack.len() > 0
            invariant
                self.wf(),
                forall|k: int| 0 <= k < stack@.len() ==> #[trigger] stack@[k] < self.nodes@.len(),
                out@ + self.visit_all(-1, stack@) == self.order(),
            decreases self.visit_all(-1, stack@).len(),
        {
            let ghost before = stack@;
            let c = stack.pop().unwrap();
            let ghost rest = stack@;
            proof {
                assert(before.drop_last() =~= rest);
                assert(self.visit_all(-1, before) == self.visit(c) + self.visit_all(-1, rest));
            }
            out.push(c);
            match &self.nodes[c] {
                Some(node) => {
                    match &node.children {
                        Some(ch) => {
                            let mut k: usize = 0;
                            while k < ch.len()
                                invariant
                                    k <= ch@.len(),
                                    ch@ == self.kids(c as int),
                                    self.wf(),
                                    self.live(c as int),
                                    stack@ == rest + ch@.take(k as int),
                                    forall|k: int|
                                        0 <= k < rest.len() ==> #[trigger] rest[k] < self.nodes@.len(),
                                decreases ch@.len() - k,
                            {
                                stack.push(ch[k]);
                                proof {
                                    assert(ch@.take(k as int + 1) =~= ch@.take(k as int).push(ch@[k as int]));
                                    assert(self.kids(c as int)[k as int] < self.nodes@.len());
                                }
                                k = k + 1;
                            }
                            assert(ch@.take(k as int) =~= ch@);
                        }
                        None => {}
                    }
                    proof {
                        let ks = self.kids(c as int);
                        assert(stack@ == rest + ks);
                        assert forall|k: int| 0 <= k < ks.len() implies c < #[trigger] ks[k] by {
                            assert(self.kids(c as int)[k] > c);
                        }
                        self.lemma_visit_all_lower(c as int, ks);
                        self.lemma_visit_all_concat(-1, rest, ks);
                        assert(self.visit(c) == seq![c] + self.visit_all(c as int, ks));
                        assert(out@ + self.visit_all(-1, stack@) =~= self.order());
                        assert forall|k: int| 0 <= k < stack@.len() implies #[trigger] stack@[k]
                            < self.nodes@.len() by {
                            if k >= rest.len() {
                                assert(stack@[k] == ks[k - rest.len()]);
                            }
                        }
                    }
                }
                None => {
                    proof {
                        assert(self.visit(c) == seq![c]);
                        assert(out@ + self.visit_all(-1, stack@) =~= self.order());
                    }
                }
            }
        }
        assert(self.visit_all(-1, stack@) =~= Seq::<usize>::empty());
        assert(out@ =~= self.order());
        out
    }

    /// The handle of the first node in traversal order that holds `value`.
    fn find_node_idx(&self, value: &str) -> (r: Option<usize>)
        requires
            self.wf(),
        ensures
            r is Some <==> self.tracks(value@),
            r matches Some(i) ==> self.first_holder(i as int, value@),
    {
        let order = self.iter();
        proof {
            self.lemma_order_reached();
        }
        let mut k: usize = 0;
        while k < order.len()
            invariant
                self.wf(),
                order@ == self.order(),
                k <= order@.len(),
                forall|m: int| 0 <= m < k ==> !self.holds(#[trigger] order@[m] as int, value@),
            decreases order@.len() - k,
        {
            let idx = order[k];
            proof {
                self.lemma_order_reached();
                assert(self.order()[k as int] < self.slots());
            }
            match &self.nodes[idx] {
                Some(node) => {
                    assert(self.live(idx as int));
                    match &self.paths[node.path_idx] {
                        Some(path) => {
                            if same_path(path.as_str(), value) {
                                proof {
                                    assert(self.order().contains(idx));
                                    assert(self.reached(idx as int));
                                    assert(paths_match(self.path_of(idx as int), value@));
                                }
                                return Some(idx);
                            }
                        }
                        None => {}
                    }
                }
                None => {}
            }
            k = k + 1;
        }
        proof {
            assert forall|j: int| self.reached(j) implies !paths_match(#[trigger] self.path_of(j), value@) by {
                self.lemma_order_reached();
                assert(self.reached(j as usize as int));
                assert(order@.contains(j as usize));
                let m = choose|m: int| 0 <= m < order@.len() && order@[m] == j as usize;
                assert(!self.holds(order@[m] as int, value@));
            }
        }
        None
    }

    /// Some node that the walk from the root reaches holds `value`.
    pub fn contains_file(&self, value: &str) -> (r: bool)
        requires
            self.wf(),
        ensures
            r == self.tracks(value@),
    {
        self.find_node_idx(value).is_some()
    }

    /// `groupname` is among the recorded group tags.
    pub fn contains_group(&self, groupname: &str) -> (r: bool)
        requires
            self.wf(),
        ensures
            r == self.group_set().contains(groupname@),
    {
        let g = groupname.to_owned();
        contains_text(&self.groups, &g)
    }

    /// The paths of the reached nodes whose group is `group`, in traversal
    /// order, each path once (paths with the same components count as one).
    /// `None` marks a live node whose path slot is tombstoned, which a
    /// well-formed tree never holds.
    pub fn get(&self, group: &str) -> (r: Option<Vec<String>>)
        requires
            self.wf(),
        ensures
            r matches Some(v) && self.answers(group@, texts(v@)),
    {
        let g = group.to_owned();
        let order = self.iter();
        proof {
            self.lemma_order_reached();
        }
        let mut out: Vec<String> = Vec::new();
        // for each entry, the position in `order` of the node it came from
        let ghost mut pos: Seq<int> = Seq::empty();
        // for each position in `order` of a node of the group, the entry
        // that matches its path
        let ghost mut rep: Seq<int> = Seq::empty();
        let mut k: usize = 0;
        while k < order.len()
            invariant
                self.wf(),
                order@ == self.order(),
                k <= order@.len(),
                g@ == group@,
                forall|m: int| 0 <= m < order@.len() ==> #[trigger] order@[m] < self.slots(),
                pos.len() == out@.len(),
                rep.len() == k,
                forall|a: int, b: int|
                    0 <= a < b < out@.len() ==> !paths_match(#[trigger] out@[a]@, #[trigger] out@[b]@),
                forall|i: int|
                    0 <= i < out@.len() ==> {
                        let m = #[trigger] pos[i];
                        &&& 0 <= m < k
                        &&& self.live(order@[m] as int)
                        &&& self.group_of(order@[m] as int) == g@
                        &&& self.path_of(order@[m] as int) == out@[i]@
                    },
                forall|m: int|
                    0 <= m < k && self.live(order@[m] as int) && self.group_of(order@[m] as int)
                        == g@ ==> {
                        let i = #[trigger] rep[m];
                        0 <= i < out@.len() && paths_match(out@[i]@, self.path_of(order@[m] as int))
                    },
            decreases order@.len() - k,
        {
            let idx = order[k];
            let ghost before = out@;
            let ghost mut hit: int = 0;
            match &self.nodes[idx] {
                Some(node) => {
                    assert(self.live(idx as int));
                    if node.group == g {
                        match &self.paths[node.path_idx] {
                            Some(path) => {
                                match match_index(&out, path) {
                                    Some(a) => {
                                        proof {
                                            hit = a as int;
                                        }
                                    },
                                    None => {
                                        out.push(path.clone());
                                        proof {
                                            hit = before.len() as int;
                                            pos = pos.push(k as int);
                                        }
                                    },
                                }
                            },
                            None => {
                                return None;
                            },
                        }
                    }
                },
                None => {},
            }
            proof {
                rep = rep.push(hit);
                assert forall|i: int| 0 <= i < out@.len() implies {
                    let m = #[trigger] pos[i];
                    &&& 0 <= m < k + 1
                    &&& self.live(order@[m] as int)
                    &&& self.group_of(order@[m] as int) == g@
                    &&& self.path_of(order@[m] as int) == out@[i]@
                } by {
                    if i < before.len() {
                        assert(out@[i] == before[i]);
                    }
                }
                assert forall|m: int|
                    0 <= m < k + 1 && self.live(order@[m] as int) && self.group_of(order@[m] as int)
                        == g@ implies {
                        let i = #[trigger] rep[m];
                        0 <= i < out@.len() && paths_match(out@[i]@, self.path_of(order@[m] as int))
                    } by {
                    if m < k {
                        assert(out@[rep[m]] == before[rep[m]]);
                    }
                }
                assert forall|a: int, b: int|
                    0 <= a < b < out@.len() implies !paths_match(#[trigger] out@[a]@, #[trigger] out@[b]@) by {
                    if b < before.len() {
                        assert(out@[a] == before[a] && out@[b] == before[b]);
                    } else {
                        assert(out@[a] == before[a]);
                    }
                }
            }
            k = k + 1;
        }
        proof {
            let ts = texts(out@);
            assert forall|i: int| 0 <= i < ts.len() implies self.from_group(group@, #[trigger] ts[i]) by {
                let j = order@[pos[i]] as int;
                assert(order@.contains(j as usize));
                assert(self.reached(j as usize as int));
                assert(self.path_of(j) == ts[i]);
            }
            assert forall|j: int| self.reached(j) && self.group_of(j) == group@ implies covers(
                ts,
                #[trigger] self.path_of(j),
            ) by {
                assert(self.reached(j as usize as int));
                assert(order@.contains(j as usize));
                let m = choose|m: int| 0 <= m < order@.len() && order@[m] == j as usize;
                assert(self.live(order@[m] as int));
                let i = rep[m];
                assert(ts[i] == out@[i]@);
            }
            assert forall|a: int, b: int| 0 <= a < b < ts.len() implies !paths_match(
                #[trigger] ts[a],
                #[trigger] ts[b],
            ) by {
                assert(!paths_match(out@[a]@, out@[b]@));
            }
        }
        Some(out)
    }

    /// Every path slot and every node slot is absent.
    pub fn is_empty(&self) -> (r: bool)
        ensures
            r == self.vacant(),
    {
        let mut k: usize = 0;
        while k < self.nodes.len()
            invariant
                k <= self.nodes@.len(),
                forall|i: int| 0 <= i < k ==> #[trigger] self.nodes@[i] is None,
            decreases self.nodes@.len() - k,
        {
            if self.nodes[k].is_some() {
                return false;
            }
            k = k + 1;
        }
        let mut k: usize = 0;
        while k < self.paths.len()
            invariant
                k <= self.paths@.len(),
                forall|i: int| 0 <= i < self.nodes@.len() ==> #[trigger] self.nodes@[i] is None,
                forall|i: int| 0 <= i < k ==> #[trigger] self.paths@[i] is None,
            decreases self.paths@.len() - k,
        {
            if self.paths[k].is_some() {
                return false;
            }
            k = k + 1;
        }
        true
    }

    /// Reconciling paths with a real file system is left to the caller: the
    /// tree stays as it is.
    pub fn canonicalize(&mut self)
        ensures
            *final(self) == *old(self),
    {
    }

    /// A path can be placed: the tree has no node yet, or a reached node
    /// holds the path's parent directory.
    pub open spec fn can_insert(self, v: Seq<char>) -> bool {
        self.slots() == 0 || self.tracks(path_parent(v))
    }

    /// `t` is this tree after `v` was placed with group `g`: one new path
    /// slot and one new node, child of the first node in traversal order
    /// that holds the parent directory (of itself, for the first node), and
    /// `g` recorded.
    pub closed spec fn inserted(self, v: Seq<char>, g: Seq<char>, t: FileTree) -> bool {
        let n = self.nodes@.len() as int;
        let p = t.parent(n);
        &&& t.wf()
        &&& t.nodes@.len() == n + 1
        &&& forall|i: int| 0 <= i < n ==> #[trigger] t.paths@[i] == self.paths@[i]
        &&& t.live(n)
        &&& t.path_of(n) == v
        &&& t.group_of(n) == g
        &&& t.kids(n) == Seq::<usize>::empty()
        &&& if n == 0 {
            p == 0
        } else {
            self.first_holder(p, path_parent(v))
        }
        &&& forall|i: int| 0 <= i < n && i != p ==> #[trigger] t.nodes@[i] == self.nodes@[i]
        &&& n > 0 ==> {
            &&& t.live(p)
            &&& t.node(p).group == self.node(p).group
            &&& t.node(p).parent_node_idx == self.node(p).parent_node_idx
            &&& t.node(p).path_idx == self.node(p).path_idx
            &&& t.kids(p) == self.kids(p).push(n as usize)
        }
        &&& t.group_set() == self.group_set().insert(g)
    }

    /// Records `group` in the group set.
    fn add_group(&mut self, group: &str)
        requires
            texts(old(self).groups@).no_duplicates(),
        ensures
            texts(final(self).groups@).no_duplicates(),
            final(self).group_set() == old(self).group_set().insert(group@),
            final(self).nodes == old(self).nodes,
            final(self).paths == old(self).paths,
    {
        let g = group.to_owned();
        if !contains_text(&self.groups, &g) {
            let ghost before = self.groups@;
            self.groups.push(g);
            assert(texts(self.groups@) =~= texts(before).push(group@));
            proof {
                texts(before).lemma_push_to_set_commute(group@);
            }
        } else {
            assert(self.group_set() =~= self.group_set().insert(group@));
        }
    }

    /// Appends handle `c` to the children of live node `p`.
    fn adopt(&mut self, p: usize, c: usize)
        requires
            old(self).live(p as int),
        ensures
            final(self).nodes@.len() == old(self).nodes@.len(),
            forall|i: int| 0 <= i < old(self).nodes@.len() && i != p ==> #[trigger] final(self).nodes@[i] == old(self).nodes@[i],
            final(self).live(p as int),
            final(self).node(p as int).group == old(self).node(p as int).group,
            final(self).node(p as int).parent_node_idx == old(self).node(p as int).parent_node_idx,
            final(self).node(p as int).path_idx == old(self).node(p as int).path_idx,
            final(self).kids(p as int) == old(self).kids(p as int).push(c),
            final(self).paths == old(self).paths,
            final(self).groups == old(self).groups,
    {
        let mut slot: Option<FileNode> = None;
        self.nodes.set_and_swap(p, &mut slot);
        match slot {
            Some(node) => {
                let kids = match node.children {
                    Some(mut ch) => {
                        ch.push(c);
                        ch
                    },
                    None => {
                        let mut ch: Vec<usize> = Vec::new();
                        ch.push(c);
                        assert(ch@ =~= Seq::<usize>::empty().push(c));
                        ch
                    },
                };
                self.nodes.set(
                    p,
                    Some(
                        FileNode {
                            group: node.group,
                            parent_node_idx: node.parent_node_idx,
                            path_idx: node.path_idx,
                            children: Some(kids),
                        },
                    ),
                );
            },
            None => {},
        }
    }

    /// Places `value` with group `group` where [`Self::can_insert`] holds,
    /// and reports whether it did; otherwise the tree is left as it is.
    pub fn try_insert(&mut self, value: &str, group: &str) -> (r: bool)
        requires
            old(self).wf(),
        ensures
            final(self).wf(),
            r == old(self).can_insert(value@),
            r ==> final(self).slots() == old(self).slots() + 1,
            r ==> final(self).group_set() == old(self).group_set().insert(group@),
            r ==> old(self).inserted(value@, group@, *final(self)),
            !r ==> *final(self) == *old(self),
    {
        let ghost before = *self;
        let n = self.nodes.len();
        let mut parent: usize = 0;
        if n > 0 {
            let dir = parent_dir(value);
            match self.find_node_idx(dir.as_str()) {
                Some(p) => {
                    parent = p;
                },
                None => {
                    return false;
                },
            }
            proof {
                before.lemma_order_reached();
                let k = choose|k: int|
                    0 <= k < before.order().len() && before.order()[k] == parent as int && before.holds(
                        parent as int,
                        path_parent(value@),
                    ) && forall|m: int|
                        0 <= m < k ==> !before.holds(
                            #[trigger] before.order()[m] as int,
                            path_parent(value@),
                        );
                assert(before.live(parent as int));
            }
        }
        self.add_group(group);
        self.paths.push(Some(value.to_owned()));
        if n > 0 {
            self.adopt(parent, n);
        }
        self.nodes.push(
            Some(
                FileNode {
                    group: group.to_owned(),
                    parent_node_idx: parent,
                    path_idx: n,
                    children: None,
                },
            ),
        );
        proof {
            let t = *self;
            let ni = n as int;
            let pi = parent as int;
            assert(t.live(ni));
            assert forall|i: int| #[trigger] t.live(i) && i < ni implies before.live(i) by {
                if i < ni && i != pi {
                    assert(t.nodes@[i] == before.nodes@[i]);
                }
            }
            assert forall|i: int|
                0 <= i < t.nodes@.len() implies (#[trigger] t.nodes@[i] is Some <==> t.paths@[i] is Some) by {
                if i < ni && i != pi {
                    assert(t.nodes@[i] == before.nodes@[i]);
                }
            }
            assert forall|i: int| #[trigger] t.live(i) implies t.node(i).path_idx == i by {
                if i < ni && i != pi {
                    assert(t.nodes@[i] == before.nodes@[i]);
                }
            }
            assert forall|i: int| #[trigger] t.live(i) implies if i == 0 {
                t.parent(i) == 0
            } else {
                0 <= t.parent(i) < i
            } by {
                if i < ni && i != pi {
                    assert(t.nodes@[i] == before.nodes@[i]);
                }
            }
            assert forall|i: int, k: int| t.live(i) && 0 <= k < t.kids(i).len() implies {
                let c = #[trigger] t.kids(i)[k] as int;
                &&& i < c
                &&& t.live(c)
                &&& t.parent(c) == i
            } by {
                if i == pi && ni > 0 {
                    if k < before.kids(i).len() {
                        assert(t.kids(i)[k] == before.kids(i)[k]);
                        let c = before.kids(i)[k] as int;
                        if c != pi {
                            assert(t.nodes@[c] == before.nodes@[c]);
                        }
                    }
                } else if i < ni {
                    assert(t.nodes@[i] == before.nodes@[i]);
                    let c = before.kids(i)[k] as int;
                    if c != pi {
                        assert(t.nodes@[c] == before.nodes@[c]);
                    }
                }
            }
            assert forall|j: int|
                #[trigger] t.live(j) && j > 0 && t.live(t.parent(j)) implies t.kids(t.parent(j)).contains(j as usize) by {
                if j == ni {
                    assert(t.kids(pi)[t.kids(pi).len() - 1] == j as usize);
                } else {
                    if j != pi {
                        assert(t.nodes@[j] == before.nodes@[j]);
                    }
                    let q = t.parent(j);
                    assert(before.kids(q).contains(j as usize));
                    if q != pi {
                        assert(t.nodes@[q] == before.nodes@[q]);
                    } else {
                        let m = choose|m: int| 0 <= m < before.kids(q).len() && before.kids(q)[m] == j as usize;
                        assert(t.kids(q)[m] == j as usize);
                    }
                }
            }
            assert(t.wf());
        }
        true
    }

    /// Places `value` with group `group`: a new node under the first node in
    /// traversal order that holds the parent directory of `value`, or the
    /// root where the tree has no node yet. The parent directory must be
    /// tracked already; [`Self::try_insert`] reports where it is not.
    pub fn insert(&mut self, value: &str, group: &str)
        requires
            old(self).wf(),
            old(self).can_insert(value@),
        ensures
            final(self).wf(),
            final(self).slots() == old(self).slots() + 1,
            final(self).group_set() == old(self).group_set().insert(group@),
            old(self).inserted(value@, group@, *final(self)),
    {
        self.try_insert(value, group);
    }

    /// `t` is this tree with node `i` tombstoned: its node slot and path
    /// slot become absent, its handle leaves the children of its parent
    /// (the order of the others kept), and its group leaves the group set
    /// where no live node of `t` carries it.
    pub closed spec fn tombstoned(self, i: int, t: FileTree) -> bool {
        let p = self.parent(i);
        let g = self.group_of(i);
        &&& t.wf()
        &&& t.nodes@.len() == self.nodes@.len()
        &&& t.nodes@[i] is None
        &&& t.paths@[i] is None
        &&& forall|j: int| 0 <= j < self.nodes@.len() && j != i ==> #[trigger] t.paths@[j] == self.paths@[j]
        &&& forall|j: int|
            0 <= j < self.nodes@.len() && j != i && j != p ==> #[trigger] t.nodes@[j] == self.nodes@[j]
        &&& p != i ==> {
            &&& t.live(p)
            &&& t.node(p).group == self.node(p).group
            &&& t.node(p).parent_node_idx == self.node(p).parent_node_idx
            &&& t.node(p).path_idx == self.node(p).path_idx
            &&& t.kids(p) == self.kids(p).filter(other_than(i as usize))
        }
        &&& t.group_set() == if exists|j: int| t.live(j) && #[trigger] t.group_of(j) == g {
            self.group_set()
        } else {
            self.group_set().remove(g)
        }
    }

    /// `t` is this tree after removing `v`: the first node in traversal
    /// order that holds `v` is tombstoned, or, where no reached node holds
    /// it, nothing changes.
    pub closed spec fn removed(self, v: Seq<char>, t: FileTree) -> bool {
        if self.tracks(v) {
            exists|i: int| self.first_holder(i, v) && self.tombstoned(i, t)
        } else {
            t == self
        }
    }

    /// Drops handle `c` from the children of node `p`.
    fn detach(&mut self, p: usize, c: usize)
        requires
            old(self).live(p as int),
        ensures
            final(self).nodes@.len() == old(self).nodes@.len(),
            forall|i: int| 0 <= i < old(self).nodes@.len() && i != p ==> #[trigger] final(self).nodes@[i] == old(self).nodes@[i],
            final(self).live(p as int),
            final(self).node(p as int).group == old(self).node(p as int).group,
            final(self).node(p as int).parent_node_idx == old(self).node(p as int).parent_node_idx,
            final(self).node(p as int).path_idx == old(self).node(p as int).path_idx,
            final(self).kids(p as int) == old(self).kids(p as int).filter(other_than(c)),
            final(self).paths == old(self).paths,
            final(self).groups == old(self).groups,
    {
        let mut slot: Option<FileNode> = None;
        self.nodes.set_and_swap(p, &mut slot);
        match slot {
            Some(node) => {
                let kids = match node.children {
                    Some(ch) => Some(filter_out(&ch, c)),
                    None => {
                        proof {
                            reveal(Seq::filter);
                        }
                        None
                    },
                };
                self.nodes.set(
                    p,
                    Some(
                        FileNode {
                            group: node.group,
                            parent_node_idx: node.parent_node_idx,
                            path_idx: node.path_idx,
                            children: kids,
                        },
                    ),
                );
            },
            None => {},
        }
    }

    /// Some live node carries group `g`.
    fn group_in_use(&self, g: &String) -> (r: bool)
        ensures
            r == exists|j: int| self.live(j) && #[trigger] self.group_of(j) == g@,
    {
        let mut k: usize = 0;
        while k < self.nodes.len()
            invariant
                k <= self.nodes@.len(),
                forall|j: int| 0 <= j < k ==> !(self.live(j) && #[trigger] self.group_of(j) == g@),
            decreases self.nodes@.len() - k,
        {
            match &self.nodes[k] {
                Some(node) => {
                    if node.group == *g {
                        assert(self.live(k as int) && self.group_of(k as int) == g@);
                        return true;
                    }
                },
                None => {},
            }
            k = k + 1;
        }
        false
    }

    /// Takes `g` out of the group set.
    fn drop_group(&mut self, g: &String)
        requires
            texts(old(self).groups@).no_duplicates(),
        ensures
            texts(final(self).groups@).no_duplicates(),
            final(self).group_set() == old(self).group_set().remove(g@),
            final(self).nodes == old(self).nodes,
            final(self).paths == old(self).paths,
    {
        let ghost before = texts(self.groups@);
        let mut k: usize = 0;
        while k < self.groups.len()
            invariant
                k <= self.groups@.len(),
                self.groups@ == old(self).groups@,
                self.nodes == old(self).nodes,
                self.paths == old(self).paths,
                before == texts(self.groups@),
                before.no_duplicates(),
                forall|m: int| 0 <= m < k ==> #[trigger] before[m] != g@,
            decreases self.groups@.len() - k,
        {
            if self.groups[k] == *g {
                self.groups.remove(k);
                proof {
                    let after = texts(self.groups@);
                    assert(after =~= before.remove(k as int));
                    assert forall|x: Seq<char>| after.to_set().contains(x) <==> before.to_set().remove(g@).contains(x) by {
                        assert(before[k as int] == g@);
                        if after.contains(x) {
                            let i = choose|i: int| 0 <= i < after.len() && after[i] == x;
                            if i < k {
                                assert(before[i] == x);
                            } else {
                                assert(before[i + 1] == x);
                            }
                            assert(before.contains(x));
                            assert(x != g@);
                        }
                        if before.contains(x) && x != g@ {
                            let i = choose|i: int| 0 <= i < before.len() && before[i] == x;
                            if i < k {
                                assert(after[i] == x);
                            } else {
                                assert(i != k);
                                assert(after[i - 1] == x);
                            }
                        }
                    }
                    assert(after.to_set() =~= before.to_set().remove(g@));
                }
                return;
            }
            k = k + 1;
        }
        assert(before.to_set() =~= before.to_set().remove(g@));
    }

    /// Removes `value`: tombstones the first node in traversal order that
    /// holds it, with its path slot, and takes it from its parent's
    /// children. Its descendants stay live but are no longer reached. Its
    /// group leaves the group set where no live node carries it any more.
    /// Where no reached node holds `value`, nothing changes.
    pub fn remove(&mut self, value: &str)
        requires
            old(self).wf(),
        ensures
            final(self).wf(),
            final(self).slots() == old(self).slots(),
            old(self).removed(value@, *final(self)),
    {
        let idx = match self.find_node_idx(value) {
            Some(i) => i,
            None => {
                return;
            },
        };
        let ghost before = *self;
        proof {
            before.lemma_order_reached();
            let k = choose|k: int|
                0 <= k < before.order().len() && before.order()[k] == idx as int && before.holds(
                    idx as int,
                    value@,
                ) && forall|m: int|
                    0 <= m < k ==> !before.holds(#[trigger] before.order()[m] as int, value@);
            assert(before.order().contains(idx));
            assert(before.reached(idx as int));
            if idx > 0 {
                assert(before.reached(before.parent(idx as int)));
            }
        }
        let mut slot: Option<FileNode> = None;
        self.nodes.set_and_swap(idx, &mut slot);
        match slot {
            Some(node) => {
                let p = node.parent_node_idx;
                if p != idx {
                    self.detach(p, idx);
                }
                self.paths.set(node.path_idx, None);
                let ghost mid = *self;
                let in_use = self.group_in_use(&node.group);
                if !in_use {
                    self.drop_group(&node.group);
                }
                proof {
                    let t = *self;
                    let ii = idx as int;
                    assert(p as int == before.parent(ii));
                    before.lemma_tombstone_wf(t, ii);
                    let g = before.group_of(ii);
                    assert(node.group@ == g);
                    assert(forall|j: int| #[trigger] t.group_of(j) == mid.group_of(j));
                    if in_use {
                        assert(t.groups == before.groups);
                    }
                    assert(before.tombstoned(ii, t));
                }
            },
            None => {},
        }
    }

    /// Proof that tombstoning a reached node, with its path slot and its
    /// handle among its parent's children, keeps the tree well formed.
    proof fn lemma_tombstone_wf(self, t: FileTree, ii: int)
        requires
            self.wf(),
            self.reached(ii),
            texts(t.groups@).no_duplicates(),
            t.nodes@.len() == self.nodes@.len(),
            t.paths@.len() == self.paths@.len(),
            t.nodes@[ii] is None,
            t.paths@[ii] is None,
            forall|j: int| 0 <= j < self.nodes@.len() && j != ii ==> #[trigger] t.paths@[j] == self.paths@[j],
            forall|j: int|
                0 <= j < self.nodes@.len() && j != ii && j != self.parent(ii) ==> #[trigger] t.nodes@[j] == self.nodes@[j],
            self.parent(ii) != ii ==> {
                &&& t.live(self.parent(ii))
                &&& t.node(self.parent(ii)).group == self.node(self.parent(ii)).group
                &&& t.node(self.parent(ii)).parent_node_idx == self.node(self.parent(ii)).parent_node_idx
                &&& t.node(self.parent(ii)).path_idx == self.node(self.parent(ii)).path_idx
                &&& t.kids(self.parent(ii)) == self.kids(self.parent(ii)).filter(other_than(ii as usize))
            },
        ensures
            t.wf(),
    {
        let before = self;
        let pi = self.parent(ii);
        let idx = ii as usize;
        if ii > 0 {
            assert(self.reached(pi));
            assert(self.live(pi));
        }
        assert forall|i: int|
            0 <= i < t.nodes@.len() implies (#[trigger] t.nodes@[i] is Some <==> t.paths@[i] is Some) by {
            if i != pi && i != ii {
                assert(t.nodes@[i] == before.nodes@[i]);
            }
        }
        assert forall|i: int| #[trigger] t.live(i) implies t.node(i).path_idx == i by {
            if i != pi && i != ii {
                assert(t.nodes@[i] == before.nodes@[i]);
            }
            assert(before.live(i));
        }
        assert forall|i: int| #[trigger] t.live(i) implies if i == 0 {
            t.parent(i) == 0
        } else {
            0 <= t.parent(i) < i
        } by {
            if i != pi && i != ii {
                assert(t.nodes@[i] == before.nodes@[i]);
            }
            assert(before.live(i));
        }
        assert forall|i: int, k: int| t.live(i) && 0 <= k < t.kids(i).len() implies {
            let c = #[trigger] t.kids(i)[k] as int;
            &&& i < c
            &&& t.live(c)
            &&& t.parent(c) == i
        } by {
            let c = t.kids(i)[k] as int;
            if i == pi {
                lemma_filter_out(before.kids(pi), idx);
                let ks = before.kids(pi);
                assert(ks.contains(c as usize) && c != ii);
                let m = choose|m: int| 0 <= m < ks.len() && ks[m] == c as usize;
                assert(before.kids(i)[m] == c);
                if c != pi {
                    assert(t.nodes@[c] == before.nodes@[c]);
                }
            } else {
                assert(t.nodes@[i] == before.nodes@[i]);
                assert(before.kids(i)[k] == c);
                if c == ii {
                    assert(before.parent(c) == i);
                }
                if c != pi {
                    assert(t.nodes@[c] == before.nodes@[c]);
                }
            }
        }
        assert forall|j: int|
            #[trigger] t.live(j) && j > 0 && t.live(t.parent(j)) implies t.kids(t.parent(j)).contains(j as usize) by {
            if j != pi {
                assert(t.nodes@[j] == before.nodes@[j]);
            }
            let q = t.parent(j);
            assert(q == before.parent(j));
            assert(before.live(j));
            if q != pi {
                assert(t.nodes@[q] == before.nodes@[q]);
                assert(before.live(q));
            } else {
                assert(before.live(q));
                assert(before.kids(q).contains(j as usize));
                lemma_filter_out(before.kids(pi), idx);
            }
        }
        assert forall|i: int|
            #[trigger] t.live(i) && i > 0 && t.live(t.parent(i)) implies paths_match(
                t.path_of(t.parent(i)),
                path_parent(t.path_of(i)),
            ) by {
            if i != pi {
                assert(t.nodes@[i] == before.nodes@[i]);
            }
            assert(before.live(i));
            let q = t.parent(i);
            assert(q == before.parent(i));
            if q != pi {
                assert(t.nodes@[q] == before.nodes@[q]);
            }
            assert(before.live(q));
            assert(t.paths@[i] == before.paths@[i]);
            assert(t.paths@[q] == before.paths@[q]);
            assert(t.path_of(i) == before.path_of(i));
            assert(t.path_of(q) == before.path_of(q));
        }
    }

    /// Node `j` is `a` or lies below `a` along the chain of live parents.
    pub closed spec fn descends(self, j: int, a: int) -> bool
        decreases j,
    {
        if j == a {
            true
        } else if self.live(j) && 0 < j && 0 <= self.parent(j) < j {
            self.descends(self.parent(j), a)
        } else {
            false
        }
    }

    /// Proof that a node descends only from nodes with no larger handle.
    proof fn lemma_descends_below(self, j: int, a: int)
        requires
            self.descends(j, a),
        ensures
            a <= j,
        decreases j,
    {
        if j != a {
            self.lemma_descends_below(self.parent(j), a);
        }
    }

    /// Proof that reaching a node depends only on the liveness and the
    /// parents of the nodes up to it.
    proof fn lemma_reached_frame(self, b: FileTree, j: int)
        requires
            forall|i: int| 0 <= i <= j ==> #[trigger] self.live(i) == b.live(i),
            forall|i: int| 0 <= i <= j && #[trigger] self.live(i) ==> self.parent(i) == b.parent(i),
        ensures
            self.reached(j) == b.reached(j),
        decreases j,
    {
        if j > 0 && self.live(j) {
            let p = self.parent(j);
            if 0 <= p < j {
                self.lemma_reached_frame(b, p);
            }
        }
    }

    /// After an insertion the walk reaches the new node, which holds the
    /// path, and reaches every older node exactly as before, with its path
    /// and group unchanged: one more reached entry, none merged.
    pub proof fn lemma_inserted_frame(self, v: Seq<char>, g: Seq<char>, t: FileTree)
        requires
            self.wf(),
            self.inserted(v, g, t),
        ensures
            t.reached(self.slots() as int),
            forall|j: int| 0 <= j < self.slots() ==> #[trigger] t.reached(j) == self.reached(j),
            forall|j: int| 0 <= j < self.slots() && self.live(j) ==> #[trigger] t.path_of(j) == self.path_of(j),
            forall|j: int| 0 <= j < self.slots() && self.live(j) ==> #[trigger] t.group_of(j) == self.group_of(j),
    {
        let n = self.slots() as int;
        let p = t.parent(n);
        if n > 0 {
            self.lemma_order_reached();
            let k = choose|k: int|
                0 <= k < self.order().len() && self.order()[k] == p && self.holds(p, path_parent(v))
                    && forall|m: int| 0 <= m < k ==> !self.holds(#[trigger] self.order()[m] as int, path_parent(v));
            assert(self.order().contains(p as usize));
            assert(self.reached(p as usize as int));
        }
        assert forall|i: int| 0 <= i < n implies #[trigger] self.live(i) == t.live(i) && (self.live(i) ==> self.parent(i) == t.parent(i)) by {
            if i != p {
                assert(t.nodes@[i] == self.nodes@[i]);
            }
        }
        assert forall|j: int| 0 <= j < n implies #[trigger] t.reached(j) == self.reached(j) by {
            self.lemma_reached_frame(t, j);
        }
        assert forall|j: int| 0 <= j < n && self.live(j) implies #[trigger] t.path_of(j) == self.path_of(j) && t.group_of(j) == self.group_of(j) by {
            if j != p {
                assert(t.nodes@[j] == self.nodes@[j]);
            }
            assert(t.paths@[j] == self.paths@[j]);
        }
        if n > 0 {
            assert(t.reached(p));
        }
    }

    /// Proof that after a node is tombstoned the walk reaches exactly the
    /// nodes it reached before that do not lie below the tombstoned one.
    proof fn lemma_tombstoned_reached(self, ii: int, t: FileTree)
        requires
            self.wf(),
            self.reached(ii),
            self.tombstoned(ii, t),
        ensures
            forall|j: int| #[trigger] t.reached(j) <==> self.reached(j) && !self.descends(j, ii),
            forall|j: int| #[trigger] t.live(j) <==> self.live(j) && j != ii,
            forall|j: int| t.live(j) ==> #[trigger] t.path_of(j) == self.path_of(j),
    {
        let p = self.parent(ii);
        if ii > 0 {
            assert(self.reached(p));
        }
        assert forall|i: int| #[trigger] t.live(i) <==> self.live(i) && i != ii by {
            if 0 <= i < self.nodes@.len() && i != p && i != ii {
                assert(t.nodes@[i] == self.nodes@[i]);
            }
        }
        assert forall|i: int| #[trigger] t.live(i) implies t.parent(i) == self.parent(i) && t.path_of(i) == self.path_of(i) by {
            if i != p {
                assert(t.nodes@[i] == self.nodes@[i]);
            }
            assert(t.paths@[i] == self.paths@[i]);
        }
        assert forall|j: int| #[trigger] t.reached(j) <==> self.reached(j) && !self.descends(j, ii) by {
            self.lemma_tombstoned_reached_at(ii, t, j);
        }
    }

    proof fn lemma_tombstoned_reached_at(self, ii: int, t: FileTree, j: int)
        requires
            self.wf(),
            forall|i: int| #[trigger] t.live(i) <==> self.live(i) && i != ii,
            forall|i: int| #[trigger] t.live(i) ==> t.parent(i) == self.parent(i),
        ensures
            t.reached(j) <==> self.reached(j) && !self.descends(j, ii),
        decreases j,
    {
        if self.live(j) && j != ii && j > 0 {
            assert(t.live(j));
            let p = self.parent(j);
            assert(0 <= p < j);
            self.lemma_tombstoned_reached_at(ii, t, p);
        }
    }

    /// A new tree is vacant, a tree after an insertion is not.
    pub proof fn lemma_insert_occupies(self, v: Seq<char>, g: Seq<char>, t: FileTree)
        requires
            self.wf(),
            self.inserted(v, g, t),
        ensures
            !t.vacant(),
    {
        assert(t.nodes@[self.slots() as int] is Some);
    }

    /// Removing the path of the sole live node, where the walk reaches it,
    /// leaves every slot absent.
    pub proof fn lemma_remove_last_vacates(self, j: int, t: FileTree)
        requires
            self.wf(),
            forall|i: int| #[trigger] self.live(i) <==> i == j,
            self.reached(j),
            self.removed(self.path_of(j), t),
        ensures
            t.vacant(),
    {
        let v = self.path_of(j);
        assert(self.tracks(v));
        let i = choose|i: int| self.first_holder(i, v) && self.tombstoned(i, t);
        assert(self.live(i));
        assert(i == j);
        if j > 0 {
            assert(self.reached(self.parent(j)));
            assert(self.live(self.parent(j)));
        }
        assert forall|k: int| 0 <= k < t.nodes@.len() implies #[trigger] t.nodes@[k] is None by {
            if k != j {
                assert(!self.live(k));
                assert(t.nodes@[k] == self.nodes@[k]);
            }
        }
        assert forall|k: int| 0 <= k < t.paths@.len() implies #[trigger] t.paths@[k] is None by {
            if k != j {
                assert(!self.live(k));
                assert(self.nodes@[k] is None);
                assert(t.paths@[k] == self.paths@[k]);
            }
        }
    }

    /// After an insertion the tree tracks the path, and the group's paths
    /// hold it.
    pub proof fn lemma_insert_tracks(self, v: Seq<char>, g: Seq<char>, t: FileTree)
        requires
            self.wf(),
            self.inserted(v, g, t),
        ensures
            t.tracks(v),
            t.listed(g, v),
    {
        self.lemma_inserted_frame(v, g, t);
        let n = self.slots() as int;
        assert(t.reached(n) && t.path_of(n) == v && t.group_of(n) == g);
    }

    /// Inserting a path that the tree does not track and then removing it
    /// leaves it untracked and out of the paths of every group.
    pub proof fn lemma_insert_then_remove(
        self,
        v: Seq<char>,
        g: Seq<char>,
        t1: FileTree,
        t2: FileTree,
    )
        requires
            self.wf(),
            !self.tracks(v),
            self.inserted(v, g, t1),
            t1.removed(v, t2),
        ensures
            !t2.tracks(v),
            forall|h: Seq<char>| !#[trigger] t2.listed(h, v),
    {
        let n = self.slots() as int;
        self.lemma_inserted_frame(v, g, t1);
        self.lemma_insert_tracks(v, g, t1);
        let i = choose|i: int| t1.first_holder(i, v) && t1.tombstoned(i, t2);
        t1.lemma_order_reached();
        let k = choose|k: int|
            0 <= k < t1.order().len() && t1.order()[k] == i && t1.holds(i, v) && forall|m: int|
                0 <= m < k ==> !t1.holds(#[trigger] t1.order()[m] as int, v);
        assert(t1.order().contains(i as usize));
        assert(t1.reached(i as usize as int));
        if i != n {
            assert(t1.reached(i) == self.reached(i));
            assert(t1.path_of(i) == self.path_of(i));
        }
        t1.lemma_tombstoned_reached(i, t2);
        assert forall|j: int| t2.reached(j) implies !paths_match(#[trigger] t2.path_of(j), v) by {
            assert(t1.reached(j));
            assert(j != n);
            assert(t1.reached(j) == self.reached(j));
            assert(t1.path_of(j) == self.path_of(j));
        }
        assert forall|h: Seq<char>| !#[trigger] t2.listed(h, v) by {
            if t2.listed(h, v) {
                let j = choose|j: int|
                    t2.reached(j) && t2.group_of(j) == h && paths_match(#[trigger] t2.path_of(j), v);
            }
        }
    }

    /// Removing a path tombstones the first node in traversal order that
    /// holds it; afterwards the walk reaches exactly the nodes it reached
    /// before that do not lie below that node, so its descendants leave
    /// every query though they stay live.
    pub proof fn lemma_remove_detaches(self, v: Seq<char>, t: FileTree)
        requires
            self.wf(),
            self.tracks(v),
            self.removed(v, t),
        ensures
            exists|i: int|
                self.first_holder(i, v) && !t.live(i) && forall|j: int|
                    #[trigger] t.reached(j) <==> self.reached(j) && !self.descends(j, i),
    {
        let i = choose|i: int| self.first_holder(i, v) && self.tombstoned(i, t);
        self.lemma_order_reached();
        let k = choose|k: int|
            0 <= k < self.order().len() && self.order()[k] == i && self.holds(i, v) && forall|m: int|
                0 <= m < k ==> !self.holds(#[trigger] self.order()[m] as int, v);
        assert(self.order().contains(i as usize));
        assert(self.reached(i as usize as int));
        self.lemma_tombstoned_reached(i, t);
        assert(!t.live(i));
        assert(self.first_holder(i, v) && !t.live(i) && forall|j: int|
            #[trigger] t.reached(j) <==> self.reached(j) && !self.descends(j, i));
    }

    /// Inserting a path that the tree does not track twice gives two live
    /// nodes that the walk reaches; removing the path once tombstones one of
    /// them and the tree still tracks it. A path that is its own parent
    /// directory would hang its second node below the first, so it is left
    /// out.
    pub proof fn lemma_insert_twice_remove_once(
        self,
        v: Seq<char>,
        g1: Seq<char>,
        t1: FileTree,
        g2: Seq<char>,
        t2: FileTree,
        t3: FileTree,
    )
        requires
            self.wf(),
            !self.tracks(v),
            !paths_match(v, path_parent(v)),
            self.inserted(v, g1, t1),
            t1.inserted(v, g2, t2),
            t2.removed(v, t3),
        ensures
            t2.reached(self.slots() as int),
            t2.reached(self.slots() as int + 1),
            t2.path_of(self.slots() as int) == v,
            t2.path_of(self.slots() as int + 1) == v,
            t3.live(self.slots() as int) != t3.live(self.slots() as int + 1),
            t3.tracks(v),
    {
        let n = self.slots() as int;
        self.lemma_inserted_frame(v, g1, t1);
        t1.lemma_inserted_frame(v, g2, t2);
        assert(t2.reached(n));
        assert(t2.path_of(n) == t1.path_of(n));
        assert(t2.tracks(v));
        let i = choose|i: int| t2.first_holder(i, v) && t2.tombstoned(i, t3);
        t2.lemma_order_reached();
        let k = choose|k: int|
            0 <= k < t2.order().len() && t2.order()[k] == i && t2.holds(i, v) && forall|m: int|
                0 <= m < k ==> !t2.holds(#[trigger] t2.order()[m] as int, v);
        assert(t2.order().contains(i as usize));
        assert(t2.reached(i as usize as int));
        if i < n {
            assert(t2.reached(i) == t1.reached(i));
            assert(t1.reached(i) == self.reached(i));
            assert(t2.path_of(i) == t1.path_of(i));
            assert(t1.path_of(i) == self.path_of(i));
        }
        assert(i == n || i == n + 1);
        t2.lemma_tombstoned_reached(i, t3);
        if i == n + 1 {
            if t2.descends(n, n + 1) {
                t2.lemma_descends_below(n, n + 1);
            }
            assert(t3.reached(n));
            assert(t3.path_of(n) == v);
        } else {
            let up = t2.parent(n + 1);
            t1.lemma_order_reached();
            let k1 = choose|k1: int|
                0 <= k1 < t1.order().len() && t1.order()[k1] == up && t1.holds(up, path_parent(v))
                    && forall|m: int| 0 <= m < k1 ==> !t1.holds(#[trigger] t1.order()[m] as int, path_parent(v));
            assert(t1.live(up));
            assert(t1.path_of(n) == v);
            assert(up != n);
            assert(up < n);
            assert(t2.live(n + 1) && 0 < n + 1 && 0 <= t2.parent(n + 1) < n + 1);
            if t2.descends(up, n) {
                t2.lemma_descends_below(up, n);
            }
            assert(!t2.descends(n + 1, n));
            assert(t3.reached(n + 1));
            assert(t3.path_of(n + 1) == v);
        }
    }

    /// An insertion keeps every path that the tree tracked tracked, and
    /// every path that a group listed listed.
    pub proof fn lemma_insert_keeps(self, v: Seq<char>, g: Seq<char>, t: FileTree)
        requires
            self.wf(),
            self.inserted(v, g, t),
        ensures
            forall|w: Seq<char>| self.tracks(w) ==> #[trigger] t.tracks(w),
            forall|h: Seq<char>, w: Seq<char>| self.listed(h, w) ==> #[trigger] t.listed(h, w),
            t.slots() > 0,
    {
        self.lemma_inserted_frame(v, g, t);
        assert forall|w: Seq<char>| self.tracks(w) implies #[trigger] t.tracks(w) by {
            let j = choose|j: int| self.reached(j) && paths_match(#[trigger] self.path_of(j), w);
            assert(t.reached(j) && t.path_of(j) == self.path_of(j));
        }
        assert forall|h: Seq<char>, w: Seq<char>| self.listed(h, w) implies #[trigger] t.listed(h, w) by {
            let j = choose|j: int|
                self.reached(j) && self.group_of(j) == h && paths_match(#[trigger] self.path_of(j), w);
            assert(t.reached(j) && t.path_of(j) == self.path_of(j) && t.group_of(j) == self.group_of(j));
        }
    }

    /// Removing a path that the tree does not track leaves it unchanged.
    pub proof fn lemma_remove_untracked(self, v: Seq<char>, t: FileTree)
        requires
            self.removed(v, t),
            !self.tracks(v),
        ensures
            t == self,
    {
    }

    /// Removing a path that exactly one reached node holds leaves it
    /// untracked and listed in no group.
    pub proof fn lemma_remove_sole_holder(self, v: Seq<char>, t: FileTree)
        requires
            self.wf(),
            self.tracks(v),
            forall|j: int, k: int|
                self.reached(j) && self.reached(k) && paths_match(#[trigger] self.path_of(j), v)
                    && paths_match(#[trigger] self.path_of(k), v) ==> j == k,
            self.removed(v, t),
        ensures
            !t.tracks(v),
            forall|h: Seq<char>| !#[trigger] t.listed(h, v),
    {
        let i = choose|i: int| self.first_holder(i, v) && self.tombstoned(i, t);
        self.lemma_order_reached();
        let k = choose|k: int|
            0 <= k < self.order().len() && self.order()[k] == i && self.holds(i, v) && forall|m: int|
                0 <= m < k ==> !self.holds(#[trigger] self.order()[m] as int, v);
        assert(self.order().contains(i as usize));
        assert(self.reached(i as usize as int));
        self.lemma_tombstoned_reached(i, t);
        assert forall|j: int| t.reached(j) implies !paths_match(#[trigger] t.path_of(j), v) by {
            assert(self.reached(j) && !self.descends(j, i));
            assert(j != i);
            assert(t.live(j));
            assert(t.path_of(j) == self.path_of(j));
        }
        assert forall|h: Seq<char>| !#[trigger] t.listed(h, v) by {
            if t.listed(h, v) {
                let j = choose|j: int|
                    t.reached(j) && t.group_of(j) == h && paths_match(#[trigger] t.path_of(j), v);
            }
        }
    }

    /// Inserting a path that the tree does not track twice and removing it
    /// twice leaves it untracked: each removal takes one of the two nodes.
    pub proof fn lemma_insert_twice_remove_twice(
        self,
        v: Seq<char>,
        g1: Seq<char>,
        t1: FileTree,
        g2: Seq<char>,
        t2: FileTree,
        t3: FileTree,
        t4: FileTree,
    )
        requires
            self.wf(),
            !self.tracks(v),
            !paths_match(v, path_parent(v)),
            self.inserted(v, g1, t1),
            t1.inserted(v, g2, t2),
            t2.removed(v, t3),
            t3.removed(v, t4),
        ensures
            !t4.tracks(v),
    {
        let n = self.slots() as int;
        self.lemma_insert_twice_remove_once(v, g1, t1, g2, t2, t3);
        self.lemma_inserted_frame(v, g1, t1);
        t1.lemma_inserted_frame(v, g2, t2);
        let i = choose|i: int| t2.first_holder(i, v) && t2.tombstoned(i, t3);
        t2.lemma_order_reached();
        let k = choose|k: int|
            0 <= k < t2.order().len() && t2.order()[k] == i && t2.holds(i, v) && forall|m: int|
                0 <= m < k ==> !t2.holds(#[trigger] t2.order()[m] as int, v);
        assert(t2.order().contains(i as usize));
        assert(t2.reached(i as usize as int));
        t2.lemma_tombstoned_reached(i, t3);
        assert forall|j: int|
            t2.reached(j) && paths_match(#[trigger] t2.path_of(j), v) implies j == n || j == n + 1 by {
            if j < n {
                assert(t2.reached(j) == t1.reached(j));
                assert(t1.reached(j) == self.reached(j));
                assert(t2.path_of(j) == t1.path_of(j));
                assert(t1.path_of(j) == self.path_of(j));
            }
        }
        assert forall|j: int, m: int|
            t3.reached(j) && t3.reached(m) && paths_match(#[trigger] t3.path_of(j), v) && paths_match(
                #[trigger] t3.path_of(m),
                v,
            ) implies j == m by {
            assert(t2.reached(j) && t2.reached(m) && j != i && m != i);
            assert(t3.path_of(j) == t2.path_of(j) && t3.path_of(m) == t2.path_of(m));
        }
        t3.lemma_remove_sole_holder(v, t4);
    }
}

} // verus!
