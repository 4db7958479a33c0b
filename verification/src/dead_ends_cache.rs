//! The dead-ends cache: a trie keyed by sequences of interned condition
//! handles. Each trie node may carry the set of conditions known to be
//! unproductive immediately after that prefix. The cache is created fresh
//! per traversal and only ever grows while one traversal runs.

use vstd::prelude::*;

use crate::small_bitmap::SmallBitmap;

verus! {

pub struct DeadEndsCacheNode {
    /// Children, keyed by the next condition of the prefix.
    pub children: Vec<(usize, usize)>,
    /// Conditions forbidden right after the prefix this node spells.
    pub forbidden: Option<SmallBitmap>,
}

/// A prefix-indexed cache of condition sets known to be unproductive.
pub struct DeadEndsCache {
    pub nodes: Vec<DeadEndsCacheNode>,
    pub num_conditions: usize,
}

/// The handles a bitmap holds, as a set.
pub open spec fn bits_of(b: Seq<bool>) -> Set<int> {
    Set::new(|c: int| 0 <= c < b.len() && b[c])
}

/// The first child listed for `cond` from position `i` on.
pub open spec fn spec_child_from(children: Seq<(usize, usize)>, i: int, cond: usize) -> Option<
    usize,
>
    decreases children.len() - i,
{
    if i < 0 || i >= children.len() {
        None
    } else if children[i].0 == cond {
        Some(children[i].1)
    } else {
        spec_child_from(children, i + 1, cond)
    }
}

/// The child the trie steps to on `cond`: the first listed for it.
pub open spec fn spec_child(children: Seq<(usize, usize)>, cond: usize) -> Option<usize> {
    spec_child_from(children, 0, cond)
}

/// A found child is one of the listed pairs.
proof fn lemma_spec_child_from_listed(children: Seq<(usize, usize)>, i: int, cond: usize)
    requires
        spec_child_from(children, i, cond) is Some,
    ensures
        exists|k: int|
            0 <= k < children.len() && (#[trigger] children[k]).0 == cond && children[k].1
                == spec_child_from(children, i, cond)->0,
    decreases children.len() - i,
{
    if 0 <= i < children.len() {
        if children[i].0 == cond {
            assert(children[i].1 == spec_child_from(children, i, cond)->0);
        } else {
            lemma_spec_child_from_listed(children, i + 1, cond);
        }
    }
}

proof fn lemma_spec_child_listed(children: Seq<(usize, usize)>, cond: usize)
    requires
        spec_child(children, cond) is Some,
    ensures
        exists|k: int|
            0 <= k < children.len() && (#[trigger] children[k]).0 == cond && children[k].1
                == spec_child(children, cond)->0,
{
    lemma_spec_child_from_listed(children, 0, cond);
}

/// Appending a child for a condition the list does not serve yet makes it
/// the one found.
proof fn lemma_spec_child_append(children: Seq<(usize, usize)>, i: int, cond: usize, ch: usize)
    requires
        0 <= i <= children.len(),
        spec_child_from(children, i, cond) is None,
    ensures
        spec_child_from(children.push((cond, ch)), i, cond) == Some(ch),
    decreases children.len() - i,
{
    let pushed = children.push((cond, ch));
    if i == children.len() {
        assert(pushed[i] == (cond, ch));
        assert(spec_child_from(pushed, i, cond) == Some(ch));
    } else {
        assert(pushed[i] == children[i]);
        lemma_spec_child_append(children, i + 1, cond, ch);
    }
}

/// An independent copy of a child list.
fn copy_children(v: &Vec<(usize, usize)>) -> (r: Vec<(usize, usize)>)
    ensures
        r@ == v@,
{
    let n = v.len();
    let mut r: Vec<(usize, usize)> = Vec::new();
    let mut k: usize = 0;
    while k < n
        invariant
            n == v@.len(),
            k <= n,
            r@.len() == k,
            forall|i: int| 0 <= i < k ==> r@[i] == v@[i],
        decreases n - k,
    {
        r.push(v[k]);
        k += 1;
    }
    proof {
        assert(r@ =~= v@);
    }
    r
}

impl DeadEndsCache {
    pub open spec fn wf(&self) -> bool {
        &&& self.nodes@.len() >= 1
        &&& forall|i: int, k: int|
            0 <= i < self.nodes@.len() && 0 <= k < self.nodes@[i].children@.len() ==> i < (
            #[trigger] self.nodes@[i].children@[k]).1 < self.nodes@.len()
        &&& forall|i: int|
            0 <= i < self.nodes@.len() ==> ((#[trigger] self.nodes@[i].forbidden) matches Some(b)
                ==> b@.len() == self.num_conditions)
    }

    /// The conditions forbidden right after the prefix spelled by `node`.
    pub open spec fn forbidden_of(&self, node: int) -> Set<int> {
        match self.nodes@[node].forbidden {
            Some(b) => Set::new(|c: int| 0 <= c < b@.len() && b@[c]),
            None => Set::empty(),
        }
    }

    /// The node the trie reaches from `node` on `prefix`, if the walk
    /// finds a child at every step.
    pub open spec fn spec_node_at(&self, node: int, prefix: Seq<usize>) -> Option<int>
        decreases prefix.len(),
    {
        if prefix.len() == 0 {
            Some(node)
        } else {
            match spec_child(self.nodes@[node].children@, prefix[0]) {
                Some(ch) => self.spec_node_at(ch as int, prefix.drop_first()),
                None => None,
            }
        }
    }

    /// The forbidden set stored for exactly this prefix, where the trie
    /// holds one.
    pub open spec fn forbidden_after(&self, prefix: Seq<usize>) -> Option<Seq<bool>> {
        match self.spec_node_at(0, prefix) {
            Some(n) => match self.nodes@[n].forbidden {
                Some(b) => Some(b@),
                None => None,
            },
            None => None,
        }
    }

    /// The union of the forbidden sets met while walking `rest` from
    /// `node`, the node's own set included; the walk stops early where the
    /// trie has no matching child.
    pub open spec fn walk_union(&self, node: int, rest: Seq<usize>) -> Set<int>
        decreases rest.len(),
    {
        self.forbidden_of(node).union(
            if rest.len() == 0 {
                Set::empty()
            } else {
                match spec_child(self.nodes@[node].children@, rest[0]) {
                    Some(ch) => self.walk_union(ch as int, rest.drop_first()),
                    None => Set::empty(),
                }
            },
        )
    }

    /// A reached node never lies before the start, and always inside the
    /// arena.
    pub proof fn lemma_node_at_bounds(&self, start: int, prefix: Seq<usize>, end: int)
        requires
            self.wf(),
            0 <= start < self.nodes@.len(),
            self.spec_node_at(start, prefix) == Some(end),
        ensures
            start <= end < self.nodes@.len(),
        decreases prefix.len(),
    {
        if prefix.len() > 0 {
            let ch = spec_child(self.nodes@[start].children@, prefix[0]);
            assert(ch is Some);
            lemma_spec_child_listed(self.nodes@[start].children@, prefix[0]);
            self.lemma_node_at_bounds(ch->0 as int, prefix.drop_first(), end);
        }
    }

    /// The walk reads only the child lists of nodes before its end, so a
    /// change past them leaves it alone.
    pub proof fn lemma_node_at_frame(
        &self,
        other: &DeadEndsCache,
        start: int,
        prefix: Seq<usize>,
        end: int,
    )
        requires
            self.wf(),
            0 <= start < self.nodes@.len(),
            self.spec_node_at(start, prefix) == Some(end),
            other.nodes@.len() >= self.nodes@.len(),
            forall|n: int|
                0 <= n < end ==> (#[trigger] other.nodes@[n]).children@
                    == self.nodes@[n].children@,
        ensures
            other.spec_node_at(start, prefix) == Some(end),
        decreases prefix.len(),
    {
        if prefix.len() > 0 {
            let ch = spec_child(self.nodes@[start].children@, prefix[0]);
            assert(ch is Some);
            lemma_spec_child_listed(self.nodes@[start].children@, prefix[0]);
            assert(start < ch->0);
            self.lemma_node_at_bounds(ch->0 as int, prefix.drop_first(), end);
            assert(other.nodes@[start].children@ == self.nodes@[start].children@);
            self.lemma_node_at_frame(other, ch->0 as int, prefix.drop_first(), end);
        }
    }

    /// Extending the prefix by one step walks one child further.
    pub proof fn lemma_node_at_snoc(&self, start: int, prefix: Seq<usize>, x: usize)
        ensures
            self.spec_node_at(start, prefix.push(x)) == (match self.spec_node_at(start, prefix) {
                Some(e) => match spec_child(self.nodes@[e].children@, x) {
                    Some(ch) => Some(ch as int),
                    None => None,
                },
                None => None,
            }),
        decreases prefix.len(),
    {
        if prefix.len() == 0 {
            assert(prefix.push(x)[0] == x);
            assert(prefix.push(x).drop_first() =~= Seq::<usize>::empty());
            match spec_child(self.nodes@[start].children@, x) {
                Some(ch) => {
                    assert(self.spec_node_at(ch as int, prefix.push(x).drop_first()) == Some(
                        ch as int,
                    ));
                },
                None => {},
            }
        } else {
            assert(prefix.push(x)[0] == prefix[0]);
            assert(prefix.push(x).drop_first() =~= prefix.drop_first().push(x));
            match spec_child(self.nodes@[start].children@, prefix[0]) {
                Some(ch) => {
                    self.lemma_node_at_snoc(ch as int, prefix.drop_first(), x);
                },
                None => {},
            }
        }
    }

    pub fn new(num_conditions: usize) -> (r: Self)
        ensures
            r.wf(),
            r.num_conditions == num_conditions,
            r.nodes@.len() == 1,
            r.forbidden_of(0) =~= Set::empty(),
    {
        let root = DeadEndsCacheNode { children: Vec::new(), forbidden: None };
        let mut nodes: Vec<DeadEndsCacheNode> = Vec::new();
        nodes.push(root);
        DeadEndsCache { nodes, num_conditions }
    }

    /// Finds the child of `node` reached on `cond`, if any.
    fn find_child(&self, node: usize, cond: usize) -> (r: Option<usize>)
        requires
            self.wf(),
            node < self.nodes@.len(),
        ensures
            r == spec_child(self.nodes@[node as int].children@, cond),
            r matches Some(ch) ==> node < ch < self.nodes@.len() && exists|k: int|
                0 <= k < self.nodes@[node as int].children@.len() && (
                #[trigger] self.nodes@[node as int].children@[k]).0 == cond
                    && self.nodes@[node as int].children@[k].1 == ch,
    {
        let n = self.nodes[node].children.len();
        let mut k: usize = 0;
        while k < n
            invariant
                self.wf(),
                node < self.nodes@.len(),
                n == self.nodes@[node as int].children@.len(),
                k <= n,
                spec_child(self.nodes@[node as int].children@, cond) == spec_child_from(
                    self.nodes@[node as int].children@,
                    k as int,
                    cond,
                ),
            decreases n - k,
        {
            let pair = self.nodes[node].children[k];
            if pair.0 == cond {
                proof {
                    assert(self.nodes@[node as int].children@[k as int].0 == cond);
                }
                return Some(pair.1);
            }
            k += 1;
        }
        None
    }

    /// The union of the forbidden sets met while walking `path` from the
    /// root, the root's own set included; the walk stops early where the
    /// trie has no matching child.
    #[verifier::loop_isolation(false)]
    pub fn forbidden_conditions_for_all_prefixes_up_to(&self, path: &Vec<usize>) -> (r:
        SmallBitmap)
        requires
            self.wf(),
        ensures
            r@.len() == self.num_conditions,
            forall|c: int|
                0 <= c < r@.len() ==> ((#[trigger] r@[c]) <==> self.walk_union(0, path@).contains(
                    c,
                )),
    {
        let ghost full = self.walk_union(0, path@);
        let mut acc = SmallBitmap::new(self.num_conditions);
        let mut node: usize = 0;
        let mut i: usize = 0;
        self.union_forbidden_into(0, &mut acc);
        proof {
            assert(path@.subrange(0, path@.len() as int) =~= path@);
        }
        while i < path.len()
            invariant
                self.wf(),
                node < self.nodes@.len(),
                i <= path@.len(),
                acc@.len() == self.num_conditions,
                self.forbidden_of(node as int).subset_of(bits_of(acc@)),
                bits_of(acc@).union(
                    self.walk_union(node as int, path@.subrange(i as int, path@.len() as int)),
                ) == full,
            decreases path@.len() - i,
        {
            let ghost rest = path@.subrange(i as int, path@.len() as int);
            let ghost pre_acc = acc@;
            match self.find_child(node, path[i]) {
                Some(ch) => {
                    let ghost old_node = node as int;
                    node = ch;
                    self.union_forbidden_into(node, &mut acc);
                    proof {
                        let rest2 = path@.subrange(i + 1, path@.len() as int);
                        assert(rest.drop_first() =~= rest2);
                        assert(rest[0] == path@[i as int]);
                        assert(self.walk_union(old_node, rest) == self.forbidden_of(
                            old_node,
                        ).union(self.walk_union(ch as int, rest2)));
                        assert(bits_of(acc@) =~= bits_of(pre_acc).union(
                            self.forbidden_of(ch as int),
                        ));
                        assert(bits_of(acc@).union(self.walk_union(ch as int, rest2))
                            =~= full);
                    }
                },
                None => {
                    proof {
                        assert(rest[0] == path@[i as int]);
                        assert(self.walk_union(node as int, rest) == self.forbidden_of(
                            node as int,
                        ).union(Set::empty()));
                        assert(bits_of(acc@).union(self.walk_union(node as int, rest))
                            =~= bits_of(acc@));
                        assert(bits_of(acc@) =~= full);
                    }
                    return acc;
                },
            }
            i += 1;
        }
        proof {
            let rest = path@.subrange(i as int, path@.len() as int);
            assert(rest =~= Seq::<usize>::empty());
            assert(self.walk_union(node as int, rest) == self.forbidden_of(node as int).union(
                Set::empty(),
            ));
            assert(bits_of(acc@).union(self.walk_union(node as int, rest)) =~= bits_of(acc@));
            assert(bits_of(acc@) =~= full);
        }
        acc
    }

    /// Adds the forbidden set of `node`, if any, to `acc`.
    fn union_forbidden_into(&self, node: usize, acc: &mut SmallBitmap)
        requires
            self.wf(),
            node < self.nodes@.len(),
            old(acc)@.len() == self.num_conditions,
        ensures
            final(acc)@.len() == self.num_conditions,
            forall|c: int|
                0 <= c < final(acc)@.len() ==> ((#[trigger] final(acc)@[c]) <==> (old(acc)@[c]
                    || self.forbidden_of(node as int).contains(c))),
    {
        match &self.nodes[node].forbidden {
            Some(b) => {
                proof {
                    assert(*b == self.nodes@[node as int].forbidden->0);
                }
                acc.union(b);
                proof {
                    assert forall|c: int| 0 <= c < acc@.len() implies ((#[trigger] acc@[c]) <==> (
                    old(acc)@[c] || self.forbidden_of(node as int).contains(c))) by {
                        assert(self.forbidden_of(node as int).contains(c) == (0 <= c < b@.len()
                            && b@[c]));
                    }
                }
            },
            None => {
                proof {
                    assert(self.forbidden_of(node as int) =~= Set::empty());
                }
            },
        }
    }

    /// The conditions forbidden immediately after the exact prefix `path`,
    /// or `None` where the trie holds nothing for it.
    #[verifier::loop_isolation(false)]
    pub fn forbidden_conditions_after_prefix(&self, path: &Vec<usize>) -> (r: Option<SmallBitmap>)
        requires
            self.wf(),
        ensures
            r matches Some(b) ==> b@.len() == self.num_conditions,
            r is Some <==> self.forbidden_after(path@) is Some,
            r matches Some(b) ==> Some(b@) == self.forbidden_after(path@),
    {
        let mut node: usize = 0;
        let mut i: usize = 0;
        proof {
            assert(path@.subrange(0, path@.len() as int) =~= path@);
        }
        while i < path.len()
            invariant
                self.wf(),
                node < self.nodes@.len(),
                i <= path@.len(),
                self.spec_node_at(0, path@) == self.spec_node_at(
                    node as int,
                    path@.subrange(i as int, path@.len() as int),
                ),
            decreases path@.len() - i,
        {
            let ghost rest = path@.subrange(i as int, path@.len() as int);
            match self.find_child(node, path[i]) {
                Some(ch) => {
                    proof {
                        assert(rest[0] == path@[i as int]);
                        assert(rest.drop_first() =~= path@.subrange(i + 1, path@.len() as int));
                    }
                    node = ch;
                },
                None => {
                    proof {
                        assert(rest[0] == path@[i as int]);
                        assert(self.spec_node_at(0, path@) is None);
                    }
                    return None;
                },
            }
            i += 1;
        }
        proof {
            assert(path@.subrange(i as int, path@.len() as int) =~= Seq::<usize>::empty());
            assert(self.spec_node_at(0, path@) == Some(node as int));
        }
        match &self.nodes[node].forbidden {
            Some(b) => Some(b.duplicate()),
            None => None,
        }
    }

    /// Marks `cond` as forbidden right after the prefix `path`, growing the
    /// trie as needed. The cache only grows: nothing already forbidden is
    /// ever cleared.
    pub fn forbid_condition_after_prefix(&mut self, path: &Vec<usize>, cond: usize)
        requires
            old(self).wf(),
            cond < old(self).num_conditions,
        ensures
            final(self).wf(),
            final(self).num_conditions == old(self).num_conditions,
            final(self).nodes@.len() >= old(self).nodes@.len(),
            path@.len() == 0 ==> final(self).forbidden_of(0).contains(cond as int),
            final(self).forbidden_after(path@) matches Some(b) && b[cond as int],
            forall|i: int, c: int|
                0 <= i < old(self).nodes@.len() && #[trigger] old(self).forbidden_of(i).contains(c)
                    ==> final(self).forbidden_of(i).contains(c),
    {
        let mut cache = DeadEndsCache { nodes: Vec::new(), num_conditions: self.num_conditions };
        core::mem::swap(self, &mut cache);
        let ghost orig = cache;
        let mut node: usize = 0;
        let mut i: usize = 0;
        proof {
            assert(path@.subrange(0, 0) =~= Seq::<usize>::empty());
        }
        while i < path.len()
            invariant
                cache.wf(),
                cache.num_conditions == orig.num_conditions,
                node < cache.nodes@.len(),
                i <= path@.len(),
                path@.len() > 0 ==> cache.nodes@.len() >= orig.nodes@.len(),
                path@.len() == 0 ==> node == 0 && cache == orig,
                cache.nodes@.len() >= orig.nodes@.len(),
                cache.spec_node_at(0, path@.subrange(0, i as int)) == Some(node as int),
                forall|j: int, c: int|
                    0 <= j < orig.nodes@.len() && #[trigger] orig.forbidden_of(j).contains(c)
                        ==> cache.forbidden_of(j).contains(c),
            decreases path@.len() - i,
        {
            let ghost walked = path@.subrange(0, i as int);
            proof {
                assert(path@.subrange(0, i + 1) =~= walked.push(path@[i as int]));
            }
            match cache.find_child(node, path[i]) {
                Some(ch) => {
                    proof {
                        cache.lemma_node_at_snoc(0, walked, path@[i as int]);
                    }
                    node = ch;
                },
                None => {
                    let ghost step0 = cache;
                    let fresh = cache.nodes.len();
                    cache.nodes.push(DeadEndsCacheNode { children: Vec::new(), forbidden: None });
                    let mut row = copy_children(&cache.nodes[node].children);
                    row.push((path[i], fresh));
                    let replacement = match &cache.nodes[node].forbidden {
                        Some(b) => DeadEndsCacheNode { children: row, forbidden: Some(b.duplicate()) },
                        None => DeadEndsCacheNode { children: row, forbidden: None },
                    };
                    cache.nodes.set(node, replacement);
                    proof {
                        assert forall|j: int, c: int|
                            0 <= j < orig.nodes@.len() && #[trigger] orig.forbidden_of(j).contains(
                                c,
                            ) implies cache.forbidden_of(j).contains(c) by {
                            assert(step0.forbidden_of(j).contains(c));
                            if j == node {
                                assert(step0.nodes@[j].forbidden is Some);
                                assert(cache.nodes@[j].forbidden->0@
                                    == step0.nodes@[j].forbidden->0@);
                            } else {
                                assert(cache.nodes@[j] == step0.nodes@[j]);
                            }
                        }
                        // The walk so far survives the mutation: only the
                        // reached node's child list and the fresh node
                        // changed, and the walk reads neither.
                        assert forall|n: int| 0 <= n < node as int implies (
                        #[trigger] cache.nodes@[n]).children@ == step0.nodes@[n].children@ by {}
                        step0.lemma_node_at_frame(&cache, 0, walked, node as int);
                        // The appended child is the first for this
                        // condition, so the extended walk reaches it.
                        lemma_spec_child_append(
                            step0.nodes@[node as int].children@,
                            0,
                            path@[i as int],
                            fresh,
                        );
                        assert(cache.nodes@[node as int].children@
                            =~= step0.nodes@[node as int].children@.push(
                            (path@[i as int], fresh),
                        ));
                        cache.lemma_node_at_snoc(0, walked, path@[i as int]);
                        assert(cache.spec_node_at(0, path@.subrange(0, i + 1)) == Some(
                            fresh as int,
                        ));
                    }
                    node = fresh;
                },
            }
            i += 1;
        }
        // Insert the condition at the node the prefix leads to.
        let ghost step0 = cache;
        let mut bits = match &cache.nodes[node].forbidden {
            Some(b) => b.duplicate(),
            None => SmallBitmap::new(cache.num_conditions),
        };
        bits.insert(cond);
        let ghost newbits = bits@;
        let row = copy_children(&cache.nodes[node].children);
        cache.nodes.set(node, DeadEndsCacheNode { children: row, forbidden: Some(bits) });
        proof {
            assert(cache.nodes@[node as int].forbidden->0@ == newbits);
            assert(newbits[cond as int]);
            assert(cache.forbidden_of(node as int).contains(cond as int));
            assert forall|j: int, c: int|
                0 <= j < orig.nodes@.len() && #[trigger] orig.forbidden_of(j).contains(
                    c,
                ) implies cache.forbidden_of(j).contains(c) by {
                assert(step0.forbidden_of(j).contains(c));
                if j == node {
                    assert(step0.nodes@[j].forbidden is Some);
                    assert(newbits == step0.nodes@[j].forbidden->0@.update(cond as int, true));
                } else {
                    assert(cache.nodes@[j] == step0.nodes@[j]);
                }
            }
            // The prefix still walks to the touched node, whose stored set
            // now holds the condition.
            assert(path@.subrange(0, path@.len() as int) =~= path@);
            assert(step0.spec_node_at(0, path@) == Some(node as int));
            assert forall|n: int| 0 <= n < node as int implies (
            #[trigger] cache.nodes@[n]).children@ == step0.nodes@[n].children@ by {}
            step0.lemma_node_at_frame(&cache, 0, path@, node as int);
            assert(cache.forbidden_after(path@) == Some(newbits));
        }
        core::mem::swap(self, &mut cache);
    }

    /// Marks `cond` as forbidden everywhere: it joins the root's set, which
    /// every prefix walk unions in first.
    pub fn forbid_condition(&mut self, cond: usize)
        requires
            old(self).wf(),
            cond < old(self).num_conditions,
        ensures
            final(self).wf(),
            final(self).num_conditions == old(self).num_conditions,
            final(self).forbidden_of(0).contains(cond as int),
            forall|i: int, c: int|
                0 <= i < old(self).nodes@.len() && #[trigger] old(self).forbidden_of(i).contains(c)
                    ==> final(self).forbidden_of(i).contains(c),
    {
        let empty: Vec<usize> = Vec::new();
        self.forbid_condition_after_prefix(&empty, cond);
    }
}

} // verus!
