use vstd::prelude::*;

use crate::byte_map::ByteMap;
use crate::bytes::{bytes_eq, copy_range, join, join_from, segments, segments_of, views};
use crate::request::Method;

verus! {

/// A pattern segment of the form `{name}`: it binds a path parameter.
pub open spec fn is_param_segment(s: Seq<u8>) -> bool {
    s.len() >= 2 && s[0] == 123u8 && s.last() == 125u8
}

/// The name inside the braces of a parameter segment.
pub open spec fn param_name(s: Seq<u8>) -> Seq<u8> {
    s.subrange(1, s.len() - 1)
}

/// The child that the last entry for `seg` names, if any.
pub open spec fn last_child(cs: Seq<(Vec<u8>, usize)>, seg: Seq<u8>) -> Option<int>
    decreases cs.len(),
{
    if cs.len() == 0 {
        None
    } else if cs.last().0@ == seg {
        Some(cs.last().1 as int)
    } else {
        last_child(cs.drop_last(), seg)
    }
}

/// The handler that the last entry for `m` holds, if any.
pub open spec fn last_handler<H>(hs: Seq<(Method, H)>, m: Method) -> Option<H>
    decreases hs.len(),
{
    if hs.len() == 0 {
        None
    } else if hs.last().0 == m {
        Some(hs.last().1)
    } else {
        last_handler(hs.drop_last(), m)
    }
}

/// One node of the route tree: handlers by method, literal children by
/// segment, and at most one wildcard child with the name of its parameter.
pub struct Node<H> {
    handlers: Vec<(Method, H)>,
    children: Vec<(Vec<u8>, usize)>,
    param: Option<Vec<u8>>,
    wildcard: Option<usize>,
}

impl<H> Node<H> {
    pub closed spec fn is_empty(&self) -> bool {
        &&& self.handlers@.len() == 0
        &&& self.children@.len() == 0
        &&& self.param is None
        &&& self.wildcard is None
    }

    /// A node with no handler and no child.
    pub fn new() -> (r: Node<H>)
        ensures
            r.is_empty(),
    {
        Node { handlers: Vec::new(), children: Vec::new(), param: None, wildcard: None }
    }

    /// The node leads on by `seg` to `next` and nowhere else, and holds no
    /// handler: a link of the chain that one registration on an empty router
    /// builds.
    pub closed spec fn is_link(&self, seg: Seq<u8>, next: int) -> bool {
        &&& self.handlers@.len() == 0
        &&& if is_param_segment(seg) {
            &&& self.children@.len() == 0
            &&& self.param is Some
            &&& self.param->0@ == param_name(seg)
            &&& self.wildcard matches Some(w) && w as int == next
        } else {
            &&& self.children@.len() == 1
            &&& self.children@[0].0@ == seg
            &&& self.children@[0].1 == next
            &&& self.param is None
            &&& self.wildcard is None
        }
    }
}

/// A prefix tree from (method, path pattern) to handlers. Nodes live in one
/// vector and refer to their children by index; the root is at index 0.
pub struct Router<H> {
    nodes: Vec<Node<H>>,
    /// For each node but the root, its parent and the key of the edge into it:
    /// a literal segment, or `None` for a wildcard edge.
    up: Ghost<Seq<(int, Option<Seq<u8>>)>>,
}

/// The key by which a pattern or path segment leads on: `None` for a parameter
/// segment, which takes the wildcard edge, else the segment itself.
pub open spec fn seg_key(s: Seq<u8>) -> Option<Seq<u8>> {
    if is_param_segment(s) {
        None
    } else {
        Some(s)
    }
}

/// A pattern with each parameter segment replaced by the wildcard key, so that
/// patterns that differ only in parameter names are the same.
pub open spec fn norm(segs: Seq<Seq<u8>>) -> Seq<Option<Seq<u8>>> {
    segs.map_values(|s: Seq<u8>| seg_key(s))
}

impl<H> Router<H> {
    pub closed spec fn wf(&self) -> bool {
        &&& self.nodes@.len() >= 1
        &&& forall|n: int|
            0 <= n < self.nodes@.len() ==> {
                let node = #[trigger] self.nodes@[n];
                &&& (forall|j: int|
                    0 <= j < node.children@.len() ==> {
                        let e = #[trigger] node.children@[j];
                        &&& n < e.1 < self.nodes@.len()
                        &&& e.0@.len() > 0
                        &&& !is_param_segment(e.0@)
                        &&& self.up@[e.1 as int] == (n, Some(e.0@))
                    })
                &&& (node.wildcard matches Some(w) ==> n < w < self.nodes@.len()
                    && self.up@[w as int] == (n, None::<Seq<u8>>))
                &&& (node.param is Some <==> node.wildcard is Some)
            }
        &&& self.up@.len() == self.nodes@.len()
    }

    /// A router on which nothing was registered.
    pub closed spec fn is_fresh(&self) -> bool {
        self.nodes@.len() == 1 && self.nodes@[0].is_empty()
    }

    /// Where registration goes from node `n` on pattern segment `seg`: the
    /// wildcard child for a parameter segment, else the literal child.
    pub closed spec fn reg_step(&self, n: int, seg: Seq<u8>) -> Option<int> {
        if is_param_segment(seg) {
            match self.nodes@[n].wildcard {
                Some(w) => Some(w as int),
                None => None,
            }
        } else {
            last_child(self.nodes@[n].children@, seg)
        }
    }

    /// The node that registration reaches from `n` on `segs[i..]`, if the
    /// path exists.
    pub closed spec fn reg_walk(&self, n: int, segs: Seq<Seq<u8>>, i: int) -> Option<int>
        decreases segs.len() - i,
    {
        if i < 0 || i >= segs.len() {
            Some(n)
        } else if !(0 <= n < self.nodes@.len()) {
            None
        } else {
            match self.reg_step(n, segs[i]) {
                Some(c) => self.reg_walk(c, segs, i + 1),
                None => None,
            }
        }
    }

    /// Resolution from node `n` on `segs[i..]`: the node where it ends, and the
    /// parameter that it bound, if any. A literal child is preferred; failing
    /// that, a wildcard binds the rest of the path joined with `/` and ends the
    /// walk in the wildcard child; failing both, the walk ends at `n`.
    pub closed spec fn res_walk(&self, n: int, segs: Seq<Seq<u8>>, i: int) -> (int, Option<
        (Seq<u8>, Seq<u8>),
    >)
        decreases segs.len() - i,
    {
        if i < 0 || i >= segs.len() || !(0 <= n < self.nodes@.len()) {
            (n, None)
        } else {
            let node = self.nodes@[n];
            match last_child(node.children@, segs[i]) {
                Some(c) => self.res_walk(c, segs, i + 1),
                None => if node.param is Some && node.wildcard is Some {
                    (
                        node.wildcard->0 as int,
                        Some((node.param->0@, join(segs.subrange(i, segs.len() as int), 47u8))),
                    )
                } else {
                    (n, None)
                },
            }
        }
    }

    /// What resolving `m` on `path` gives: the bound parameters and the handler.
    pub closed spec fn resolve(&self, m: Method, path: Seq<u8>) -> (Map<Seq<u8>, Seq<u8>>, Option<H>) {
        let (e, b) = self.res_walk(0, segments(path, 47u8), 0);
        let params = match b {
            Some(kv) => Map::<Seq<u8>, Seq<u8>>::empty().insert(kv.0, kv.1),
            None => Map::<Seq<u8>, Seq<u8>>::empty(),
        };
        let h = if 0 <= e < self.nodes@.len() {
            last_handler(self.nodes@[e].handlers@, m)
        } else {
            None
        };
        (params, h)
    }

    /// The tree is the chain that registering `h` under `m` on `segs` builds on
    /// an empty router: node `k` leads by `segs[k]` to node `k + 1`, whose
    /// last node holds `h` alone.
    pub closed spec fn is_chain(&self, segs: Seq<Seq<u8>>, m: Method, h: H) -> bool {
        &&& self.nodes@.len() == segs.len() + 1
        &&& forall|k: int| 0 <= k < segs.len() ==> #[trigger] self.nodes@[k].is_link(segs[k], k + 1)
        &&& self.nodes@[segs.len() as int].children@.len() == 0
        &&& self.nodes@[segs.len() as int].param is None
        &&& self.nodes@[segs.len() as int].wildcard is None
        &&& self.nodes@[segs.len() as int].handlers@ == seq![(m, h)]
    }

    /// The node that the pattern segments `segs` lead to from the root, if the
    /// path exists.
    pub closed spec fn walk_to(&self, segs: Seq<Seq<u8>>) -> Option<int>
        decreases segs.len(),
    {
        if segs.len() == 0 {
            Some(0)
        } else {
            match self.walk_to(segs.drop_last()) {
                Some(p) => if 0 <= p < self.nodes@.len() {
                    self.reg_step(p, segs.last())
                } else {
                    None
                },
                None => None,
            }
        }
    }

    /// The number of nodes.
    pub closed spec fn size(&self) -> int {
        self.nodes@.len() as int
    }

    /// The literal child of node `n` for the segment `seg`, if any.
    pub closed spec fn child_of(&self, n: int, seg: Seq<u8>) -> Option<int> {
        last_child(self.nodes@[n].children@, seg)
    }

    /// The wildcard child of node `n`, if any.
    pub closed spec fn wildcard_of(&self, n: int) -> Option<int> {
        match self.nodes@[n].wildcard {
            Some(w) => Some(w as int),
            None => None,
        }
    }

    /// The handler that node `n` holds for `m`, if any.
    pub closed spec fn handler_at(&self, n: int, m: Method) -> Option<H> {
        last_handler(self.nodes@[n].handlers@, m)
    }

    /// The name of the parameter that the wildcard child of node `n` binds.
    pub closed spec fn param_at(&self, n: int) -> Option<Seq<u8>> {
        match self.nodes@[n].param {
            Some(p) => Some(p@),
            None => None,
        }
    }

    /// The handler registered under `m` on the pattern segments `segs`, if any.
    /// Patterns with the same `norm` name the same route.
    pub closed spec fn route(&self, m: Method, segs: Seq<Seq<u8>>) -> Option<H> {
        match self.walk_to(segs) {
            Some(e) => if 0 <= e < self.nodes@.len() {
                last_handler(self.nodes@[e].handlers@, m)
            } else {
                None
            },
            None => None,
        }
    }

    /// Every step that `before` can take, `after` takes to the same node, and
    /// every step that only `after` can take from an old node leads to a new one.
    pub closed spec fn steps_kept(before: Router<H>, after: Router<H>) -> bool {
        &&& before.nodes@.len() <= after.nodes@.len()
        &&& forall|n: int, s: Seq<u8>|
            0 <= n < before.nodes@.len() && (#[trigger] before.reg_step(n, s)) is Some
                ==> after.reg_step(n, s) == before.reg_step(n, s)
        &&& forall|n: int, s: Seq<u8>|
            0 <= n < before.nodes@.len() && (#[trigger] after.reg_step(n, s)) is Some
                && before.reg_step(n, s) is None ==> after.reg_step(n, s)->0 >= before.nodes@.len()
    }

    /// `after` is `before` with `h` registered under `m` on `pattern`: the
    /// registration path exists and its last node holds `h` for `m`; the route
    /// of `m` on the pattern is `h` and every other route is as it was; on an
    /// empty router, the tree is that path alone.
    pub closed spec fn added(
        before: Router<H>,
        after: Router<H>,
        m: Method,
        pattern: Seq<u8>,
        h: H,
    ) -> bool {
        let segs = segments(pattern, 47u8);
        &&& after.wf()
        &&& after.reg_walk(0, segs, 0) is Some
        &&& 0 <= after.reg_walk(0, segs, 0)->0 < after.nodes@.len()
        &&& last_handler(after.nodes@[after.reg_walk(0, segs, 0)->0].handlers@, m) == Some(h)
        &&& after.route(m, segs) == Some(h)
        &&& forall|m2: Method, segs2: Seq<Seq<u8>>|
            !(m2 == m && norm(segs2) == norm(segs)) ==> #[trigger] after.route(m2, segs2)
                == before.route(m2, segs2)
        &&& forall|j: int|
            0 <= j < segs.len() && is_param_segment(#[trigger] segs[j]) ==> (after.walk_to(
                segs.subrange(0, j),
            ) matches Some(p) && after.param_at(p) == Some(param_name(segs[j])))
        &&& before.is_fresh() ==> after.is_chain(segs, m, h)
    }

    /// An empty router.
    pub fn new() -> (r: Router<H>)
        ensures
            r.wf(),
            r.is_fresh(),
    {
        let mut nodes: Vec<Node<H>> = Vec::new();
        nodes.push(Node::new());
        let ghost up: Seq<(int, Option<Seq<u8>>)> = seq![(0int, None)];
        Router { nodes, up: Ghost(up) }
    }
}

impl<H> Router<H> {
    proof fn lemma_step_entry(&self, p: int, s: Seq<u8>)
        requires
            self.wf(),
            0 <= p < self.nodes@.len(),
            self.reg_step(p, s) is Some,
        ensures
            p < self.reg_step(p, s)->0 < self.nodes@.len(),
            self.up@[self.reg_step(p, s)->0] == (p, seg_key(s)),
    {
        let node = self.nodes@[p];
        if !is_param_segment(s) {
            lemma_last_child_entry(node.children@, s);
            let j = choose|j: int|
                0 <= j < node.children@.len() && node.children@[j].0@ == s
                    && node.children@[j].1 as int == self.reg_step(p, s)->0;
            assert(node.children@[j].0@ == s);
        }
    }

    proof fn lemma_walk_bound(&self, segs: Seq<Seq<u8>>)
        requires
            self.wf(),
        ensures
            self.walk_to(segs) matches Some(n) ==> 0 <= n < self.nodes@.len(),
        decreases segs.len(),
    {
        if segs.len() > 0 {
            self.lemma_walk_bound(segs.drop_last());
            if let Some(p) = self.walk_to(segs.drop_last()) {
                if self.reg_step(p, segs.last()) is Some {
                    self.lemma_step_entry(p, segs.last());
                }
            }
        }
    }

    /// Two patterns that lead to the same node are the same up to parameter
    /// names: the tree has one path to each node.
    pub proof fn lemma_walk_unique(&self, a: Seq<Seq<u8>>, b: Seq<Seq<u8>>)
        requires
            self.wf(),
            self.walk_to(a) is Some,
            self.walk_to(a) == self.walk_to(b),
        ensures
            norm(a) == norm(b),
        decreases a.len(),
    {
        self.lemma_walk_bound(a.drop_last());
        self.lemma_walk_bound(b.drop_last());
        if a.len() > 0 {
            let p = self.walk_to(a.drop_last())->0;
            self.lemma_step_entry(p, a.last());
        }
        if b.len() > 0 {
            let p = self.walk_to(b.drop_last())->0;
            self.lemma_step_entry(p, b.last());
        }
        if a.len() > 0 && b.len() > 0 {
            self.lemma_walk_unique(a.drop_last(), b.drop_last());
            assert(norm(a) =~= norm(a.drop_last()).push(seg_key(a.last())));
            assert(norm(b) =~= norm(b.drop_last()).push(seg_key(b.last())));
        } else {
            assert(norm(a) =~= norm(b));
        }
    }

    proof fn lemma_trail_back(&self, trail: Seq<int>, segs: Seq<Seq<u8>>, k: int)
        requires
            trail.len() == segs.len() + 1,
            trail[0] == 0,
            0 <= k <= segs.len(),
            forall|j: int| 0 <= j <= segs.len() ==> 0 <= #[trigger] trail[j] < self.nodes@.len(),
            forall|j: int|
                0 <= j < segs.len() ==> self.reg_step(#[trigger] trail[j], segs[j]) == Some(
                    trail[j + 1],
                ),
        ensures
            self.walk_to(segs.subrange(0, k)) == Some(trail[k]),
        decreases k,
    {
        if k > 0 {
            self.lemma_trail_back(trail, segs, k - 1);
            assert(segs.subrange(0, k).drop_last() =~= segs.subrange(0, k - 1));
            assert(trail[k - 1] == trail[k - 1]);
        }
    }

    proof fn lemma_kept_trans(a: Router<H>, b: Router<H>, c: Router<H>)
        requires
            Router::steps_kept(a, b),
            Router::steps_kept(b, c),
        ensures
            Router::steps_kept(a, c),
    {
        assert forall|n: int, s: Seq<u8>|
            0 <= n < a.nodes@.len() && (#[trigger] c.reg_step(n, s)) is Some && a.reg_step(n, s) is None
            implies c.reg_step(n, s)->0 >= a.nodes@.len() by {
            if b.reg_step(n, s) is Some {
                assert(c.reg_step(n, s) == b.reg_step(n, s));
            }
        }
    }

    proof fn lemma_walk_kept(before: Router<H>, after: Router<H>, segs: Seq<Seq<u8>>)
        requires
            before.wf(),
            Router::steps_kept(before, after),
        ensures
            before.walk_to(segs) is Some ==> after.walk_to(segs) == before.walk_to(segs),
        decreases segs.len(),
    {
        if segs.len() > 0 {
            Router::lemma_walk_kept(before, after, segs.drop_last());
            before.lemma_walk_bound(segs.drop_last());
            if let Some(p) = before.walk_to(segs.drop_last()) {
                if before.reg_step(p, segs.last()) is Some {
                    assert(after.reg_step(p, segs.last()) == before.reg_step(p, segs.last()));
                }
            }
        }
    }

    proof fn lemma_walk_new(before: Router<H>, after: Router<H>, segs: Seq<Seq<u8>>)
        requires
            before.wf(),
            after.wf(),
            Router::steps_kept(before, after),
        ensures
            before.walk_to(segs) is None && after.walk_to(segs) is Some ==> after.walk_to(segs)->0
                >= before.nodes@.len(),
        decreases segs.len(),
    {
        if segs.len() > 0 {
            let d = segs.drop_last();
            Router::lemma_walk_new(before, after, d);
            Router::lemma_walk_kept(before, after, d);
            before.lemma_walk_bound(d);
            after.lemma_walk_bound(d);
            if let Some(p) = after.walk_to(d) {
                if after.reg_step(p, segs.last()) is Some {
                    after.lemma_step_entry(p, segs.last());
                    if before.walk_to(d) is Some {
                        assert(before.walk_to(d) == Some(p));
                        if before.reg_step(p, segs.last()) is Some {
                            assert(after.reg_step(p, segs.last()) == before.reg_step(p, segs.last()));
                        }
                    }
                }
            }
        }
    }

    proof fn lemma_frame(before: Router<H>, after: Router<H>, m: Method, f: H, pat: Seq<Seq<u8>>, e: int)
        requires
            before.wf(),
            after.wf(),
            Router::steps_kept(before, after),
            after.walk_to(pat) == Some(e),
            0 <= e < after.nodes@.len(),
            forall|q: int|
                0 <= q < after.nodes@.len() && q != e ==> (#[trigger] after.nodes@[q]).handlers@
                    == if q < before.nodes@.len() {
                    before.nodes@[q].handlers@
                } else {
                    Seq::<(Method, H)>::empty()
                },
            after.nodes@[e].handlers@ == (if e < before.nodes@.len() {
                before.nodes@[e].handlers@
            } else {
                Seq::<(Method, H)>::empty()
            }).push((m, f)),
        ensures
            after.route(m, pat) == Some(f),
            forall|m2: Method, segs2: Seq<Seq<u8>>|
                !(m2 == m && norm(segs2) == norm(pat)) ==> #[trigger] after.route(m2, segs2)
                    == before.route(m2, segs2),
    {
        assert forall|m2: Method, segs2: Seq<Seq<u8>>|
            !(m2 == m && norm(segs2) == norm(pat)) implies #[trigger] after.route(m2, segs2)
                == before.route(m2, segs2) by {
            Router::lemma_walk_kept(before, after, segs2);
            Router::lemma_walk_new(before, after, segs2);
            before.lemma_walk_bound(segs2);
            after.lemma_walk_bound(segs2);
            if let Some(q) = after.walk_to(segs2) {
                let hb = if q < before.nodes@.len() {
                    before.nodes@[q].handlers@
                } else {
                    Seq::<(Method, H)>::empty()
                };
                if q < before.nodes@.len() {
                    assert(before.walk_to(segs2) == Some(q));
                    assert(before.route(m2, segs2) == last_handler(hb, m2));
                } else {
                    assert(before.walk_to(segs2) is None);
                    assert(last_handler(hb, m2) is None);
                }
                if q == e {
                    after.lemma_walk_unique(segs2, pat);
                    assert(m2 != m);
                    let hs = after.nodes@[e].handlers@;
                    assert(hs.drop_last() =~= hb);
                    assert(last_handler(hs, m2) == last_handler(hb, m2));
                } else {
                    assert(after.nodes@[q].handlers@ == hb);
                }
                assert(after.route(m2, segs2) == last_handler(hb, m2));
            } else {
                assert(before.walk_to(segs2) is None);
            }
        }
        let hs = after.nodes@[e].handlers@;
        assert(hs.last() == (m, f));
    }

    proof fn lemma_trail(&self, trail: Seq<int>, segs: Seq<Seq<u8>>, k: int)
        requires
            trail.len() == segs.len() + 1,
            0 <= k <= segs.len(),
            forall|j: int| 0 <= j <= segs.len() ==> 0 <= #[trigger] trail[j] < self.nodes@.len(),
            forall|j: int|
                0 <= j < segs.len() ==> self.reg_step(#[trigger] trail[j], segs[j]) == Some(
                    trail[j + 1],
                ),
        ensures
            self.reg_walk(trail[k], segs, k) == Some(trail[segs.len() as int]),
        decreases segs.len() - k,
    {
        if k < segs.len() {
            self.lemma_trail(trail, segs, k + 1);
        }
    }

    /// Takes one registration step from `cur` on `seg`, creating the child
    /// where it is missing, and gives the node reached.
    fn step_into(&mut self, cur: usize, seg: &[u8]) -> (next: usize)
        requires
            old(self).wf(),
            cur < old(self).nodes@.len(),
            seg@.len() > 0,
        ensures
            final(self).wf(),
            Router::steps_kept(*old(self), *final(self)),
            final(self).reg_step(cur as int, seg@) == Some(next as int),
            cur < next < final(self).nodes@.len(),
            final(self).nodes@.len() <= old(self).nodes@.len() + 1,
            forall|q: int|
                0 <= q < old(self).nodes@.len() ==> (#[trigger] final(self).nodes@[q]).handlers@
                    == old(self).nodes@[q].handlers@,
            forall|q: int|
                0 <= q < old(self).nodes@.len() && q != cur ==> #[trigger] final(self).nodes@[q]
                    == old(self).nodes@[q],
            final(self).nodes@.len() > old(self).nodes@.len() ==> final(self).nodes@[old(
                self,
            ).nodes@.len() as int].is_empty(),
            old(self).nodes@[cur as int].is_empty() ==> next == old(self).nodes@.len()
                && final(self).nodes@[cur as int].is_link(seg@, next as int),
            final(self).param_at(cur as int) == if is_param_segment(seg@) {
                Some(param_name(seg@))
            } else {
                old(self).param_at(cur as int)
            },
    {
        let ghost prev = *self;
        let n = self.nodes.len();
        let ghost s = self.nodes@;
        let mut node: Node<H> = Node::new();
        self.nodes.set_and_swap(cur, &mut node);
        assert(node == s[cur as int]);
        let ghost old_node = node;
        assert(old_node.wildcard matches Some(w) ==> w < n);
        assert(forall|j: int|
            0 <= j < old_node.children@.len() ==> (#[trigger] old_node.children@[j]).1 < n);
        let mut next: usize = 0;
        if seg.len() >= 2 && seg[0] == 123 && seg[seg.len() - 1] == 125 {
            let name = copy_range(seg, 1, seg.len() - 1);
            node.param = Some(name);
            match node.wildcard {
                Some(w) => {
                    next = w;
                },
                None => {
                    node.wildcard = Some(n);
                    next = n;
                    proof {
                        self.up@ = self.up@.push((cur as int, None));
                    }
                },
            }
            assert(node.children@ == old_node.children@);
            assert(old_node.wildcard is Some ==> node.wildcard == old_node.wildcard);
        } else {
            match find_child(&node.children, seg) {
                Some(c) => {
                    proof {
                        lemma_last_child_entry(old_node.children@, seg@);
                    }
                    next = c;
                    assert(node.children@ == old_node.children@);
                },
                None => {
                    let key = copy_range(seg, 0, seg.len());
                    assert(key@ =~= seg@);
                    node.children.push((key, n));
                    next = n;
                    proof {
                        self.up@ = self.up@.push((cur as int, Some(seg@)));
                    }
                    assert(node.children@.drop_last() =~= old_node.children@);
                    assert(last_child(node.children@, seg@) == Some(n as int));
                    assert(forall|q: Seq<u8>|
                        q != seg@ ==> last_child(node.children@, q) == last_child(
                            old_node.children@,
                            q,
                        ));
                },
            }
            assert(node.wildcard == old_node.wildcard);
        }
        let ghost new_node = node;
        self.nodes.set(cur, node);
        if next == n {
            self.nodes.push(Node::new());
        }
        proof {
            assert(self.nodes@[cur as int] == new_node);
            assert forall|q: int| 0 <= q < n && q != cur implies #[trigger] self.nodes@[q] == s[q] by {}
            assert forall|k: int, x: Seq<u8>|
                0 <= k < n && (#[trigger] prev.reg_step(k, x)) is Some implies self.reg_step(k, x)
                == prev.reg_step(k, x) by {
                if k != cur {
                    assert(self.nodes@[k] == s[k]);
                }
            }
            assert forall|k: int, x: Seq<u8>|
                0 <= k < n && (#[trigger] self.reg_step(k, x)) is Some && prev.reg_step(k, x) is None
                implies self.reg_step(k, x)->0 >= n by {
                if k != cur {
                    assert(self.nodes@[k] == s[k]);
                }
            }
        }
        next
    }

    /// Adds `f` under `method` to the handlers of node `cur`.
    fn add_handler(&mut self, cur: usize, method: Method, f: H)
        requires
            old(self).wf(),
            cur < old(self).nodes@.len(),
        ensures
            final(self).wf(),
            Router::steps_kept(*old(self), *final(self)),
            final(self).nodes@.len() == old(self).nodes@.len(),
            forall|q: int|
                0 <= q < old(self).nodes@.len() && q != cur ==> #[trigger] final(self).nodes@[q]
                    == old(self).nodes@[q],
            final(self).nodes@[cur as int].handlers@ == old(self).nodes@[cur as int].handlers@.push(
                (method, f),
            ),
            final(self).nodes@[cur as int].children@ == old(self).nodes@[cur as int].children@,
            final(self).nodes@[cur as int].param == old(self).nodes@[cur as int].param,
            final(self).nodes@[cur as int].wildcard == old(self).nodes@[cur as int].wildcard,
            final(self).param_at(cur as int) == old(self).param_at(cur as int),
    {
        let ghost prev = *self;
        let ghost s = self.nodes@;
        let mut node: Node<H> = Node::new();
        self.nodes.set_and_swap(cur, &mut node);
        assert(node == s[cur as int]);
        node.handlers.push((method, f));
        self.nodes.set(cur, node);
        proof {
            assert forall|k: int, x: Seq<u8>|
                0 <= k < s.len() implies #[trigger] self.reg_step(k, x) == prev.reg_step(k, x) by {
                if k != cur {
                    assert(self.nodes@[k] == s[k]);
                }
            }
        }
    }

    /// Registers `f` under `method` on the path pattern `origin_form`: its
    /// segments between `/`, empty ones skipped, lead from the root through
    /// literal children, created where missing; a segment `{name}` leads through
    /// the node's wildcard child and names its parameter. A later registration
    /// for the same method and pattern takes the place of an earlier one.
    pub fn add_route(&mut self, method: Method, origin_form: &[u8], f: H)
        requires
            old(self).wf(),
        ensures
            final(self).wf(),
            Router::added(*old(self), *final(self), method, origin_form@, f),
    {
        let ghost before = *self;
        let segs = segments_of(origin_form, 47);
        let ghost pat = views(segs@);
        let mut cur: usize = 0;
        let mut i: usize = 0;
        let ghost mut trail: Seq<int> = seq![0];
        while i < segs.len()
            invariant
                self.wf(),
                before.wf(),
                0 <= i <= segs@.len(),
                pat == views(segs@),
                forall|k: int| 0 <= k < segs@.len() ==> (#[trigger] segs@[k])@.len() > 0,
                pat == segments(origin_form@, 47u8),
                cur < self.nodes@.len(),
                trail.len() == i + 1,
                trail[0] == 0,
                trail[i as int] == cur,
                forall|k: int| 0 <= k <= i ==> 0 <= #[trigger] trail[k] < self.nodes@.len(),
                forall|k: int|
                    0 <= k < i ==> self.reg_step(#[trigger] trail[k], pat[k]) == Some(trail[k + 1]),
                Router::steps_kept(before, *self),
                forall|k: int| 0 <= k < i ==> #[trigger] trail[k] < cur,
                forall|k: int|
                    0 <= k < i && is_param_segment(#[trigger] pat[k]) ==> self.param_at(trail[k])
                        == Some(param_name(pat[k])),
                forall|q: int|
                    0 <= q < before.nodes@.len() ==> (#[trigger] self.nodes@[q]).handlers@
                        == before.nodes@[q].handlers@,
                forall|q: int|
                    before.nodes@.len() <= q < self.nodes@.len() ==> (
                    #[trigger] self.nodes@[q]).handlers@.len() == 0,
                before.is_fresh() ==> {
                    &&& self.nodes@.len() == i + 1
                    &&& cur == i
                    &&& self.nodes@[i as int].is_empty()
                    &&& forall|k: int| 0 <= k < i ==> #[trigger] self.nodes@[k].is_link(pat[k], k + 1)
                },
            decreases segs@.len() - i,
        {
            let ghost prev = *self;
            let seg = segs[i].as_slice();
            assert(pat[i as int] == seg@);
            let next = self.step_into(cur, seg);
            proof {
                Router::lemma_kept_trans(before, prev, *self);
                assert forall|k: int| 0 <= k < i implies self.reg_step(#[trigger] trail[k], pat[k])
                    == Some(trail[k + 1]) by {
                    assert(prev.reg_step(trail[k], pat[k]) == Some(trail[k + 1]));
                }
                assert forall|q: int|
                    before.nodes@.len() <= q < self.nodes@.len() implies (
                    #[trigger] self.nodes@[q]).handlers@.len() == 0 by {
                    if q < prev.nodes@.len() {
                        assert(prev.nodes@[q].handlers@.len() == 0);
                    }
                }
                assert forall|k: int|
                    0 <= k < i && is_param_segment(#[trigger] pat[k]) implies self.param_at(trail[k])
                        == Some(param_name(pat[k])) by {
                    assert(self.nodes@[trail[k]] == prev.nodes@[trail[k]]);
                }
                trail = trail.push(next as int);
                if before.is_fresh() {
                    assert forall|k: int| 0 <= k < i + 1 implies #[trigger] self.nodes@[k].is_link(
                        pat[k],
                        k + 1,
                    ) by {
                        if k < i {
                            assert(self.nodes@[k] == prev.nodes@[k]);
                        }
                    }
                }
            }
            cur = next;
            i = i + 1;
        }
        let ghost mid = *self;
        self.add_handler(cur, method, f);
        proof {
            Router::lemma_kept_trans(before, mid, *self);
            assert forall|k: int| 0 <= k < pat.len() implies self.reg_step(#[trigger] trail[k], pat[k])
                == Some(trail[k + 1]) by {
                assert(mid.reg_step(trail[k], pat[k]) == Some(trail[k + 1]));
            }
            self.lemma_trail(trail, pat, 0);
            self.lemma_trail_back(trail, pat, pat.len() as int);
            assert(pat.subrange(0, pat.len() as int) =~= pat);
            assert forall|q: int| 0 <= q < self.nodes@.len() && q != cur implies (
            #[trigger] self.nodes@[q]).handlers@ == if q < before.nodes@.len() {
                before.nodes@[q].handlers@
            } else {
                Seq::<(Method, H)>::empty()
            } by {
                assert(self.nodes@[q] == mid.nodes@[q]);
                if q >= before.nodes@.len() {
                    assert(mid.nodes@[q].handlers@.len() == 0);
                    assert(mid.nodes@[q].handlers@ =~= Seq::<(Method, H)>::empty());
                }
            }
            if cur >= before.nodes@.len() {
                assert(mid.nodes@[cur as int].handlers@ =~= Seq::<(Method, H)>::empty());
            }
            Router::lemma_frame(before, *self, method, f, pat, cur as int);
            assert forall|j: int|
                0 <= j < pat.len() && is_param_segment(#[trigger] pat[j]) implies (self.walk_to(
                    pat.subrange(0, j),
                ) matches Some(p) && self.param_at(p) == Some(param_name(pat[j]))) by {
                self.lemma_trail_back(trail, pat, j);
                assert(self.nodes@[trail[j]] == mid.nodes@[trail[j]]);
            }
            if before.is_fresh() {
                assert forall|k: int| 0 <= k < pat.len() implies #[trigger] self.nodes@[k].is_link(
                    pat[k],
                    k + 1,
                ) by {
                    assert(self.nodes@[k] == mid.nodes@[k]);
                }
                assert(mid.nodes@[pat.len() as int].handlers@ =~= Seq::<(Method, H)>::empty());
                assert(self.nodes@[pat.len() as int].handlers@ =~= seq![(method, f)]);
            }
        }
    }

    fn lookup(&self, n: usize, method: Method, params: ByteMap) -> (r: (ByteMap, Option<&H>))
        requires
            self.wf(),
            n < self.nodes@.len(),
            params.wf(),
        ensures
            r.0.wf(),
            r.0@ == params@,
            match r.1 {
                Some(h) => last_handler(self.nodes@[n as int].handlers@, method) == Some(*h),
                None => last_handler(self.nodes@[n as int].handlers@, method) is None,
            },
    {
        match find_handler(&self.nodes[n].handlers, method) {
            Some(j) => (params, Some(&self.nodes[n].handlers[j].1)),
            None => (params, None),
        }
    }

    /// Resolves `method` on the path `origin_form`: walks the tree segment by
    /// segment, preferring a literal child; where none matches and the node has
    /// a wildcard, binds its parameter to the rest of the path and stops in the
    /// wildcard child; else stops where it is. Gives the bound parameters and
    /// the handler that the last node holds for `method`, if any.
    pub fn get_handler_and_params(&self, method: Method, origin_form: &[u8]) -> (r: (
        ByteMap,
        Option<&H>,
    ))
        requires
            self.wf(),
        ensures
            r.0.wf(),
            r.0@ == self.resolve(method, origin_form@).0,
            match r.1 {
                Some(h) => self.resolve(method, origin_form@).1 == Some(*h),
                None => self.resolve(method, origin_form@).1 is None,
            },
    {
        let segs = segments_of(origin_form, 47);
        let ghost pat = views(segs@);
        let mut params = ByteMap::new();
        let mut cur: usize = 0;
        let mut i: usize = 0;
        while i < segs.len()
            invariant
                self.wf(),
                cur < self.nodes@.len(),
                0 <= i <= segs@.len(),
                pat == views(segs@),
                pat == segments(origin_form@, 47u8),
                params.wf(),
                params@ == Map::<Seq<u8>, Seq<u8>>::empty(),
                self.res_walk(0, pat, 0) == self.res_walk(cur as int, pat, i as int),
            decreases segs@.len() - i,
        {
            assert(pat[i as int] == segs@[i as int]@);
            match find_child(&self.nodes[cur].children, segs[i].as_slice()) {
                Some(c) => {
                    proof {
                        lemma_last_child_bound(
                            self.nodes@[cur as int].children@,
                            pat[i as int],
                            self.nodes@.len() as int,
                        );
                    }
                    cur = c;
                    i = i + 1;
                },
                None => {
                    let node = &self.nodes[cur];
                    match &node.param {
                        Some(p) => match node.wildcard {
                            Some(w) => {
                                let value = join_from(&segs, i, 47);
                                let name = copy_range(p.as_slice(), 0, p.len());
                                assert(name@ =~= p@);
                                params.insert(name, value);
                                assert(params@ =~= Map::<Seq<u8>, Seq<u8>>::empty().insert(p@, value@));
                                return self.lookup(w, method, params);
                            },
                            None => {
                                return self.lookup(cur, method, params);
                            },
                        },
                        None => {
                            return self.lookup(cur, method, params);
                        },
                    }
                },
            }
        }
        self.lookup(cur, method, params)
    }
}


impl<H> Router<H> {
    proof fn lemma_literal_walk(&self, n: int, segs: Seq<Seq<u8>>, i: int)
        requires
            0 <= i <= segs.len(),
            forall|k: int| i <= k < segs.len() ==> !is_param_segment(#[trigger] segs[k]),
            self.reg_walk(n, segs, i) is Some,
        ensures
            self.res_walk(n, segs, i) == (self.reg_walk(n, segs, i)->0, None::<(Seq<u8>, Seq<u8>)>),
        decreases segs.len() - i,
    {
        if i < segs.len() {
            assert(!is_param_segment(segs[i]));
            let c = self.reg_step(n, segs[i])->0;
            self.lemma_literal_walk(c, segs, i + 1);
        }
    }

    proof fn lemma_walk_forward(&self, segs: Seq<Seq<u8>>, k: int)
        requires
            self.wf(),
            0 <= k <= segs.len(),
        ensures
            self.walk_to(segs.subrange(0, k)) matches Some(n) ==> self.reg_walk(0, segs, 0)
                == self.reg_walk(n, segs, k),
            self.walk_to(segs.subrange(0, k)) is None ==> self.reg_walk(0, segs, 0) is None,
        decreases k,
    {
        if k > 0 {
            self.lemma_walk_forward(segs, k - 1);
            assert(segs.subrange(0, k).drop_last() =~= segs.subrange(0, k - 1));
            self.lemma_walk_bound(segs.subrange(0, k - 1));
        }
    }

    /// Resolution, step by step: at the end of the path it stays; else it
    /// takes the literal child for the segment; failing that, where the node has
    /// a wildcard, it binds the parameter to the rest of the path joined with
    /// `/` and stops in the wildcard child; else it stops where it is. The
    /// result binds what the walk bound and gives the handler of the last node.
    pub proof fn lemma_resolve_rule(&self, m: Method, path: Seq<u8>, n: int, segs: Seq<Seq<u8>>, i: int)
        requires
            self.wf(),
            0 <= n < self.size(),
            0 <= i,
        ensures
            self.res_walk(n, segs, i) == if i >= segs.len() {
                (n, None)
            } else {
                match self.child_of(n, segs[i]) {
                    Some(c) => self.res_walk(c, segs, i + 1),
                    None => match (self.param_at(n), self.wildcard_of(n)) {
                        (Some(p), Some(w)) => (
                            w,
                            Some((p, join(segs.subrange(i, segs.len() as int), 47u8))),
                        ),
                        _ => (n, None),
                    },
                }
            },
            self.child_of(n, segs[i]) matches Some(c) ==> 0 <= c < self.size(),
            self.wildcard_of(n) matches Some(w) ==> 0 <= w < self.size(),
            self.param_at(n) is Some <==> self.wildcard_of(n) is Some,
            self.resolve(m, path) == (
                match self.res_walk(0, segments(path, 47u8), 0).1 {
                    Some(kv) => Map::<Seq<u8>, Seq<u8>>::empty().insert(kv.0, kv.1),
                    None => Map::<Seq<u8>, Seq<u8>>::empty(),
                },
                self.handler_at(self.res_walk(0, segments(path, 47u8), 0).0, m),
            ),
    {
        lemma_last_child_bound(self.nodes@[n].children@, segs[i], self.nodes@.len() as int);
        self.lemma_res_bound(0, segments(path, 47u8), 0);
    }

    proof fn lemma_res_bound(&self, n: int, segs: Seq<Seq<u8>>, i: int)
        requires
            self.wf(),
            0 <= n < self.nodes@.len(),
        ensures
            0 <= self.res_walk(n, segs, i).0 < self.nodes@.len(),
        decreases segs.len() - i,
    {
        if 0 <= i < segs.len() {
            lemma_last_child_bound(self.nodes@[n].children@, segs[i], self.nodes@.len() as int);
            if let Some(c) = last_child(self.nodes@[n].children@, segs[i]) {
                self.lemma_res_bound(c, segs, i + 1);
            }
        }
    }

    /// The walk along a pattern, step by step: the empty pattern leads to the
    /// root; a longer one takes, from where its prefix leads, the wildcard child
    /// for a `{name}` segment and the literal child for any other. The route of
    /// a pattern is the handler of the node that it leads to.
    pub proof fn lemma_walk_rule(&self, m: Method, segs: Seq<Seq<u8>>)
        requires
            self.wf(),
        ensures
            self.walk_to(segs) == if segs.len() == 0 {
                Some(0int)
            } else {
                match self.walk_to(segs.drop_last()) {
                    Some(p) => if is_param_segment(segs.last()) {
                        self.wildcard_of(p)
                    } else {
                        self.child_of(p, segs.last())
                    },
                    None => None,
                }
            },
            self.walk_to(segs) matches Some(e) ==> 0 <= e < self.size(),
            self.route(m, segs) == match self.walk_to(segs) {
                Some(e) => self.handler_at(e, m),
                None => None,
            },
    {
        self.lemma_walk_bound(segs);
        self.lemma_walk_bound(segs.drop_last());
    }

    /// Patterns that differ only in parameter names lead to the same node.
    pub proof fn lemma_walk_norm(&self, a: Seq<Seq<u8>>, b: Seq<Seq<u8>>)
        requires
            norm(a) == norm(b),
        ensures
            self.walk_to(a) == self.walk_to(b),
        decreases a.len(),
    {
        assert(a.len() == norm(a).len() && b.len() == norm(b).len());
        if a.len() > 0 {
            assert(norm(a.drop_last()) =~= norm(a).drop_last());
            assert(norm(b.drop_last()) =~= norm(b).drop_last());
            self.lemma_walk_norm(a.drop_last(), b.drop_last());
            assert(seg_key(a.last()) == norm(a)[a.len() - 1]);
            assert(seg_key(b.last()) == norm(b)[b.len() - 1]);
        }
    }

    /// What one registration does to the routes: the route of its method on
    /// its pattern is the new handler, and every other route is as it was.
    pub proof fn lemma_added_routes(
        before: Router<H>,
        after: Router<H>,
        m: Method,
        pattern: Seq<u8>,
        h: H,
    )
        requires
            Router::added(before, after, m, pattern, h),
        ensures
            after.wf(),
            forall|segs: Seq<Seq<u8>>|
                norm(segs) == norm(segments(pattern, 47u8)) ==> #[trigger] after.route(m, segs)
                    == Some(h),
            forall|m2: Method, segs2: Seq<Seq<u8>>|
                !(m2 == m && norm(segs2) == norm(segments(pattern, 47u8))) ==> #[trigger] after.route(
                    m2,
                    segs2,
                ) == before.route(m2, segs2),
    {
        assert forall|segs: Seq<Seq<u8>>|
            norm(segs) == norm(segments(pattern, 47u8)) implies #[trigger] after.route(m, segs)
                == Some(h) by {
            after.lemma_walk_norm(segs, segments(pattern, 47u8));
        }
    }

    /// Registering a handler again for the same method and pattern: the route
    /// becomes the second handler, every other route is as it was, and the set
    /// of registered routes does not change.
    pub proof fn lemma_reregistration(
        r0: Router<H>,
        r1: Router<H>,
        r2: Router<H>,
        m: Method,
        pattern: Seq<u8>,
        h1: H,
        h2: H,
    )
        requires
            Router::added(r0, r1, m, pattern, h1),
            Router::added(r1, r2, m, pattern, h2),
        ensures
            r2.route(m, segments(pattern, 47u8)) == Some(h2),
            forall|m2: Method, segs2: Seq<Seq<u8>>|
                !(m2 == m && norm(segs2) == norm(segments(pattern, 47u8))) ==> #[trigger] r2.route(
                    m2,
                    segs2,
                ) == r1.route(m2, segs2),
            forall|m2: Method, segs2: Seq<Seq<u8>>|
                (#[trigger] r2.route(m2, segs2) is Some) == (r1.route(m2, segs2) is Some),
    {
        Router::lemma_added_routes(r0, r1, m, pattern, h1);
        Router::lemma_added_routes(r1, r2, m, pattern, h2);
        assert forall|m2: Method, segs2: Seq<Seq<u8>>|
            (#[trigger] r2.route(m2, segs2) is Some) == (r1.route(m2, segs2) is Some) by {
            if m2 == m && norm(segs2) == norm(segments(pattern, 47u8)) {
                assert(r1.route(m, segs2) == Some(h1));
                assert(r2.route(m, segs2) == Some(h2));
            } else {
                assert(r2.route(m2, segs2) == r1.route(m2, segs2));
            }
        }
    }

    /// A router whose nodes have no wildcard binds no parameter on any path.
    pub proof fn lemma_no_wildcard_no_params(&self, m: Method, path: Seq<u8>)
        requires
            self.wf(),
            forall|n: int| 0 <= n < self.size() ==> #[trigger] self.wildcard_of(n) is None,
        ensures
            self.resolve(m, path).0 == Map::<Seq<u8>, Seq<u8>>::empty(),
    {
        self.lemma_no_wildcard_walk(0, segments(path, 47u8), 0);
    }

    proof fn lemma_no_wildcard_walk(&self, n: int, segs: Seq<Seq<u8>>, i: int)
        requires
            self.wf(),
            0 <= n < self.nodes@.len(),
            forall|k: int| 0 <= k < self.size() ==> #[trigger] self.wildcard_of(k) is None,
        ensures
            self.res_walk(n, segs, i).1 is None,
        decreases segs.len() - i,
    {
        assert(self.wildcard_of(n) is None);
        if 0 <= i < segs.len() {
            lemma_last_child_bound(self.nodes@[n].children@, segs[i], self.nodes@.len() as int);
            if let Some(c) = last_child(self.nodes@[n].children@, segs[i]) {
                self.lemma_no_wildcard_walk(c, segs, i + 1);
            }
        }
    }

    /// A router on which nothing was registered has no route.
    pub proof fn lemma_fresh_no_routes(&self, m: Method, segs: Seq<Seq<u8>>)
        requires
            self.is_fresh(),
        ensures
            self.route(m, segs) is None,
        decreases segs.len(),
    {
        if segs.len() > 0 {
            self.lemma_fresh_no_routes(m, segs.drop_last());
            if segs.drop_last().len() > 0 {
                assert(self.walk_to(segs.drop_last()) is None || self.walk_to(segs.drop_last())
                    == Some(0int));
            }
        }
    }

    /// Registering under another method keeps a method without routes
    /// without routes.
    pub proof fn lemma_other_method_unregistered(
        before: Router<H>,
        after: Router<H>,
        m2: Method,
        pattern: Seq<u8>,
        h: H,
        m: Method,
    )
        requires
            Router::added(before, after, m2, pattern, h),
            m2 != m,
            forall|segs: Seq<Seq<u8>>| #[trigger] before.route(m, segs) is None,
        ensures
            forall|segs: Seq<Seq<u8>>| #[trigger] after.route(m, segs) is None,
    {
        Router::lemma_added_routes(before, after, m2, pattern, h);
        assert forall|segs: Seq<Seq<u8>>| #[trigger] after.route(m, segs) is None by {
            assert(after.route(m, segs) == before.route(m, segs));
        }
    }

    /// The node where registration ends is the one that the pattern leads to.
    pub proof fn lemma_walk_same(&self, segs: Seq<Seq<u8>>)
        requires
            self.wf(),
        ensures
            self.walk_to(segs) == self.reg_walk(0, segs, 0),
    {
        self.lemma_walk_forward(segs, segs.len() as int);
        assert(segs.subrange(0, segs.len() as int) =~= segs);
    }

    /// A router on which nothing was registered resolves every path to no
    /// handler and binds no parameter.
    pub proof fn lemma_fresh_resolves_nothing(&self, m: Method, path: Seq<u8>)
        requires
            self.is_fresh(),
        ensures
            self.resolve(m, path) == (Map::<Seq<u8>, Seq<u8>>::empty(), None::<H>),
    {
        let segs = segments(path, 47u8);
        if segs.len() > 0 {
            assert(last_child(self.nodes@[0].children@, segs[0]) is None);
        }
    }

    /// A path of literal segments along which routes were registered resolves
    /// to the route on those segments, and binds no parameter.
    pub proof fn lemma_literal_path_resolves_to_route(&self, m: Method, path: Seq<u8>)
        requires
            self.wf(),
            self.walk_to(segments(path, 47u8)) is Some,
            forall|k: int|
                0 <= k < segments(path, 47u8).len() ==> !is_param_segment(
                    #[trigger] segments(path, 47u8)[k],
                ),
        ensures
            self.resolve(m, path) == (
                Map::<Seq<u8>, Seq<u8>>::empty(),
                self.route(m, segments(path, 47u8)),
            ),
    {
        let segs = segments(path, 47u8);
        self.lemma_walk_same(segs);
        self.lemma_walk_bound(segs);
        self.lemma_literal_walk(0, segs, 0);
    }

    proof fn lemma_res_end(&self, segs: Seq<Seq<u8>>, i: int, n: int, x: Seq<Seq<u8>>)
        requires
            self.wf(),
            0 <= i <= segs.len(),
            self.walk_to(x) == Some(n),
        ensures
            exists|y: Seq<Seq<u8>>| #[trigger] self.walk_to(y) == Some(self.res_walk(n, segs, i).0),
        decreases segs.len() - i,
    {
        self.lemma_walk_bound(x);
        if i < segs.len() {
            let node = self.nodes@[n];
            match last_child(node.children@, segs[i]) {
                Some(c) => {
                    lemma_last_child_entry(node.children@, segs[i]);
                    let j = choose|j: int|
                        0 <= j < node.children@.len() && node.children@[j].0@ == segs[i]
                            && node.children@[j].1 as int == c;
                    assert(node.children@[j].0@ == segs[i]);
                    assert(!is_param_segment(segs[i]));
                    assert(x.push(segs[i]).drop_last() =~= x);
                    self.lemma_res_end(segs, i + 1, c, x.push(segs[i]));
                },
                None => {
                    if node.param is Some && node.wildcard is Some {
                        let w: Seq<u8> = seq![123u8, 125u8];
                        assert(is_param_segment(w));
                        assert(x.push(w).drop_last() =~= x);
                        assert(self.walk_to(x.push(w)) == Some(node.wildcard->0 as int));
                    } else {
                        assert(self.walk_to(x) == Some(self.res_walk(n, segs, i).0));
                    }
                },
            }
        } else {
            assert(self.walk_to(x) == Some(self.res_walk(n, segs, i).0));
        }
    }

    /// A method under which no route is registered resolves to no handler, on
    /// every path.
    pub proof fn lemma_unregistered_method(&self, m: Method, path: Seq<u8>)
        requires
            self.wf(),
            forall|segs: Seq<Seq<u8>>| #[trigger] self.route(m, segs) is None,
        ensures
            self.resolve(m, path).1 is None,
    {
        let segs = segments(path, 47u8);
        let empty: Seq<Seq<u8>> = seq![];
        assert(self.walk_to(empty) == Some(0int));
        self.lemma_res_end(segs, 0, 0, empty);
        let e = self.res_walk(0, segs, 0).0;
        let y = choose|y: Seq<Seq<u8>>| #[trigger] self.walk_to(y) == Some(e);
        self.lemma_walk_bound(y);
        assert(self.route(m, y) is None);
    }

    proof fn lemma_chain_walk(&self, ps: Seq<Seq<u8>>, m: Method, h: H, qs: Seq<Seq<u8>>, k: int)
        requires
            self.is_chain(ps, m, h),
            ps.len() >= 1,
            is_param_segment(ps.last()),
            forall|j: int| 0 <= j < ps.len() - 1 ==> !is_param_segment(#[trigger] ps[j]),
            qs.len() >= ps.len(),
            forall|j: int| 0 <= j < ps.len() - 1 ==> #[trigger] qs[j] == ps[j],
            0 <= k <= ps.len() - 1,
        ensures
            self.res_walk(k, qs, k) == (
                ps.len() as int,
                Some((param_name(ps.last()), join(qs.subrange(ps.len() - 1, qs.len() as int), 47u8))),
            ),
        decreases ps.len() - 1 - k,
    {
        let node = self.nodes@[k];
        assert(node.is_link(ps[k], k + 1));
        if k < ps.len() - 1 {
            assert(!is_param_segment(ps[k]));
            assert(qs[k] == ps[k]);
            assert(node.children@.drop_last().len() == 0);
            assert(last_child(node.children@, qs[k]) == Some(k + 1));
            self.lemma_chain_walk(ps, m, h, qs, k + 1);
        } else {
            assert(ps[k] == ps.last());
            assert(last_child(node.children@, qs[k]) is None);
            assert(node.param is Some && node.wildcard is Some);
            assert(node.wildcard->0 as int == ps.len());
            assert(node.param->0@ == param_name(ps.last()));
        }
    }

    /// A route whose pattern has only literal segments resolves, once
    /// registered, to its handler and binds no parameter.
    pub proof fn lemma_registered_route_resolves(
        before: Router<H>,
        after: Router<H>,
        m: Method,
        pattern: Seq<u8>,
        h: H,
    )
        requires
            Router::added(before, after, m, pattern, h),
            forall|k: int|
                0 <= k < segments(pattern, 47u8).len() ==> !is_param_segment(
                    #[trigger] segments(pattern, 47u8)[k],
                ),
        ensures
            after.resolve(m, pattern) == (Map::<Seq<u8>, Seq<u8>>::empty(), Some(h)),
    {
        after.lemma_literal_walk(0, segments(pattern, 47u8), 0);
    }

    /// Registering a handler twice for the same method and literal pattern:
    /// resolution gives the second one.
    pub proof fn lemma_last_registration_wins(
        r0: Router<H>,
        r1: Router<H>,
        r2: Router<H>,
        m: Method,
        pattern: Seq<u8>,
        h1: H,
        h2: H,
    )
        requires
            Router::added(r0, r1, m, pattern, h1),
            Router::added(r1, r2, m, pattern, h2),
            forall|k: int|
                0 <= k < segments(pattern, 47u8).len() ==> !is_param_segment(
                    #[trigger] segments(pattern, 47u8)[k],
                ),
        ensures
            r2.resolve(m, pattern).1 == Some(h2),
    {
        Router::lemma_registered_route_resolves(r1, r2, m, pattern, h2);
    }

    /// On an empty router, a pattern of literal segments that ends in `{name}`
    /// captures the whole rest of a path that starts with those literals:
    /// `name` is bound to the remaining segments joined with `/`, and the
    /// registered handler is found.
    pub proof fn lemma_wildcard_captures_tail(
        before: Router<H>,
        after: Router<H>,
        m: Method,
        pattern: Seq<u8>,
        h: H,
        path: Seq<u8>,
    )
        requires
            before.is_fresh(),
            Router::added(before, after, m, pattern, h),
            segments(pattern, 47u8).len() >= 1,
            is_param_segment(segments(pattern, 47u8).last()),
            forall|j: int|
                0 <= j < segments(pattern, 47u8).len() - 1 ==> !is_param_segment(
                    #[trigger] segments(pattern, 47u8)[j],
                ),
            segments(path, 47u8).len() >= segments(pattern, 47u8).len(),
            forall|j: int|
                0 <= j < segments(pattern, 47u8).len() - 1 ==> #[trigger] segments(path, 47u8)[j]
                    == segments(pattern, 47u8)[j],
        ensures
            after.resolve(m, path) == (
                Map::<Seq<u8>, Seq<u8>>::empty().insert(
                    param_name(segments(pattern, 47u8).last()),
                    join(
                        segments(path, 47u8).subrange(
                            segments(pattern, 47u8).len() - 1,
                            segments(path, 47u8).len() as int,
                        ),
                        47u8,
                    ),
                ),
                Some(h),
            ),
    {
        let ps = segments(pattern, 47u8);
        let qs = segments(path, 47u8);
        after.lemma_chain_walk(ps, m, h, qs, 0);
        let last = after.nodes@[ps.len() as int];
        assert(last.handlers@.drop_last().len() == 0);
    }

    /// On an empty router where one route was registered whose pattern starts
    /// with a literal segment, a path that does not start with that segment
    /// resolves to no handler, whatever the method.
    pub proof fn lemma_unregistered_path(
        before: Router<H>,
        after: Router<H>,
        m: Method,
        pattern: Seq<u8>,
        h: H,
        m2: Method,
        path: Seq<u8>,
    )
        requires
            before.is_fresh(),
            Router::added(before, after, m, pattern, h),
            segments(pattern, 47u8).len() >= 1,
            !is_param_segment(segments(pattern, 47u8)[0]),
            segments(path, 47u8).len() == 0 || segments(path, 47u8)[0] != segments(pattern, 47u8)[0],
        ensures
            after.resolve(m2, path).1 is None,
    {
        let ps = segments(pattern, 47u8);
        let qs = segments(path, 47u8);
        let root = after.nodes@[0];
        assert(root.is_link(ps[0], 1));
        assert(root.children@.drop_last().len() == 0);
        if qs.len() > 0 {
            assert(last_child(root.children@.drop_last(), qs[0]) is None);
            assert(last_child(root.children@, qs[0]) is None);
        }
    }
}


proof fn lemma_last_child_entry(cs: Seq<(Vec<u8>, usize)>, seg: Seq<u8>)
    ensures
        last_child(cs, seg) matches Some(c) ==> exists|j: int|
            0 <= j < cs.len() && cs[j].0@ == seg && cs[j].1 as int == c,
    decreases cs.len(),
{
    if cs.len() > 0 {
        lemma_last_child_entry(cs.drop_last(), seg);
        if cs.last().0@ == seg {
            assert(cs[cs.len() - 1].0@ == seg);
        } else if let Some(c) = last_child(cs, seg) {
            let j = choose|j: int|
                0 <= j < cs.drop_last().len() && cs.drop_last()[j].0@ == seg
                    && cs.drop_last()[j].1 as int == c;
            assert(cs[j] == cs.drop_last()[j]);
        }
    }
}

proof fn lemma_last_child_bound(cs: Seq<(Vec<u8>, usize)>, seg: Seq<u8>, bound: int)
    requires
        forall|j: int| 0 <= j < cs.len() ==> (#[trigger] cs[j]).1 < bound,
    ensures
        last_child(cs, seg) matches Some(c) ==> 0 <= c < bound,
    decreases cs.len(),
{
    if cs.len() > 0 {
        lemma_last_child_bound(cs.drop_last(), seg, bound);
    }
}

fn find_child(cs: &Vec<(Vec<u8>, usize)>, seg: &[u8]) -> (r: Option<usize>)
    ensures
        match r {
            Some(c) => last_child(cs@, seg@) == Some(c as int),
            None => last_child(cs@, seg@) is None,
        },
{
    let mut j: usize = cs.len();
    assert(cs@.subrange(0, j as int) =~= cs@);
    while j > 0
        invariant
            j <= cs@.len(),
            last_child(cs@, seg@) == last_child(cs@.subrange(0, j as int), seg@),
        decreases j,
    {
        assert(cs@.subrange(0, j as int).drop_last() =~= cs@.subrange(0, j - 1));
        if bytes_eq(cs[j - 1].0.as_slice(), seg) {
            return Some(cs[j - 1].1);
        }
        j = j - 1;
    }
    None
}

fn find_handler<H>(hs: &Vec<(Method, H)>, m: Method) -> (r: Option<usize>)
    ensures
        match r {
            Some(j) => j < hs@.len() && last_handler(hs@, m) == Some(hs@[j as int].1),
            None => last_handler(hs@, m) is None,
        },
{
    let mut j: usize = hs.len();
    assert(hs@.subrange(0, j as int) =~= hs@);
    while j > 0
        invariant
            j <= hs@.len(),
            last_handler(hs@, m) == last_handler(hs@.subrange(0, j as int), m),
        decreases j,
    {
        assert(hs@.subrange(0, j as int).drop_last() =~= hs@.subrange(0, j - 1));
        if hs[j - 1].0 == m {
            return Some(j - 1);
        }
        j = j - 1;
    }
    None
}

} // verus!
