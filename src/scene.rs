use vstd::prelude::*;

verus! {

/// One node of a scene graph: the nodes below it, and the mesh and skin it
/// carries, each as an index into the asset's own tables.
pub struct Node {
    pub children: Vec<usize>,
    pub mesh: Option<usize>,
    pub skin: Option<usize>,
}

/// The shape of an asset's node hierarchy. A node's local transform stays
/// with the caller, keyed by the node's index.
pub struct SceneGraph {
    pub nodes: Vec<Node>,
}

/// One occurrence of a mesh in the flattened scene. `path` lists the nodes
/// from the root down to the node that carries the mesh, so the occurrence's
/// world transform is the product of their local transforms in that order:
/// `L(path[0]) * L(path[1]) * ... * L(path[last])`.
pub struct MeshInstance {
    pub mesh: usize,
    pub skin: Option<usize>,
    pub path: Vec<usize>,
}

/// A mesh occurrence as a value: mesh, skin, and root-to-node path.
pub type InstanceView = (usize, Option<usize>, Seq<usize>);

impl View for MeshInstance {
    type V = InstanceView;

    open spec fn view(&self) -> InstanceView {
        (self.mesh, self.skin, self.path@)
    }
}

/// The values of a list of mesh occurrences.
pub open spec fn instances_view(v: Seq<MeshInstance>) -> Seq<InstanceView> {
    v.map_values(|m: MeshInstance| m@)
}

impl SceneGraph {
    /// Node `c` is listed as a child of some node.
    pub open spec fn is_child(&self, c: usize) -> bool {
        exists|i: int, j: int|
            0 <= i < self.nodes@.len() && 0 <= j < self.nodes@[i].children@.len()
                && #[trigger] self.nodes@[i].children@[j] == c
    }

    /// Pre-order occurrences of meshes in the subtree of `node`, reached
    /// through the nodes of `prefix`, going at most `depth` nodes deep. An
    /// index past the node table names no node and contributes nothing.
    pub open spec fn visit(&self, node: usize, prefix: Seq<usize>, depth: nat) -> Seq<
        InstanceView,
    >
        decreases depth, 0int, 0int,
    {
        if depth == 0 || node >= self.nodes@.len() {
            Seq::empty()
        } else {
            let path = prefix.push(node);
            let n = self.nodes@[node as int];
            let own: Seq<InstanceView> = match n.mesh {
                Some(m) => seq![(m, n.skin, path)],
                None => Seq::empty(),
            };
            own + self.visit_list(n.children@, path, (depth - 1) as nat)
        }
    }

    /// The pre-order occurrences below each node of `list` in turn.
    pub open spec fn visit_list(&self, list: Seq<usize>, prefix: Seq<usize>, depth: nat) -> Seq<
        InstanceView,
    >
        decreases depth, 1int, list.len(),
    {
        if list.len() == 0 {
            Seq::empty()
        } else {
            self.visit(list[0], prefix, depth) + self.visit_list(
                list.subrange(1, list.len() as int),
                prefix,
                depth,
            )
        }
    }

    /// Lists, in increasing order, the nodes that are nobody's child: the
    /// roots of the hierarchy.
    pub fn root_nodes(&self) -> (r: Vec<usize>)
        ensures
            forall|a: int, b: int| 0 <= a < b < r@.len() ==> r@[a] < r@[b],
            forall|c: usize| r@.contains(c) <==> (c < self.nodes@.len() && !self.is_child(c)),
    {
        let n = self.nodes.len();
        let mut marked: Vec<bool> = Vec::new();
        let mut k: usize = 0;
        while k < n
            invariant
                k <= n,
                marked@.len() == k,
                forall|c: int| 0 <= c < k ==> !marked@[c],
            decreases n - k,
        {
            marked.push(false);
            k = k + 1;
        }
        let mut i: usize = 0;
        while i < n
            invariant
                n == self.nodes@.len(),
                i <= n,
                marked@.len() == n,
                forall|c: int|
                    0 <= c < n ==> (marked@[c] <==> exists|a: int, b: int|
                        0 <= a < i && 0 <= b < self.nodes@[a].children@.len()
                            && #[trigger] self.nodes@[a].children@[b] == c),
            decreases n - i,
        {
            let children = &self.nodes[i].children;
            let mut j: usize = 0;
            while j < children.len()
                invariant
                    n == self.nodes@.len(),
                    i < n,
                    children == &self.nodes@[i as int].children,
                    j <= children@.len(),
                    marked@.len() == n,
                    forall|c: int|
                        0 <= c < n ==> (marked@[c] <==> (exists|a: int, b: int|
                            0 <= a < i && 0 <= b < self.nodes@[a].children@.len()
                                && #[trigger] self.nodes@[a].children@[b] == c) || exists|
                            b: int,
                        |
                            0 <= b < j && #[trigger] self.nodes@[i as int].children@[b] == c),
                decreases children@.len() - j,
            {
                let c = children[j];
                if c < n {
                    marked.set(c, true);
                }
                j = j + 1;
            }
            proof {
                assert forall|c: int| 0 <= c < n implies (marked@[c] <==> exists|a: int, b: int|
                    0 <= a < i + 1 && 0 <= b < self.nodes@[a].children@.len()
                        && #[trigger] self.nodes@[a].children@[b] == c) by {
                    if marked@[c] {
                        if !(exists|a: int, b: int|
                            0 <= a < i && 0 <= b < self.nodes@[a].children@.len()
                                && #[trigger] self.nodes@[a].children@[b] == c) {
                            let b = choose|b: int|
                                0 <= b < j && #[trigger] self.nodes@[i as int].children@[b]
                                    == c;
                            assert(self.nodes@[i as int].children@[b] == c);
                        }
                    }
                }
            }
            i = i + 1;
        }
        let mut roots: Vec<usize> = Vec::new();
        let mut c: usize = 0;
        while c < n
            invariant
                n == self.nodes@.len(),
                c <= n,
                marked@.len() == n,
                forall|x: int| 0 <= x < n ==> (marked@[x] <==> self.is_child(x as usize)),
                forall|a: int, b: int| 0 <= a < b < roots@.len() ==> roots@[a] < roots@[b],
                forall|a: int| 0 <= a < roots@.len() ==> roots@[a] < c,
                forall|x: usize| roots@.contains(x) <==> (x < c && !self.is_child(x)),
            decreases n - c,
        {
            let ghost before = roots@;
            if !marked[c] {
                roots.push(c);
            }
            proof {
                assert forall|x: usize| roots@.contains(x) <==> (x < c + 1 && !self.is_child(x)) by {
                    if roots@.contains(x) {
                        let k = choose|k: int| 0 <= k < roots@.len() && roots@[k] == x;
                        if k < before.len() {
                            assert(before[k] == x);
                            assert(before.contains(x));
                        }
                    }
                    if x < c && !self.is_child(x) {
                        assert(before.contains(x));
                        let k = choose|k: int| 0 <= k < before.len() && before[k] == x;
                        assert(roots@[k] == x);
                    }
                    if x == c && !self.is_child(x) {
                        assert(roots@[roots@.len() - 1] == x);
                    }
                }
            }
            c = c + 1;
        }
        roots
    }

    /// Every occurrence of a mesh below the nodes of `roots`, depth first and
    /// in pre-order, with the path of nodes that leads to it. No path is
    /// longer than `max_depth` nodes, which bounds the walk on malformed
    /// (cyclic) input.
    pub fn mesh_instances(&self, roots: &Vec<usize>, max_depth: usize) -> (r: Vec<MeshInstance>)
        ensures
            instances_view(r@) == self.visit_list(roots@, Seq::empty(), max_depth as nat),
    {
        let mut path: Vec<usize> = Vec::new();
        let mut out: Vec<MeshInstance> = Vec::new();
        self.visit_nodes(roots, &mut path, max_depth, &mut out);
        assert(instances_view(out@) =~= Seq::<InstanceView>::empty() + self.visit_list(
            roots@,
            Seq::empty(),
            max_depth as nat,
        ));
        out
    }

    fn visit_node(&self, node: usize, path: &mut Vec<usize>, depth: usize, out: &mut Vec<MeshInstance>)
        requires
            old(path)@.len() + depth <= usize::MAX,
        ensures
            final(path)@ == old(path)@,
            instances_view(final(out)@) == instances_view(old(out)@) + self.visit(
                node,
                old(path)@,
                depth as nat,
            ),
        decreases depth, 0int,
    {
        if depth == 0 || node >= self.nodes.len() {
            assert(instances_view(out@) =~= instances_view(out@) + Seq::<InstanceView>::empty());
            return ;
        }
        let ghost start = out@;
        path.push(node);
        let n = &self.nodes[node];
        match n.mesh {
            Some(m) => {
                let p = path.clone();
                assert(p@ =~= path@);
                out.push(MeshInstance { mesh: m, skin: n.skin, path: p });
            },
            None => {},
        }
        let ghost mid = out@;
        assert(instances_view(mid) =~= instances_view(start) + match n.mesh {
            Some(m) => seq![(m, n.skin, path@)],
            None => Seq::<InstanceView>::empty(),
        });
        self.visit_nodes(&n.children, path, depth - 1, out);
        path.pop();
        assert(path@ =~= old(path)@);
    }

    fn visit_nodes(&self, list: &Vec<usize>, path: &mut Vec<usize>, depth: usize, out: &mut Vec<MeshInstance>)
        requires
            old(path)@.len() + depth <= usize::MAX,
        ensures
            final(path)@ == old(path)@,
            instances_view(final(out)@) == instances_view(old(out)@) + self.visit_list(
                list@,
                old(path)@,
                depth as nat,
            ),
        decreases depth, 1int,
    {
        let ghost start = out@;
        let ghost prefix = path@;
        let mut i: usize = 0;
        assert(list@.subrange(0, list@.len() as int) =~= list@);
        while i < list.len()
            invariant
                path@ == prefix,
                prefix.len() + depth <= usize::MAX,
                i <= list@.len(),
                instances_view(start) + self.visit_list(list@, prefix, depth as nat)
                    == instances_view(out@) + self.visit_list(
                    list@.subrange(i as int, list@.len() as int),
                    prefix,
                    depth as nat,
                ),
            decreases list@.len() - i,
        {
            let ghost before = out@;
            let ghost rest = list@.subrange(i as int, list@.len() as int);
            assert(rest.subrange(1, rest.len() as int) =~= list@.subrange(
                i + 1,
                list@.len() as int,
            ));
            assert(rest[0] == list@[i as int]);
            self.visit_node(list[i], path, depth, out);
            assert(instances_view(before) + self.visit_list(rest, prefix, depth as nat)
                =~= instances_view(out@) + self.visit_list(
                list@.subrange(i + 1, list@.len() as int),
                prefix,
                depth as nat,
            ));
            i = i + 1;
        }
        assert(list@.subrange(i as int, list@.len() as int) =~= Seq::<usize>::empty());
        assert(self.visit_list(Seq::<usize>::empty(), prefix, depth as nat) =~= Seq::<
            InstanceView,
        >::empty());
        assert(instances_view(out@) =~= instances_view(out@) + Seq::<InstanceView>::empty());
    }


    /// From position `from` on, every entry of `path` is a node of the table
    /// and each is followed by one of its own children.
    pub open spec fn descends(&self, path: Seq<usize>, from: int) -> bool {
        &&& forall|k: int| from <= k < path.len() ==> #[trigger] path[k] < self.nodes@.len()
        &&& forall|k: int|
            from <= k < path.len() - 1 ==> self.nodes@[path[k] as int].children@.contains(
                #[trigger] path[k + 1],
            )
    }

    /// `x` is an occurrence found below `prefix`: its path extends `prefix`
    /// by at least one and at most `depth` nodes, descending from one to the
    /// next, and ends at a node that carries `x`'s mesh and skin.
    pub open spec fn found_below(&self, x: InstanceView, prefix: Seq<usize>, depth: nat) -> bool {
        let path = x.2;
        &&& prefix.len() < path.len() <= prefix.len() + depth
        &&& path.subrange(0, prefix.len() as int) == prefix
        &&& self.descends(path, prefix.len() as int)
        &&& self.nodes@[path.last() as int].mesh == Some(x.0)
        &&& self.nodes@[path.last() as int].skin == x.1
    }

    proof fn lemma_visit_found(&self, node: usize, prefix: Seq<usize>, depth: nat)
        ensures
            forall|i: int|
                0 <= i < self.visit(node, prefix, depth).len() ==> {
                    let x = #[trigger] self.visit(node, prefix, depth)[i];
                    self.found_below(x, prefix, depth) && x.2[prefix.len() as int] == node
                },
        decreases depth, 0int, 0int,
    {
        if depth > 0 && node < self.nodes@.len() {
            let path = prefix.push(node);
            let n = self.nodes@[node as int];
            let own: Seq<InstanceView> = match n.mesh {
                Some(m) => seq![(m, n.skin, path)],
                None => Seq::empty(),
            };
            let rest = self.visit_list(n.children@, path, (depth - 1) as nat);
            self.lemma_visit_list_found(n.children@, path, (depth - 1) as nat);
            assert(self.visit(node, prefix, depth) == own + rest);
            assert forall|i: int| 0 <= i < self.visit(node, prefix, depth).len() implies {
                let x = #[trigger] self.visit(node, prefix, depth)[i];
                self.found_below(x, prefix, depth) && x.2[prefix.len() as int] == node
            } by {
                let x = self.visit(node, prefix, depth)[i];
                if i < own.len() {
                    assert(x == own[i]);
                    assert(x.2 == path);
                    assert(path.subrange(0, prefix.len() as int) =~= prefix);
                } else {
                    let y = rest[i - own.len()];
                    assert(x == y);
                    assert(self.found_below(y, path, (depth - 1) as nat));
                    assert(n.children@.contains(y.2[path.len() as int]));
                    assert(y.2.subrange(0, path.len() as int) == path);
                    assert(y.2[prefix.len() as int] == y.2.subrange(0, path.len() as int)[prefix.len() as int]);
                    assert(y.2.subrange(0, prefix.len() as int) =~= path.subrange(
                        0,
                        prefix.len() as int,
                    ));
                    assert(path.subrange(0, prefix.len() as int) =~= prefix);
                    assert forall|k: int|
                        prefix.len() <= k < y.2.len() - 1 implies self.nodes@[y.2[k] as int].children@.contains(
                        #[trigger] y.2[k + 1],
                    ) by {
                        if k == prefix.len() {
                            assert(y.2[k] == node);
                        }
                    }
                }
            }
        }
    }

    proof fn lemma_visit_list_found(&self, list: Seq<usize>, prefix: Seq<usize>, depth: nat)
        ensures
            forall|i: int|
                0 <= i < self.visit_list(list, prefix, depth).len() ==> {
                    let x = #[trigger] self.visit_list(list, prefix, depth)[i];
                    self.found_below(x, prefix, depth) && list.contains(x.2[prefix.len() as int])
                },
        decreases depth, 1int, list.len(),
    {
        if list.len() > 0 {
            let head = self.visit(list[0], prefix, depth);
            let tail_list = list.subrange(1, list.len() as int);
            let tail = self.visit_list(tail_list, prefix, depth);
            self.lemma_visit_found(list[0], prefix, depth);
            self.lemma_visit_list_found(tail_list, prefix, depth);
            assert forall|i: int| 0 <= i < self.visit_list(list, prefix, depth).len() implies {
                let x = #[trigger] self.visit_list(list, prefix, depth)[i];
                self.found_below(x, prefix, depth) && list.contains(x.2[prefix.len() as int])
            } by {
                let x = self.visit_list(list, prefix, depth)[i];
                if i < head.len() {
                    assert(x == head[i]);
                    assert(list.contains(list[0]));
                } else {
                    assert(x == tail[i - head.len()]);
                    let j = choose|j: int|
                        0 <= j < tail_list.len() && tail_list[j] == x.2[prefix.len() as int];
                    assert(list[j + 1] == tail_list[j]);
                }
            }
        }
    }

    /// `path` is a chain that `visit` would report below `prefix`: it extends
    /// `prefix` by one to `depth` nodes, descends, and ends at a node that
    /// carries a mesh.
    pub open spec fn reachable_below(&self, path: Seq<usize>, prefix: Seq<usize>, depth: nat) -> bool {
        &&& prefix.len() < path.len() <= prefix.len() + depth
        &&& path.subrange(0, prefix.len() as int) == prefix
        &&& self.descends(path, prefix.len() as int)
        &&& self.nodes@[path.last() as int].mesh is Some
    }

    /// The occurrence that a reachable chain stands for.
    pub open spec fn occurrence(&self, path: Seq<usize>) -> InstanceView {
        let n = self.nodes@[path.last() as int];
        (n.mesh->0, n.skin, path)
    }

    proof fn lemma_visit_complete(&self, node: usize, prefix: Seq<usize>, depth: nat)
        ensures
            forall|path: Seq<usize>|
                self.reachable_below(path, prefix, depth) && path[prefix.len() as int] == node
                    ==> #[trigger] self.visit(node, prefix, depth).contains(self.occurrence(path)),
        decreases depth, 0int, 0int,
    {
        if depth > 0 && node < self.nodes@.len() {
            let here = prefix.push(node);
            let n = self.nodes@[node as int];
            let own: Seq<InstanceView> = match n.mesh {
                Some(m) => seq![(m, n.skin, here)],
                None => Seq::empty(),
            };
            let rest = self.visit_list(n.children@, here, (depth - 1) as nat);
            self.lemma_visit_list_complete(n.children@, here, (depth - 1) as nat);
            assert(self.visit(node, prefix, depth) == own + rest);
            assert forall|path: Seq<usize>|
                self.reachable_below(path, prefix, depth) && path[prefix.len() as int] == node
                    implies #[trigger] self.visit(node, prefix, depth).contains(
                self.occurrence(path),
            ) by {
                let s = prefix.len() as int;
                let all = own + rest;
                if path.len() == s + 1 {
                    assert(path =~= here);
                    assert(all[0] == own[0]);
                    assert(all[0] == self.occurrence(path));
                } else {
                    assert(path.subrange(0, s + 1) =~= here);
                    assert(self.nodes@[path[s] as int].children@.contains(path[s + 1]));
                    assert(self.reachable_below(path, here, (depth - 1) as nat));
                    assert(rest.contains(self.occurrence(path)));
                    let j = choose|j: int| 0 <= j < rest.len() && rest[j] == self.occurrence(path);
                    assert(all[own.len() + j] == rest[j]);
                }
            }
        }
    }

    proof fn lemma_visit_list_complete(&self, list: Seq<usize>, prefix: Seq<usize>, depth: nat)
        ensures
            forall|path: Seq<usize>|
                self.reachable_below(path, prefix, depth) && list.contains(path[prefix.len() as int])
                    ==> #[trigger] self.visit_list(list, prefix, depth).contains(
                    self.occurrence(path),
                ),
        decreases depth, 1int, list.len(),
    {
        if list.len() > 0 {
            let head = self.visit(list[0], prefix, depth);
            let tail_list = list.subrange(1, list.len() as int);
            let tail = self.visit_list(tail_list, prefix, depth);
            self.lemma_visit_complete(list[0], prefix, depth);
            self.lemma_visit_list_complete(tail_list, prefix, depth);
            assert forall|path: Seq<usize>|
                self.reachable_below(path, prefix, depth) && list.contains(path[prefix.len() as int])
                    implies #[trigger] self.visit_list(list, prefix, depth).contains(
                self.occurrence(path),
            ) by {
                let x = self.occurrence(path);
                let all = head + tail;
                assert(self.visit_list(list, prefix, depth) == all);
                if path[prefix.len() as int] == list[0] {
                    assert(head.contains(x));
                    let j = choose|j: int| 0 <= j < head.len() && head[j] == x;
                    assert(all[j] == head[j]);
                } else {
                    let k = choose|k: int| 0 <= k < list.len() && list[k] == path[prefix.len() as int];
                    assert(tail_list[k - 1] == list[k]);
                    assert(tail.contains(x));
                    let j = choose|j: int| 0 <= j < tail.len() && tail[j] == x;
                    assert(all[head.len() + j] == tail[j]);
                }
            }
        }
    }

}

/// Every mesh occurrence found from `roots` lies at the end of a chain of
/// nodes that starts at one of `roots`, steps from each node to one of its
/// own children, holds at most `depth` nodes, and ends at a node carrying
/// that mesh and skin. The occurrence's world transform is the product of
/// the local transforms along this chain, root first.
pub proof fn lemma_instance_paths(g: &SceneGraph, roots: Seq<usize>, depth: nat)
    ensures
        forall|i: int|
            0 <= i < g.visit_list(roots, Seq::empty(), depth).len() ==> {
                let x = #[trigger] g.visit_list(roots, Seq::empty(), depth)[i];
                &&& 1 <= x.2.len() <= depth
                &&& roots.contains(x.2[0])
                &&& g.descends(x.2, 0)
                &&& g.nodes@[x.2.last() as int].mesh == Some(x.0)
                &&& g.nodes@[x.2.last() as int].skin == x.1
            },
{
    g.lemma_visit_list_found(roots, Seq::empty(), depth);
}

/// Conversely, every chain of at most `depth` nodes that starts at one of
/// `roots`, steps from each node to one of its own children, and ends at a
/// node carrying a mesh is found: a mesh that several nodes carry is
/// reported for each of them, each time with its own chain.
pub proof fn lemma_instances_complete(g: &SceneGraph, roots: Seq<usize>, depth: nat)
    ensures
        forall|path: Seq<usize>|
            1 <= path.len() <= depth && roots.contains(path[0]) && g.descends(path, 0)
                && g.nodes@[path.last() as int].mesh is Some
                ==> #[trigger] g.visit_list(roots, Seq::empty(), depth).contains(g.occurrence(path)),
{
    g.lemma_visit_list_complete(roots, Seq::empty(), depth);
    assert forall|path: Seq<usize>|
        1 <= path.len() <= depth && roots.contains(path[0]) && g.descends(path, 0)
            && g.nodes@[path.last() as int].mesh is Some
            implies #[trigger] g.visit_list(roots, Seq::empty(), depth).contains(g.occurrence(path)) by {
        assert(path.subrange(0, 0) =~= Seq::<usize>::empty());
        assert(g.reachable_below(path, Seq::empty(), depth));
    }
}

} // verus!
