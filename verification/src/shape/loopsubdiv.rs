use vstd::prelude::*;

verus! {

/// The corner after corner `i` of a triangle, going round.
pub open spec fn next_corner(i: int) -> int {
    (i + 1) % 3
}

/// The corner before corner `i` of a triangle, going round.
pub open spec fn prev_corner(i: int) -> int {
    (i + 2) % 3
}

pub fn next(i: usize) -> (r: usize)
    requires
        i < usize::MAX,
    ensures
        r == next_corner(i as int),
{
    (i + 1) % 3
}

pub fn prev(i: usize) -> (r: usize)
    requires
        i < usize::MAX - 1,
    ensures
        r == prev_corner(i as int),
{
    (i + 2) % 3
}

/// The three corners of a triangle are told apart by `next` and `prev`:
/// stepping forward and back, in either order, returns to the corner one
/// started from, and the corner, its successor and its predecessor are
/// three different corners.
pub proof fn lemma_next_prev_inverse(i: int)
    requires
        0 <= i < 3,
    ensures
        prev_corner(next_corner(i)) == i,
        next_corner(prev_corner(i)) == i,
        0 <= next_corner(i) < 3,
        0 <= prev_corner(i) < 3,
        next_corner(i) != i,
        prev_corner(i) != i,
        next_corner(i) != prev_corner(i),
{
}

} // verus!

verus! {

/// The undirected edges `{a0, a1}` and `{b0, b1}` are the same.
pub open spec fn same_edge(a0: usize, a1: usize, b0: usize, b1: usize) -> bool {
    (a0 == b0 && a1 == b1) || (a0 == b1 && a1 == b0)
}

/// The triangle `t` has `{a, b}` among its three edges.
pub open spec fn has_edge(t: [usize; 3], a: usize, b: usize) -> bool {
    same_edge(t[0], t[1], a, b) || same_edge(t[1], t[2], a, b) || same_edge(t[2], t[0], a, b)
}

/// The triangle `t` has `v` among its corners.
pub open spec fn has_corner(t: [usize; 3], v: usize) -> bool {
    t[0] == v || t[1] == v || t[2] == v
}

/// Edge `k` of face `f` runs from corner `k` to corner `next(k)`.
pub open spec fn edge_start(faces: Seq<[usize; 3]>, f: int, k: int) -> usize {
    faces[f][k]
}

pub open spec fn edge_end(faces: Seq<[usize; 3]>, f: int, k: int) -> usize {
    faces[f][next_corner(k)]
}

/// Face `g`, another face than `f`, also has edge `k` of face `f`.
pub open spec fn shares_edge(faces: Seq<[usize; 3]>, f: int, k: int, g: int) -> bool {
    &&& 0 <= g < faces.len()
    &&& g != f
    &&& has_edge(faces[g], edge_start(faces, f, k), edge_end(faces, f, k))
}

/// The neighbour across edge `k` of face `f`: the first other face that has
/// that edge, or none when no other face has it.
pub open spec fn neighbour_ok(faces: Seq<[usize; 3]>, f: int, k: int, n: Option<usize>) -> bool {
    match n {
        Some(g) => shares_edge(faces, f, k, g as int) && forall|h: int| 0 <= h < g ==> !shares_edge(faces, f, k, h),
        None => forall|h: int| !shares_edge(faces, f, k, h),
    }
}

/// How many faces have `v` as a corner among the first `n`.
pub open spec fn faces_at(faces: Seq<[usize; 3]>, v: usize, n: int) -> nat
    decreases n,
{
    if n <= 0 {
        0
    } else {
        faces_at(faces, v, n - 1) + if has_corner(faces[n - 1], v) { 1nat } else { 0nat }
    }
}

/// Vertex `v` lies on the boundary of the mesh: one of the two edges at one
/// of its corners has no neighbour.
pub open spec fn on_boundary(faces: Seq<[usize; 3]>, nbs: Seq<[Option<usize>; 3]>, v: usize) -> bool {
    exists|f: int, k: int|
        0 <= f < faces.len() && 0 <= k < 3 && #[trigger] faces[f][k] == v
            && (nbs[f][k] is None || nbs[f][prev_corner(k)] is None)
}

/// The number of edges at `v`: one per face around it, and one more on the
/// boundary, where the fan of faces is open.
pub open spec fn valence(faces: Seq<[usize; 3]>, v: usize, boundary: bool) -> nat {
    faces_at(faces, v, faces.len() as int) + if boundary { 1nat } else { 0nat }
}

/// A regular vertex has valence 6 inside the mesh and 4 on its boundary.
pub open spec fn regular_ok(faces: Seq<[usize; 3]>, v: usize, boundary: bool) -> bool {
    if boundary {
        valence(faces, v, boundary) == 4
    } else {
        valence(faces, v, boundary) == 6
    }
}

/// The connectivity of a triangle mesh under Loop subdivision: the corners
/// of each face, the face across each of its edges, and for each vertex
/// whether it is on the boundary and whether it is regular.
pub struct LoopTopology {
    pub faces: Vec<[usize; 3]>,
    pub neighbours: Vec<[Option<usize>; 3]>,
    pub boundary: Vec<bool>,
    pub regular: Vec<bool>,
    pub n_vertices: usize,
    pub n_levels: usize,
}

impl LoopTopology {
    /// Faces name vertices that exist, and neighbours, boundary and regular
    /// flags are those that the faces determine.
    pub open spec fn wf(&self) -> bool {
        &&& self.neighbours@.len() == self.faces@.len()
        &&& self.boundary@.len() == self.n_vertices
        &&& self.regular@.len() == self.n_vertices
        &&& forall|f: int, k: int| 0 <= f < self.faces@.len() && 0 <= k < 3 ==> #[trigger] self.faces@[f][k] < self.n_vertices
        &&& forall|f: int, k: int| 0 <= f < self.faces@.len() && 0 <= k < 3
            ==> neighbour_ok(self.faces@, f, k, #[trigger] self.neighbours@[f][k])
        &&& forall|v: int| 0 <= v < self.n_vertices
            ==> #[trigger] self.boundary@[v] == on_boundary(self.faces@, self.neighbours@, v as usize)
        &&& forall|v: int| 0 <= v < self.n_vertices
            ==> #[trigger] self.regular@[v] == regular_ok(self.faces@, v as usize, self.boundary@[v])
    }
}

} // verus!

verus! {

fn edge_of_triangle(t: [usize; 3], a: usize, b: usize) -> (r: bool)
    ensures
        r == has_edge(t, a, b),
{
    (t[0] == a && t[1] == b) || (t[0] == b && t[1] == a)
        || (t[1] == a && t[2] == b) || (t[1] == b && t[2] == a)
        || (t[2] == a && t[0] == b) || (t[2] == b && t[0] == a)
}

fn corner_of_triangle(t: [usize; 3], v: usize) -> (r: bool)
    ensures
        r == has_corner(t, v),
{
    t[0] == v || t[1] == v || t[2] == v
}

/// The first face other than `f` that has edge `k` of face `f`.
fn find_neighbour(faces: &Vec<[usize; 3]>, f: usize, k: usize) -> (r: Option<usize>)
    requires
        f < faces@.len(),
        k < 3,
    ensures
        neighbour_ok(faces@, f as int, k as int, r),
{
    let a = faces[f][k];
    let b = faces[f][next(k)];
    let mut g: usize = 0;
    while g < faces.len()
        invariant
            f < faces@.len(),
            k < 3,
            a == edge_start(faces@, f as int, k as int),
            b == edge_end(faces@, f as int, k as int),
            g <= faces@.len(),
            forall|h: int| 0 <= h < g ==> !shares_edge(faces@, f as int, k as int, h),
        decreases faces@.len() - g,
    {
        if g != f && edge_of_triangle(faces[g], a, b) {
            return Some(g);
        }
        g += 1;
    }
    None
}

/// Loop subdivision topology of the mesh whose faces are the triples of
/// `vertex_indices` over `n_points` vertices: face `f` has corners
/// `vertex_indices[3f..3f+3]`, and neighbours, boundary and regular flags
/// follow from the faces as `wf` states.
pub fn loop_topology_new(vertex_indices: &[usize], n_points: usize, nl: usize) -> (r: LoopTopology)
    requires
        vertex_indices@.len() % 3 == 0,
        forall|i: int| 0 <= i < vertex_indices@.len() ==> #[trigger] vertex_indices@[i] < n_points,
    ensures
        r.wf(),
        r.links_ok(),
        r.n_vertices == n_points,
        r.n_levels == nl,
        r.faces@.len() == vertex_indices@.len() / 3,
        forall|f: int, k: int| 0 <= f < r.faces@.len() && 0 <= k < 3
            ==> #[trigger] r.faces@[f][k] == vertex_indices@[3 * f + k],
{
    let len = vertex_indices.len();
    let num_faces = len / 3;
    let mut faces: Vec<[usize; 3]> = Vec::new();
    let mut f: usize = 0;
    while f < num_faces
        invariant
            len == vertex_indices@.len(),
            num_faces == len / 3,
            len % 3 == 0,
            f <= num_faces,
            faces@.len() == f,
            forall|i: int| 0 <= i < vertex_indices@.len() ==> #[trigger] vertex_indices@[i] < n_points,
            forall|g: int, k: int| 0 <= g < f && 0 <= k < 3
                ==> #[trigger] faces@[g][k] == vertex_indices@[3 * g + k],
        decreases num_faces - f,
    {
        assert(3 * f + 2 < vertex_indices@.len()) by (nonlinear_arith)
            requires
                f < num_faces,
                num_faces == len / 3,
                len == vertex_indices@.len(),
        ;
        let face = [vertex_indices[3 * f], vertex_indices[3 * f + 1], vertex_indices[3 * f + 2]];
        faces.push(face);
        f += 1;
    }

    let mut neighbours: Vec<[Option<usize>; 3]> = Vec::new();
    let mut f: usize = 0;
    while f < num_faces
        invariant
            faces@.len() == num_faces,
            f <= num_faces,
            neighbours@.len() == f,
            forall|g: int, k: int| 0 <= g < f && 0 <= k < 3
                ==> neighbour_ok(faces@, g, k, #[trigger] neighbours@[g][k]),
        decreases num_faces - f,
    {
        let n0 = find_neighbour(&faces, f, 0);
        let n1 = find_neighbour(&faces, f, 1);
        let n2 = find_neighbour(&faces, f, 2);
        neighbours.push([n0, n1, n2]);
        f += 1;
    }

    let mut boundary: Vec<bool> = Vec::new();
    let mut regular: Vec<bool> = Vec::new();
    let mut v: usize = 0;
    while v < n_points
        invariant
            faces@.len() == num_faces,
            neighbours@.len() == num_faces,
            v <= n_points,
            boundary@.len() == v,
            regular@.len() == v,
            forall|u: int| 0 <= u < v
                ==> #[trigger] boundary@[u] == on_boundary(faces@, neighbours@, u as usize),
            forall|u: int| 0 <= u < v
                ==> #[trigger] regular@[u] == regular_ok(faces@, u as usize, boundary@[u]),
        decreases n_points - v,
    {
        let mut is_boundary = false;
        let mut count: usize = 0;
        let mut g: usize = 0;
        while g < num_faces
            invariant
                faces@.len() == num_faces,
                neighbours@.len() == num_faces,
                g <= num_faces,
                count == faces_at(faces@, v, g as int),
                count <= g,
                is_boundary <==> exists|h: int, k: int|
                    0 <= h < g && 0 <= k < 3 && #[trigger] faces@[h][k] == v
                        && (neighbours@[h][k] is None || neighbours@[h][prev_corner(k)] is None),
            decreases num_faces - g,
        {
            let t = faces[g];
            let nb = neighbours[g];
            if corner_of_triangle(t, v) {
                count += 1;
            }
            let mut k: usize = 0;
            while k < 3
                invariant
                    g < num_faces,
                    faces@.len() == num_faces,
                    neighbours@.len() == num_faces,
                    t == faces@[g as int],
                    nb == neighbours@[g as int],
                    k <= 3,
                    is_boundary <==> (exists|h: int, j: int|
                        0 <= h < g && 0 <= j < 3 && #[trigger] faces@[h][j] == v
                            && (neighbours@[h][j] is None || neighbours@[h][prev_corner(j)] is None))
                        || (exists|j: int| 0 <= j < k && #[trigger] faces@[g as int][j] == v
                            && (neighbours@[g as int][j] is None || neighbours@[g as int][prev_corner(j)] is None)),
                decreases 3 - k,
            {
                if t[k] == v && (nb[k].is_none() || nb[prev(k)].is_none()) {
                    is_boundary = true;
                }
                k += 1;
            }
            g += 1;
        }
        let reg = if is_boundary { count == 3 } else { count == 6 };
        boundary.push(is_boundary);
        regular.push(reg);
        v += 1;
    }

    let r = LoopTopology { faces, neighbours, boundary, regular, n_vertices: n_points, n_levels: nl };
    proof {
        lemma_wf_links(&r);
    }
    r
}

} // verus!

verus! {

/// The edge at position `p` of the flattened corner list: edge `p % 3` of
/// face `p / 3`, from its start corner to its end corner.
pub open spec fn pos_start(faces: Seq<[usize; 3]>, p: int) -> usize {
    faces[p / 3][p % 3]
}

pub open spec fn pos_end(faces: Seq<[usize; 3]>, p: int) -> usize {
    faces[p / 3][next_corner(p % 3)]
}

/// Positions `q` and `p` hold the same undirected edge.
pub open spec fn same_edge_at(faces: Seq<[usize; 3]>, q: int, p: int) -> bool {
    same_edge(pos_start(faces, q), pos_end(faces, q), pos_start(faces, p), pos_end(faces, p))
}

/// Position `p` is where its edge is met first.
pub open spec fn first_seen(faces: Seq<[usize; 3]>, p: int) -> bool {
    forall|q: int| 0 <= q < p ==> !same_edge_at(faces, q, p)
}

/// How many distinct edges are met before position `p`.
pub open spec fn edges_before(faces: Seq<[usize; 3]>, p: int) -> nat
    decreases p,
{
    if p <= 0 {
        0
    } else {
        edges_before(faces, p - 1) + if first_seen(faces, p - 1) { 1nat } else { 0nat }
    }
}

/// The first position from `q` on, up to `p`, whose edge is that of `p`.
pub open spec fn first_match(faces: Seq<[usize; 3]>, p: int, q: int) -> int
    decreases p - q,
{
    if q >= p {
        p
    } else if same_edge_at(faces, q, p) {
        q
    } else {
        first_match(faces, p, q + 1)
    }
}

/// The new vertex on the edge at position `p`: edge vertices follow the
/// `n` old vertices, numbered in the order in which their edges are first
/// met.
pub open spec fn edge_vertex(faces: Seq<[usize; 3]>, n: int, p: int) -> int {
    n + edges_before(faces, first_match(faces, p, 0))
}

/// The corner of `t` at which vertex `v` stands (the first, if several).
pub open spec fn vnum(t: [usize; 3], v: usize) -> int {
    if t[0] == v {
        0
    } else if t[1] == v {
        1
    } else {
        2
    }
}

/// The child of the face across edge `e` of face `f` that touches corner
/// `k` of `f`.
pub open spec fn child_across(faces: Seq<[usize; 3]>, nbs: Seq<[Option<usize>; 3]>, f: int, e: int, k: int) -> Option<usize> {
    match nbs[f][e] {
        Some(g) => Some((4 * g + vnum(faces[g as int], faces[f][k])) as usize),
        None => None,
    }
}

impl LoopTopology {
    /// The faces name vertices that exist, and each neighbour is a face that
    /// has the edge it stands across.
    pub open spec fn links_ok(&self) -> bool {
        &&& self.neighbours@.len() == self.faces@.len()
        &&& self.boundary@.len() == self.n_vertices
        &&& self.regular@.len() == self.n_vertices
        &&& forall|f: int, k: int| 0 <= f < self.faces@.len() && 0 <= k < 3 ==> #[trigger] self.faces@[f][k] < self.n_vertices
        &&& forall|f: int, k: int| 0 <= f < self.faces@.len() && 0 <= k < 3
            ==> match #[trigger] self.neighbours@[f][k] {
                Some(g) => g < self.faces@.len() && has_edge(self.faces@[g as int], edge_start(self.faces@, f, k), edge_end(self.faces@, f, k)),
                None => true,
            }
    }
}

proof fn lemma_first_match_bounds(faces: Seq<[usize; 3]>, p: int, q: int)
    requires
        0 <= q <= p,
    ensures
        q <= first_match(faces, p, q) <= p,
        first_match(faces, p, q) < p ==> same_edge_at(faces, first_match(faces, p, q), p),
        forall|j: int| q <= j < first_match(faces, p, q) ==> !same_edge_at(faces, j, p),
    decreases p - q,
{
    if q < p && !same_edge_at(faces, q, p) {
        lemma_first_match_bounds(faces, p, q + 1);
    }
}

proof fn lemma_first_match_of_first(faces: Seq<[usize; 3]>, p: int, q: int)
    requires
        0 <= q <= p,
        forall|j: int| q <= j < p ==> !same_edge_at(faces, j, p),
    ensures
        first_match(faces, p, q) == p,
    decreases p - q,
{
    if q < p {
        lemma_first_match_of_first(faces, p, q + 1);
    }
}

proof fn lemma_edges_before_bound(faces: Seq<[usize; 3]>, p: int)
    requires
        0 <= p,
    ensures
        edges_before(faces, p) <= p,
    decreases p,
{
    if p > 0 {
        lemma_edges_before_bound(faces, p - 1);
    }
}

} // verus!

verus! {

fn is_same_edge(a0: usize, a1: usize, b0: usize, b1: usize) -> (r: bool)
    ensures
        r == same_edge(a0, a1, b0, b1),
{
    (a0 == b0 && a1 == b1) || (a0 == b1 && a1 == b0)
}

/// The new vertex of each edge position, and for each distinct edge, in the
/// order in which edges are first met, whether it lies on the boundary (no
/// face across it).
fn edge_vertices(faces: &Vec<[usize; 3]>, nbs: &Vec<[Option<usize>; 3]>, n: usize) -> (r: (Vec<usize>, Vec<bool>))
    requires
        nbs@.len() == faces@.len(),
        n + 3 * faces@.len() <= usize::MAX,
    ensures
        r.0@.len() == 3 * faces@.len(),
        r.1@.len() == edges_before(faces@, 3 * faces@.len() as int),
        forall|p: int| 0 <= p < 3 * faces@.len() ==> #[trigger] r.0@[p] == edge_vertex(faces@, n as int, p),
        forall|p: int| 0 <= p < 3 * faces@.len() ==> n <= #[trigger] r.0@[p] < n + r.1@.len(),
        forall|p: int| 0 <= p < 3 * faces@.len() && #[trigger] first_seen(faces@, p)
            ==> edges_before(faces@, p) < r.1@.len()
                && r.1@[edges_before(faces@, p) as int] == (nbs@[p / 3][p % 3] is None),
{
    let total = 3 * faces.len();
    let mut odd: Vec<usize> = Vec::new();
    let mut flags: Vec<bool> = Vec::new();
    let mut count: usize = 0;
    let mut p: usize = 0;
    while p < total
        invariant
            total == 3 * faces@.len(),
            nbs@.len() == faces@.len(),
            n + total <= usize::MAX,
            p <= total,
            odd@.len() == p,
            flags@.len() == count,
            count == edges_before(faces@, p as int),
            count <= p,
            forall|j: int| 0 <= j < p ==> #[trigger] odd@[j] == edge_vertex(faces@, n as int, j),
            forall|j: int| 0 <= j < p ==> n <= #[trigger] odd@[j] < n + count,
            forall|j: int| 0 <= j < p && #[trigger] first_seen(faces@, j)
                ==> edges_before(faces@, j) < count
                    && flags@[edges_before(faces@, j) as int] == (nbs@[j / 3][j % 3] is None),
        decreases total - p,
    {
        let f = p / 3;
        let k = p % 3;
        let a = faces[f][k];
        let b = faces[f][next(k)];
        let mut q: usize = 0;
        let mut found = false;
        while q < p && !found
            invariant
                p < total,
                total == 3 * faces@.len(),
                f == p / 3,
                k == p % 3,
                a == pos_start(faces@, p as int),
                b == pos_end(faces@, p as int),
                q <= p,
                forall|j: int| 0 <= j < q ==> !same_edge_at(faces@, j, p as int),
                found ==> q < p && same_edge_at(faces@, q as int, p as int),
            decreases p - q + if found { 0int } else { 1int },
        {
            let fq = q / 3;
            let kq = q % 3;
            if is_same_edge(faces[fq][kq], faces[fq][next(kq)], a, b) {
                found = true;
            } else {
                q += 1;
            }
        }
        proof {
            lemma_first_match_bounds(faces@, p as int, 0);
        }
        if found {
            proof {
                assert forall|j: int| 0 <= j < q implies !same_edge_at(faces@, j, q as int) by {
                    assert(!same_edge_at(faces@, j, p as int));
                }
                lemma_first_match_of_first(faces@, q as int, 0);
                assert(!first_seen(faces@, p as int));
            }
            let v = odd[q];
            odd.push(v);
        } else {
            proof {
                lemma_first_match_of_first(faces@, p as int, 0);
                assert(first_seen(faces@, p as int));
            }
            odd.push(n + count);
            flags.push(nbs[f][k].is_none());
            count += 1;
        }
        p += 1;
    }
    (odd, flags)
}

} // verus!

verus! {

/// Corner `j` of child `c` of face `f` after one step of subdivision: the
/// children are `[v0, e0, e2]`, `[e0, v1, e1]`, `[e2, e1, v2]` and the
/// middle face `[e0, e1, e2]`, where `vk` are the corners of `f` and `ek`
/// the new vertex on its edge `k`.
pub open spec fn child_corner(faces: Seq<[usize; 3]>, n: int, f: int, c: int, j: int) -> int {
    let v = faces[f];
    let e = |k: int| edge_vertex(faces, n, 3 * f + k);
    if c == 0 {
        if j == 0 { v[0] as int } else if j == 1 { e(0) } else { e(2) }
    } else if c == 1 {
        if j == 0 { e(0) } else if j == 1 { v[1] as int } else { e(1) }
    } else if c == 2 {
        if j == 0 { e(2) } else if j == 1 { e(1) } else { v[2] as int }
    } else {
        e(j)
    }
}

/// The face across edge `j` of child `c` of face `f`: inside the parent it
/// is a sibling (the middle face, or the corner child on that side), across
/// the parent's own edges it is the child of the neighbouring face that
/// touches the same corner.
pub open spec fn child_neighbour(faces: Seq<[usize; 3]>, nbs: Seq<[Option<usize>; 3]>, f: int, c: int, j: int) -> Option<usize> {
    if c == 3 {
        Some((4 * f + next_corner(j)) as usize)
    } else if j == next_corner(c) {
        Some((4 * f + 3) as usize)
    } else if j == c {
        child_across(faces, nbs, f, c, c)
    } else {
        child_across(faces, nbs, f, prev_corner(c), c)
    }
}

fn all_true(len: usize) -> (r: Vec<bool>)
    ensures
        r@.len() == len,
        forall|i: int| 0 <= i < len ==> #[trigger] r@[i],
{
    let mut r: Vec<bool> = Vec::new();
    while r.len() < len
        invariant
            r@.len() <= len,
            forall|i: int| 0 <= i < r@.len() ==> #[trigger] r@[i],
        decreases len - r@.len(),
    {
        r.push(true);
    }
    r
}

fn concat_flags(a: &Vec<bool>, b: &Vec<bool>) -> (r: Vec<bool>)
    ensures
        r@ == a@ + b@,
{
    let mut r: Vec<bool> = Vec::new();
    let mut i: usize = 0;
    while i < a.len()
        invariant
            i <= a@.len(),
            r@ == a@.subrange(0, i as int),
        decreases a@.len() - i,
    {
        r.push(a[i]);
        i += 1;
    }
    let mut j: usize = 0;
    while j < b.len()
        invariant
            j <= b@.len(),
            r@ == a@ + b@.subrange(0, j as int),
        decreases b@.len() - j,
    {
        r.push(b[j]);
        j += 1;
    }
    r
}

fn corner_index(t: [usize; 3], v: usize) -> (r: usize)
    ensures
        r == vnum(t, v),
{
    if t[0] == v {
        0
    } else if t[1] == v {
        1
    } else {
        2
    }
}

fn across(m: &LoopTopology, f: usize, e: usize, k: usize) -> (r: Option<usize>)
    requires
        m.links_ok(),
        4 * m.faces@.len() <= usize::MAX,
        f < m.faces@.len(),
        e < 3,
        k < 3,
    ensures
        r == child_across(m.faces@, m.neighbours@, f as int, e as int, k as int),
{
    match m.neighbours[f][e] {
        Some(g) => {
            assert(g < m.faces@.len());
            Some(4 * g + corner_index(m.faces[g], m.faces[f][k]))
        },
        None => None,
    }
}

/// One step of Loop subdivision on the connectivity: every face splits into
/// four, every edge gets one new vertex, and neighbour links and vertex
/// flags are carried over to the children.
pub fn loop_refine_topology(m: &LoopTopology) -> (r: LoopTopology)
    requires
        m.links_ok(),
        m.n_vertices + 3 * m.faces@.len() <= usize::MAX,
        4 * m.faces@.len() <= usize::MAX,
    ensures
        r.links_ok(),
        r.n_vertices == m.n_vertices + edges_before(m.faces@, 3 * m.faces@.len() as int),
        r.n_levels == m.n_levels,
        r.faces@.len() == 4 * m.faces@.len(),
        r.neighbours@.len() == 4 * m.faces@.len(),
        r.boundary@.len() == r.n_vertices,
        r.regular@.len() == r.n_vertices,
        forall|i: int, j: int| 0 <= i < r.faces@.len() && 0 <= j < 3
            ==> #[trigger] r.faces@[i][j] == child_corner(m.faces@, m.n_vertices as int, i / 4, i % 4, j),
        forall|i: int, j: int| 0 <= i < r.neighbours@.len() && 0 <= j < 3
            ==> #[trigger] r.neighbours@[i][j] == child_neighbour(m.faces@, m.neighbours@, i / 4, i % 4, j),
        forall|v: int| 0 <= v < m.n_vertices ==> #[trigger] r.boundary@[v] == m.boundary@[v] && r.regular@[v] == m.regular@[v],
        forall|p: int| 0 <= p < 3 * m.faces@.len() && #[trigger] first_seen(m.faces@, p) ==> {
            let e = edge_vertex(m.faces@, m.n_vertices as int, p);
            &&& m.n_vertices <= e < r.n_vertices
            &&& r.boundary@[e] == (m.neighbours@[p / 3][p % 3] is None)
            &&& r.regular@[e]
        },
{
    let nf = m.faces.len();
    let n = m.n_vertices;
    let (odd, flags) = edge_vertices(&m.faces, &m.neighbours, n);

    let mut faces: Vec<[usize; 3]> = Vec::new();
    let mut f: usize = 0;
    while f < nf
        invariant
            nf == m.faces@.len(),
            m.links_ok(),
            n == m.n_vertices,
            n + 3 * nf <= usize::MAX,
            4 * nf <= usize::MAX,
            odd@.len() == 3 * nf,
            forall|p: int| 0 <= p < 3 * nf ==> #[trigger] odd@[p] == edge_vertex(m.faces@, n as int, p),
            forall|p: int| 0 <= p < 3 * nf ==> n <= #[trigger] odd@[p] < n + flags@.len(),
            f <= nf,
            faces@.len() == 4 * f,
            forall|i: int, j: int| 0 <= i < 4 * f && 0 <= j < 3
                ==> #[trigger] faces@[i][j] == child_corner(m.faces@, n as int, i / 4, i % 4, j),
            forall|i: int, j: int| 0 <= i < 4 * f && 0 <= j < 3
                ==> #[trigger] faces@[i][j] < n + flags@.len(),
        decreases nf - f,
    {
        let v = m.faces[f];
        let e0 = odd[3 * f];
        let e1 = odd[3 * f + 1];
        let e2 = odd[3 * f + 2];
        faces.push([v[0], e0, e2]);
        faces.push([e0, v[1], e1]);
        faces.push([e2, e1, v[2]]);
        faces.push([e0, e1, e2]);
        f += 1;
    }

    let mut neighbours: Vec<[Option<usize>; 3]> = Vec::new();
    let mut f: usize = 0;
    while f < nf
        invariant
            nf == m.faces@.len(),
            m.links_ok(),
            4 * nf <= usize::MAX,
            f <= nf,
            neighbours@.len() == 4 * f,
            forall|i: int, j: int| 0 <= i < 4 * f && 0 <= j < 3
                ==> #[trigger] neighbours@[i][j] == child_neighbour(m.faces@, m.neighbours@, i / 4, i % 4, j),
        decreases nf - f,
    {
        let mid = Some(4 * f + 3);
        neighbours.push([across(m, f, 0, 0), mid, across(m, f, 2, 0)]);
        neighbours.push([across(m, f, 0, 1), across(m, f, 1, 1), mid]);
        neighbours.push([mid, across(m, f, 1, 2), across(m, f, 2, 2)]);
        neighbours.push([Some(4 * f + 1), Some(4 * f + 2), Some(4 * f)]);
        f += 1;
    }

    let trues = all_true(flags.len());
    let boundary = concat_flags(&m.boundary, &flags);
    let regular = concat_flags(&m.regular, &trues);
    proof {
        lemma_edges_before_bound(m.faces@, 3 * nf as int);
        assert forall|p: int| 0 <= p < 3 * m.faces@.len() && #[trigger] first_seen(m.faces@, p) implies {
            let e = edge_vertex(m.faces@, m.n_vertices as int, p);
            &&& m.n_vertices <= e < n + flags@.len()
            &&& boundary@[e] == (m.neighbours@[p / 3][p % 3] is None)
            &&& regular@[e]
        } by {
            lemma_first_match_of_first(m.faces@, p, 0);
            let u = edges_before(m.faces@, p) as int;
            assert(u < flags@.len());
            assert(boundary@[n + u] == flags@[u]);
            assert(regular@[n + u] == trues@[u]);
        }
        assert forall|i: int, j: int| 0 <= i < 4 * nf && 0 <= j < 3 implies
            match #[trigger] neighbours@[i][j] {
                Some(g) => g < faces@.len() && has_edge(faces@[g as int], edge_start(faces@, i, j), edge_end(faces@, i, j)),
                None => true,
            } by {
            if neighbours@[i][j] is Some {
                lemma_child_link(m.faces@, m.neighbours@, n as int, i / 4, i % 4, j);
                let g = neighbours@[i][j]->0 as int;
                assert(faces@[i][j] == child_corner(m.faces@, n as int, i / 4, i % 4, j));
                assert(faces@[i][next_corner(j)] == child_corner(m.faces@, n as int, i / 4, i % 4, next_corner(j)));
                assert(faces@[g][0] == child_corner(m.faces@, n as int, g / 4, g % 4, 0));
                assert(faces@[g][1] == child_corner(m.faces@, n as int, g / 4, g % 4, 1));
                assert(faces@[g][2] == child_corner(m.faces@, n as int, g / 4, g % 4, 2));
            }
        }
    }
    LoopTopology { faces, neighbours, boundary, regular, n_vertices: n + flags.len(), n_levels: m.n_levels }
}

} // verus!

verus! {

/// Two positions that hold the same edge get the same new vertex.
pub proof fn lemma_same_edge_same_vertex(faces: Seq<[usize; 3]>, n: int, q: int, p: int)
    requires
        0 <= q,
        0 <= p,
        same_edge_at(faces, q, p),
    ensures
        edge_vertex(faces, n, q) == edge_vertex(faces, n, p),
{
    lemma_first_match_bounds(faces, p, 0);
    lemma_first_match_bounds(faces, q, 0);
    let a = first_match(faces, p, 0);
    let b = first_match(faces, q, 0);
    assert(same_edge_at(faces, a, p));
    assert(same_edge_at(faces, b, q));
    if a < b {
        assert(!same_edge_at(faces, a, q));
    } else if b < a {
        assert(!same_edge_at(faces, b, p));
    }
}

/// Child `q` of face `g` has the undirected edge `{a, b}`.
pub open spec fn child_has_edge(faces: Seq<[usize; 3]>, n: int, g: int, q: int, a: int, b: int) -> bool {
    let c0 = child_corner(faces, n, g, q, 0);
    let c1 = child_corner(faces, n, g, q, 1);
    let c2 = child_corner(faces, n, g, q, 2);
    ||| (c0 == a && c1 == b) || (c0 == b && c1 == a)
    ||| (c1 == a && c2 == b) || (c1 == b && c2 == a)
    ||| (c2 == a && c0 == b) || (c2 == b && c0 == a)
}

/// The neighbour links of a mesh point to faces that have the edge.
pub open spec fn links_hold(faces: Seq<[usize; 3]>, nbs: Seq<[Option<usize>; 3]>) -> bool {
    &&& nbs.len() == faces.len()
    &&& forall|f: int, k: int| 0 <= f < faces.len() && 0 <= k < 3
        ==> match #[trigger] nbs[f][k] {
            Some(g) => g < faces.len() && has_edge(faces[g as int], edge_start(faces, f, k), edge_end(faces, f, k)),
            None => true,
        }
}

/// The child of the face across edge `e` of face `f` that touches corner
/// `c` of `f` has the half of that edge that ends at the corner.
proof fn lemma_child_across(faces: Seq<[usize; 3]>, nbs: Seq<[Option<usize>; 3]>, n: int, f: int, c: int, e: int)
    requires
        links_hold(faces, nbs),
        0 <= f < faces.len(),
        0 <= c < 3,
        e == c || e == prev_corner(c),
        nbs[f][e] is Some,
    ensures
        ({
            let g = nbs[f][e]->0 as int;
            let q = vnum(faces[g], faces[f][c]);
            &&& 0 <= g < faces.len()
            &&& 0 <= q < 3
            &&& child_has_edge(faces, n, g, q, faces[f][c] as int, edge_vertex(faces, n, 3 * f + e))
        }),
{
    let g = nbs[f][e]->0 as int;
    let v = faces[f][c];
    let q = vnum(faces[g], v);
    assert(faces[g][q] == v);
    let ev = edge_vertex(faces, n, 3 * f + e);
    assert(pos_start(faces, 3 * f + e) == faces[f][e]);
    assert(pos_end(faces, 3 * f + e) == faces[f][next_corner(e)]);
    assert(pos_start(faces, 3 * g + q) == faces[g][q]);
    assert(pos_end(faces, 3 * g + q) == faces[g][next_corner(q)]);
    assert(pos_start(faces, 3 * g + prev_corner(q)) == faces[g][prev_corner(q)]);
    assert(pos_end(faces, 3 * g + prev_corner(q)) == faces[g][q]);
    if same_edge_at(faces, 3 * f + e, 3 * g + q) {
        lemma_same_edge_same_vertex(faces, n, 3 * f + e, 3 * g + q);
        assert(child_corner(faces, n, g, q, q) == v);
        assert(child_corner(faces, n, g, q, next_corner(q)) == ev);
    } else {
        assert(same_edge_at(faces, 3 * f + e, 3 * g + prev_corner(q)));
        lemma_same_edge_same_vertex(faces, n, 3 * f + e, 3 * g + prev_corner(q));
        assert(child_corner(faces, n, g, q, q) == v);
        assert(child_corner(faces, n, g, q, prev_corner(q)) == ev);
    }
}

/// Inside a face, the middle child and each corner child share an edge.
proof fn lemma_child_sibling(faces: Seq<[usize; 3]>, nbs: Seq<[Option<usize>; 3]>, n: int, f: int, c: int, j: int)
    requires
        4 * faces.len() <= usize::MAX,
        0 <= f < faces.len(),
        0 <= c < 4,
        0 <= j < 3,
        c == 3 || j == next_corner(c),
    ensures
        ({
            let g = child_neighbour(faces, nbs, f, c, j)->0 as int;
            &&& 0 <= g < 4 * faces.len()
            &&& child_has_edge(faces, n, g / 4, g % 4, child_corner(faces, n, f, c, j), child_corner(faces, n, f, c, next_corner(j)))
        }),
{
    let g = child_neighbour(faces, nbs, f, c, j)->0 as int;
    if c == 3 {
        assert(g == 4 * f + next_corner(j));
        assert(g / 4 == f && g % 4 == next_corner(j));
    } else {
        assert(g == 4 * f + 3);
        assert(g / 4 == f && g % 4 == 3);
    }
}

/// Each neighbour that one step of subdivision gives a child face is a
/// child face that has the edge it stands across.
pub proof fn lemma_child_link(faces: Seq<[usize; 3]>, nbs: Seq<[Option<usize>; 3]>, n: int, f: int, c: int, j: int)
    requires
        links_hold(faces, nbs),
        4 * faces.len() <= usize::MAX,
        0 <= f < faces.len(),
        0 <= c < 4,
        0 <= j < 3,
        child_neighbour(faces, nbs, f, c, j) is Some,
    ensures
        ({
            let g = child_neighbour(faces, nbs, f, c, j)->0 as int;
            &&& 0 <= g < 4 * faces.len()
            &&& child_has_edge(faces, n, g / 4, g % 4, child_corner(faces, n, f, c, j), child_corner(faces, n, f, c, next_corner(j)))
        }),
{
    if c == 3 || j == next_corner(c) {
        lemma_child_sibling(faces, nbs, n, f, c, j);
    } else {
        let e = if j == c { c } else { prev_corner(c) };
        lemma_child_across(faces, nbs, n, f, c, e);
        let g = nbs[f][e]->0 as int;
        let q = vnum(faces[g], faces[f][c]);
        let gp = 4 * g + q;
        assert(gp / 4 == g && gp % 4 == q);
        assert(child_neighbour(faces, nbs, f, c, j)->0 as int == gp);
        let a = child_corner(faces, n, f, c, j);
        let b = child_corner(faces, n, f, c, next_corner(j));
        let ev = edge_vertex(faces, n, 3 * f + e);
        assert((a == faces[f][c] && b == ev) || (a == ev && b == faces[f][c]));
    }
}

} // verus!

verus! {

/// A topology whose neighbours, boundary and regular flags are those that
/// its faces determine also has consistent links.
pub proof fn lemma_wf_links(m: &LoopTopology)
    requires
        m.wf(),
    ensures
        m.links_ok(),
{
    assert forall|f: int, k: int| 0 <= f < m.faces@.len() && 0 <= k < 3 implies
        match #[trigger] m.neighbours@[f][k] {
            Some(g) => g < m.faces@.len() && has_edge(m.faces@[g as int], edge_start(m.faces@, f, k), edge_end(m.faces@, f, k)),
            None => true,
        } by {
        assert(neighbour_ok(m.faces@, f, k, m.neighbours@[f][k]));
    }
}

/// The vertex index list of the mesh: three indices per face, in face
/// order.
pub fn topology_indices(m: &LoopTopology) -> (r: Vec<usize>)
    requires
        3 * m.faces@.len() <= usize::MAX,
    ensures
        r@.len() == 3 * m.faces@.len(),
        forall|i: int| 0 <= i < r@.len() ==> #[trigger] r@[i] == m.faces@[i / 3][i % 3],
{
    let mut r: Vec<usize> = Vec::new();
    let mut f: usize = 0;
    while f < m.faces.len()
        invariant
            3 * m.faces@.len() <= usize::MAX,
            f <= m.faces@.len(),
            r@.len() == 3 * f,
            forall|i: int| 0 <= i < r@.len() ==> #[trigger] r@[i] == m.faces@[i / 3][i % 3],
        decreases m.faces@.len() - f,
    {
        let t = m.faces[f];
        r.push(t[0]);
        r.push(t[1]);
        r.push(t[2]);
        f += 1;
    }
    r
}

} // verus!

verus! {

/// No edge of any face is shared with more than one other face.
pub open spec fn manifold(faces: Seq<[usize; 3]>) -> bool {
    forall|f: int, k: int, g: int, h: int|
        #[trigger] shares_edge(faces, f, k, g) && #[trigger] shares_edge(faces, f, k, h) ==> g == h
}

/// On a manifold mesh the neighbour links are mutual: when face `g` is
/// across edge `k` of face `f`, then `f` is across the same edge of `g`.
pub proof fn lemma_neighbours_mutual(m: &LoopTopology, f: int, k: int)
    requires
        m.wf(),
        manifold(m.faces@),
        0 <= f < m.faces@.len(),
        0 <= k < 3,
        m.neighbours@[f][k] is Some,
    ensures
        ({
            let g = m.neighbours@[f][k]->0 as int;
            exists|j: int| 0 <= j < 3 && m.neighbours@[g][j] == Some(f as usize)
                && #[trigger] same_edge(edge_start(m.faces@, g, j), edge_end(m.faces@, g, j),
                    edge_start(m.faces@, f, k), edge_end(m.faces@, f, k))
        }),
{
    let faces = m.faces@;
    assert(neighbour_ok(faces, f, k, m.neighbours@[f][k]));
    let g = m.neighbours@[f][k]->0 as int;
    let a = edge_start(faces, f, k);
    let b = edge_end(faces, f, k);
    assert(has_edge(faces[g], a, b));
    let j: int = if same_edge(faces[g][0], faces[g][1], a, b) {
        0
    } else if same_edge(faces[g][1], faces[g][2], a, b) {
        1
    } else {
        2
    };
    assert(same_edge(edge_start(faces, g, j), edge_end(faces, g, j), a, b));
    assert(shares_edge(faces, g, j, f));
    assert(neighbour_ok(faces, g, j, m.neighbours@[g][j]));
    match m.neighbours@[g][j] {
        Some(h) => {
            assert(shares_edge(faces, g, j, h as int));
            if h as int != f {
                assert(shares_edge(faces, f, k, h as int));
                assert(shares_edge(faces, f, k, g));
            }
        },
        None => {
            assert(!shares_edge(faces, g, j, f));
        },
    }
}

} // verus!

verus! {

/// The faces among the first `n` that have `v` as a corner.
pub open spec fn faces_with_corner(faces: Seq<[usize; 3]>, v: usize, n: int) -> Set<int> {
    Set::new(|f: int| 0 <= f < n && has_corner(faces[f], v))
}

proof fn lemma_faces_at_counts(faces: Seq<[usize; 3]>, v: usize, n: int)
    requires
        0 <= n,
    ensures
        faces_with_corner(faces, v, n).finite(),
        faces_with_corner(faces, v, n).len() == faces_at(faces, v, n),
    decreases n,
{
    if n == 0 {
        assert(faces_with_corner(faces, v, 0) =~= Set::<int>::empty());
    } else {
        lemma_faces_at_counts(faces, v, n - 1);
        let before = faces_with_corner(faces, v, n - 1);
        if has_corner(faces[n - 1], v) {
            assert(faces_with_corner(faces, v, n) =~= before.insert(n - 1));
        } else {
            assert(faces_with_corner(faces, v, n) =~= before);
        }
    }
}

/// A vertex is regular exactly when six faces meet at it inside the mesh,
/// or three on its boundary (where one more edge closes the open fan):
/// an interior vertex with five or seven faces is not regular.
pub proof fn lemma_regular_counts_faces(m: &LoopTopology, v: int)
    requires
        m.wf(),
        0 <= v < m.n_vertices,
    ensures
        ({
            let k = faces_with_corner(m.faces@, v as usize, m.faces@.len() as int).len();
            &&& !m.boundary@[v] ==> (m.regular@[v] <==> k == 6)
            &&& m.boundary@[v] ==> (m.regular@[v] <==> k == 3)
        }),
{
    lemma_faces_at_counts(m.faces@, v as usize, m.faces@.len() as int);
    assert(m.regular@[v] == regular_ok(m.faces@, v as usize, m.boundary@[v]));
}

} // verus!

verus! {

/// Refinement keeps every face's orientation. Corner child `c` starts at
/// the parent's corner `c` and its edge `c` runs along the parent's edge
/// `c` towards that edge's new vertex, while its edge `prev(c)` arrives at
/// corner `c` from the new vertex of the parent's edge `prev(c)`, the way
/// that edge runs. The middle child shares its edge `prev(c)` with corner
/// child `c` and runs it the opposite way, as two faces of one orientation
/// do, and the two children name each other across it.
pub proof fn lemma_children_keep_orientation(faces: Seq<[usize; 3]>, nbs: Seq<[Option<usize>; 3]>, n: int, f: int, c: int)
    requires
        0 <= f < faces.len(),
        4 * faces.len() <= usize::MAX,
        0 <= c < 3,
    ensures
        child_corner(faces, n, f, c, c) == faces[f][c],
        child_corner(faces, n, f, c, next_corner(c)) == edge_vertex(faces, n, 3 * f + c),
        child_corner(faces, n, f, c, prev_corner(c)) == edge_vertex(faces, n, 3 * f + prev_corner(c)),
        child_corner(faces, n, f, 3, prev_corner(c)) == child_corner(faces, n, f, c, prev_corner(c)),
        child_corner(faces, n, f, 3, c) == child_corner(faces, n, f, c, next_corner(c)),
        child_neighbour(faces, nbs, f, c, next_corner(c)) == Some((4 * f + 3) as usize),
        child_neighbour(faces, nbs, f, 3, prev_corner(c)) == Some((4 * f + c) as usize),
{
}

} // verus!

verus! {

proof fn lemma_edges_before_mono(faces: Seq<[usize; 3]>, a: int, b: int)
    requires
        0 <= a <= b,
    ensures
        edges_before(faces, a) <= edges_before(faces, b),
        a < b && first_seen(faces, a) ==> edges_before(faces, a) < edges_before(faces, b),
    decreases b - a,
{
    if a < b {
        lemma_edges_before_mono(faces, a, b - 1);
        if a == b - 1 {
        } else {
            lemma_edges_before_mono(faces, a + 1, b);
        }
    }
}

/// The new vertices are numbered from `n` on in the order in which their
/// edges are first met, one per distinct edge: two positions get the same
/// new vertex exactly when they hold the same edge, and an edge met first
/// earlier gets a smaller number.
pub proof fn lemma_edge_vertex_numbering(faces: Seq<[usize; 3]>, n: int, q: int, p: int)
    requires
        0 <= q,
        0 <= p,
    ensures
        n <= edge_vertex(faces, n, p) <= n + p,
        same_edge_at(faces, q, p) <==> edge_vertex(faces, n, q) == edge_vertex(faces, n, p),
        q < p && first_seen(faces, q) && first_seen(faces, p) ==> edge_vertex(faces, n, q) < edge_vertex(faces, n, p),
{
    lemma_first_match_bounds(faces, p, 0);
    lemma_first_match_bounds(faces, q, 0);
    let a = first_match(faces, q, 0);
    let b = first_match(faces, p, 0);
    assert(same_edge_at(faces, a, q));
    assert(same_edge_at(faces, b, p));
    assert(first_seen(faces, a)) by {
        assert forall|j: int| 0 <= j < a implies !same_edge_at(faces, j, a) by {
            assert(!same_edge_at(faces, j, q));
        }
    }
    assert(first_seen(faces, b)) by {
        assert forall|j: int| 0 <= j < b implies !same_edge_at(faces, j, b) by {
            assert(!same_edge_at(faces, j, p));
        }
    }
    lemma_edges_before_bound(faces, b);
    if same_edge_at(faces, q, p) {
        lemma_same_edge_same_vertex(faces, n, q, p);
    } else {
        assert(a != b);
        if a < b {
            lemma_edges_before_mono(faces, a, b);
        } else {
            lemma_edges_before_mono(faces, b, a);
        }
    }
    if q < p && first_seen(faces, q) && first_seen(faces, p) {
        lemma_first_match_of_first(faces, q, 0);
        lemma_first_match_of_first(faces, p, 0);
        lemma_edges_before_mono(faces, q, p);
    }
}

} // verus!
