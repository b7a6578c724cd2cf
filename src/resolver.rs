use vstd::prelude::*;

use crate::package::{names_of, PackageView};
use crate::registry::{lists_catalog, Registry};

verus! {

/// Why a resolution failed.
#[derive(Debug)]
pub enum ResolutionError {
    /// A name reached from the root that the registry does not hold.
    PackageNotFound(String),
    /// A chain of dependencies that starts and ends at the same package.
    CyclicDependency(Vec<String>),
}

/// `a` is stored and lists `b` among its direct dependencies.
pub open spec fn depends_on(g: Map<Seq<char>, PackageView>, a: Seq<char>, b: Seq<char>) -> bool {
    g.contains_key(a) && g[a].dependencies.contains(b)
}

/// `p` follows dependency edges: each name but the last is stored and lists the
/// next one.
pub open spec fn is_dep_path(g: Map<Seq<char>, PackageView>, p: Seq<Seq<char>>) -> bool {
    p.len() > 0 && forall|t: int| 0 <= t < p.len() - 1 ==> #[trigger] depends_on(g, p[t], p[t + 1])
}

/// `n` lies in the transitive closure of dependency edges from `root`.
pub open spec fn reachable(g: Map<Seq<char>, PackageView>, root: Seq<char>, n: Seq<char>) -> bool {
    exists|p: Seq<Seq<char>>| #[trigger] is_dep_path(g, p) && p[0] == root && p.last() == n
}

/// `p` is a chain of dependencies that returns to where it started.
pub open spec fn is_cycle(g: Map<Seq<char>, PackageView>, p: Seq<Seq<char>>) -> bool {
    is_dep_path(g, p) && p.len() >= 2 && p[0] == p.last()
}

/// Each name appears once, and every direct dependency of a listed package that
/// is listed too stands strictly earlier.
pub open spec fn is_install_order(g: Map<Seq<char>, PackageView>, order: Seq<Seq<char>>) -> bool {
    &&& order.no_duplicates()
    &&& forall|a: int, b: int|
        0 <= a < order.len() && 0 <= b < order.len() && #[trigger] depends_on(g, order[b], order[a])
            ==> a < b
}

/// `order` holds exactly the stored packages reachable from `root`.
pub open spec fn is_closure(g: Map<Seq<char>, PackageView>, root: Seq<char>, order: Seq<Seq<char>>) -> bool {
    &&& forall|n: Seq<char>| #[trigger] order.contains(n) <==> reachable(g, root, n)
    &&& forall|n: Seq<char>| #[trigger] order.contains(n) ==> g.contains_key(n)
}

/// What a failure of resolving `root` over `g` shows.
pub open spec fn explains_failure(g: Map<Seq<char>, PackageView>, root: Seq<char>, e: ResolutionError) -> bool {
    match e {
        ResolutionError::PackageNotFound(name) => (!g.contains_key(name@) && reachable(g, root, name@))
            || (root.len() == 0 && name@ == root),
        ResolutionError::CyclicDependency(path) => is_cycle(g, names_of(path@)) && reachable(
            g,
            root,
            names_of(path@)[0],
        ),
    }
}

/// Resolution state of one registry slot during a walk.
#[derive(PartialEq, Eq, Structural, Clone, Copy)]
enum Mark {
    Unvisited,
    InProgress,
    Resolved,
}

spec fn unvisited(m: Seq<Mark>) -> nat
    decreases m.len(),
{
    if m.len() == 0 {
        0
    } else {
        unvisited(m.drop_last()) + if m.last() == Mark::Unvisited {
            1nat
        } else {
            0nat
        }
    }
}

/// Marks only ever leave `Unvisited`.
spec fn keeps_marks(before: Seq<Mark>, after: Seq<Mark>) -> bool {
    after.len() == before.len() && forall|k: int|
        0 <= k < before.len() && before[k] != Mark::Unvisited ==> #[trigger] after[k] == before[k]
}

proof fn lemma_unvisited_shrinks(a: Seq<Mark>, b: Seq<Mark>, i: int)
    requires
        keeps_marks(a, b),
    ensures
        unvisited(b) <= unvisited(a),
        0 <= i < a.len() && a[i] == Mark::Unvisited && b[i] != Mark::Unvisited ==> unvisited(b)
            < unvisited(a),
    decreases a.len(),
{
    if a.len() > 0 {
        let n = a.len() - 1;
        assert(keeps_marks(a.drop_last(), b.drop_last()));
        lemma_unvisited_shrinks(a.drop_last(), b.drop_last(), i);
        assert(a.last() != Mark::Unvisited ==> b.last() == a.last()) by {
            if a.last() != Mark::Unvisited {
                assert(b[n] == a[n]);
            }
        }
    }
}

/// The state of a walk from `root`: `path` is the chain of packages in
/// progress, `order` the packages resolved so far, in install order.
spec fn walk_inv(
    g: Map<Seq<char>, PackageView>,
    s: Seq<PackageView>,
    root: Seq<char>,
    marks: Seq<Mark>,
    order: Seq<Seq<char>>,
    path: Seq<Seq<char>>,
) -> bool {
    &&& lists_catalog(s, g)
    &&& marks.len() == s.len()
    &&& path.no_duplicates()
    &&& order.no_duplicates()
    &&& forall|k: int|
        0 <= k < s.len() ==> (#[trigger] marks[k] == Mark::InProgress <==> path.contains(s[k].name))
    &&& forall|k: int|
        0 <= k < s.len() ==> (#[trigger] marks[k] == Mark::Resolved <==> order.contains(s[k].name))
    &&& forall|x: Seq<char>| #[trigger] path.contains(x) ==> g.contains_key(x)
    &&& forall|x: Seq<char>| #[trigger] order.contains(x) ==> g.contains_key(x)
    &&& path.len() > 0 ==> is_dep_path(g, path) && path[0] == root
    &&& forall|k: int|
        0 <= k < s.len() && #[trigger] marks[k] != Mark::Unvisited ==> reachable(g, root, s[k].name)
    &&& forall|b: int, d: Seq<char>|
        0 <= b < order.len() && #[trigger] g[order[b]].dependencies.contains(d) ==> order.contains(d)
    &&& is_install_order(g, order)
}

proof fn lemma_reach_step(g: Map<Seq<char>, PackageView>, root: Seq<char>, p: Seq<Seq<char>>, y: Seq<char>)
    requires
        is_dep_path(g, p),
        p[0] == root,
        depends_on(g, p.last(), y),
    ensures
        is_dep_path(g, p.push(y)),
        reachable(g, root, y),
{
    let q = p.push(y);
    assert forall|t: int| 0 <= t < q.len() - 1 implies #[trigger] depends_on(g, q[t], q[t + 1]) by {
        if t < p.len() - 1 {
            assert(depends_on(g, p[t], p[t + 1]));
        }
    }
    assert(q[0] == root && q.last() == y);
}

/// Moving slot `i` from `Unvisited` to `InProgress` and onto the path.
proof fn lemma_start(
    g: Map<Seq<char>, PackageView>,
    s: Seq<PackageView>,
    root: Seq<char>,
    marks: Seq<Mark>,
    order: Seq<Seq<char>>,
    path: Seq<Seq<char>>,
    i: int,
)
    requires
        walk_inv(g, s, root, marks, order, path),
        0 <= i < s.len(),
        marks[i] == Mark::Unvisited,
        if path.len() == 0 {
            s[i].name == root
        } else {
            depends_on(g, path.last(), s[i].name)
        },
    ensures
        walk_inv(g, s, root, marks.update(i, Mark::InProgress), order, path.push(s[i].name)),
{
    let m2 = marks.update(i, Mark::InProgress);
    let p2 = path.push(s[i].name);
    assert(!path.contains(s[i].name));
    assert(!order.contains(s[i].name));
    assert(g.contains_key(s[i].name));
    if path.len() == 0 {
        assert(is_dep_path(g, p2));
        assert(p2[0] == root && p2.last() == s[i].name);
    } else {
        lemma_reach_step(g, root, path, s[i].name);
    }
    assert(reachable(g, root, s[i].name));
    assert forall|k: int| 0 <= k < s.len() implies (#[trigger] m2[k] == Mark::InProgress
        <==> p2.contains(s[k].name)) by {
        if k != i {
            assert(s[k].name != s[i].name);
            if path.contains(s[k].name) {
                let t = choose|t: int| 0 <= t < path.len() && path[t] == s[k].name;
                assert(p2[t] == s[k].name);
            }
            if p2.contains(s[k].name) {
                let t = choose|t: int| 0 <= t < p2.len() && p2[t] == s[k].name;
                assert(path[t] == s[k].name);
            }
        } else {
            assert(p2[p2.len() - 1] == s[i].name);
        }
    }
    assert forall|x: Seq<char>| #[trigger] p2.contains(x) implies g.contains_key(x) by {
        let t = choose|t: int| 0 <= t < p2.len() && p2[t] == x;
        if t < path.len() {
            assert(path[t] == x);
            assert(path.contains(x));
        } else {
            assert(x == s[i].name);
        }
    }
    assert forall|k: int| 0 <= k < s.len() && #[trigger] m2[k] != Mark::Unvisited implies reachable(
        g,
        root,
        s[k].name,
    ) by {
        if k != i {
            assert(marks[k] != Mark::Unvisited);
        }
    }
}

/// Moving slot `i`, whose dependencies are all resolved, from `InProgress` to
/// `Resolved`: it leaves the path and joins the end of the order.
proof fn lemma_finish(
    g: Map<Seq<char>, PackageView>,
    s: Seq<PackageView>,
    root: Seq<char>,
    marks: Seq<Mark>,
    order: Seq<Seq<char>>,
    path: Seq<Seq<char>>,
    i: int,
)
    requires
        0 <= i < s.len(),
        walk_inv(g, s, root, marks, order, path.push(s[i].name)),
        marks[i] == Mark::InProgress,
        forall|d: Seq<char>| #[trigger] s[i].dependencies.contains(d) ==> order.contains(d),
    ensures
        walk_inv(g, s, root, marks.update(i, Mark::Resolved), order.push(s[i].name), path),
{
    let m2 = marks.update(i, Mark::Resolved);
    let o2 = order.push(s[i].name);
    let p1 = path.push(s[i].name);
    assert(g[s[i].name] == s[i]);
    assert(!order.contains(s[i].name));
    assert(p1[p1.len() - 1] == s[i].name);
    assert forall|a: int, b: int| 0 <= a < path.len() && 0 <= b < path.len() && a != b implies path[a]
        != path[b] by {
        assert(p1[a] == path[a] && p1[b] == path[b]);
    }
    assert(!path.contains(s[i].name)) by {
        if path.contains(s[i].name) {
            let t = choose|t: int| 0 <= t < path.len() && path[t] == s[i].name;
            assert(p1[t] == p1[p1.len() - 1]);
        }
    }
    assert forall|k: int| 0 <= k < s.len() implies (#[trigger] m2[k] == Mark::InProgress
        <==> path.contains(s[k].name)) by {
        if k != i {
            assert(s[k].name != s[i].name);
            if path.contains(s[k].name) {
                let t = choose|t: int| 0 <= t < path.len() && path[t] == s[k].name;
                assert(p1[t] == s[k].name);
            }
            if p1.contains(s[k].name) {
                let t = choose|t: int| 0 <= t < p1.len() && p1[t] == s[k].name;
                assert(path[t] == s[k].name);
            }
        }
    }
    assert forall|k: int| 0 <= k < s.len() implies (#[trigger] m2[k] == Mark::Resolved
        <==> o2.contains(s[k].name)) by {
        if k != i {
            assert(s[k].name != s[i].name);
            if order.contains(s[k].name) {
                let t = choose|t: int| 0 <= t < order.len() && order[t] == s[k].name;
                assert(o2[t] == s[k].name);
            }
            if o2.contains(s[k].name) {
                let t = choose|t: int| 0 <= t < o2.len() && o2[t] == s[k].name;
                assert(order[t] == s[k].name);
            }
        } else {
            assert(o2[o2.len() - 1] == s[i].name);
        }
    }
    assert forall|x: Seq<char>| #[trigger] path.contains(x) implies g.contains_key(x) by {
        let t = choose|t: int| 0 <= t < path.len() && path[t] == x;
        assert(p1[t] == x);
        assert(p1.contains(x));
    }
    assert forall|x: Seq<char>| #[trigger] o2.contains(x) implies g.contains_key(x) by {
        let t = choose|t: int| 0 <= t < o2.len() && o2[t] == x;
        if t < order.len() {
            assert(order[t] == x);
            assert(order.contains(x));
        } else {
            assert(x == s[i].name);
        }
    }
    if path.len() > 0 {
        assert forall|t: int| 0 <= t < path.len() - 1 implies #[trigger] depends_on(
            g,
            path[t],
            path[t + 1],
        ) by {
            assert(depends_on(g, p1[t], p1[t + 1]));
        }
        assert(p1[0] == path[0]);
    }
    assert forall|k: int| 0 <= k < s.len() && #[trigger] m2[k] != Mark::Unvisited implies reachable(
        g,
        root,
        s[k].name,
    ) by {
        if k != i {
            assert(marks[k] != Mark::Unvisited);
        } else {
            assert(marks[i] != Mark::Unvisited);
        }
    }
    assert forall|b: int, d: Seq<char>|
        0 <= b < o2.len() && #[trigger] g[o2[b]].dependencies.contains(d) implies o2.contains(d) by {
        if b < order.len() {
            assert(order[b] == o2[b]);
            assert(order.contains(d));
        } else {
            assert(s[i].dependencies.contains(d));
        }
        let t = choose|t: int| 0 <= t < order.len() && order[t] == d;
        assert(o2[t] == d);
    }
    assert forall|a: int, b: int|
        0 <= a < o2.len() && 0 <= b < o2.len() && #[trigger] depends_on(g, o2[b], o2[a]) implies a < b by {
        if b < order.len() {
            assert(order[b] == o2[b]);
            if a == order.len() {
                assert(order.contains(s[i].name));
            } else {
                assert(order[a] == o2[a]);
                assert(depends_on(g, order[b], order[a]));
            }
        } else {
            if a == b {
                assert(s[i].dependencies.contains(s[i].name));
            }
        }
    }
    assert forall|a: int, b: int| 0 <= a < o2.len() && 0 <= b < o2.len() && a != b implies o2[a]
        != o2[b] by {
        if a < order.len() && b < order.len() {
            assert(order[a] != order[b]);
        } else if a < order.len() {
            assert(order[a] == o2[a]);
        } else if b < order.len() {
            assert(order[b] == o2[b]);
        }
    }
}
proof fn lemma_cycle(
    g: Map<Seq<char>, PackageView>,
    root: Seq<char>,
    path: Seq<Seq<char>>,
    q: int,
    d: Seq<char>,
)
    requires
        is_dep_path(g, path),
        path[0] == root,
        0 <= q < path.len(),
        path[q] == d,
        depends_on(g, path.last(), d),
    ensures
        is_cycle(g, path.subrange(q, path.len() as int).push(d)),
        reachable(g, root, d),
{
    let tail = path.subrange(q, path.len() as int);
    let c = tail.push(d);
    assert forall|t: int| 0 <= t < c.len() - 1 implies #[trigger] depends_on(g, c[t], c[t + 1]) by {
        if t < tail.len() - 1 {
            assert(depends_on(g, path[q + t], path[q + t + 1]));
        }
    }
    assert(c[0] == d && c.last() == d);
    let head = path.subrange(0, q + 1);
    assert forall|t: int| 0 <= t < head.len() - 1 implies #[trigger] depends_on(g, head[t], head[t + 1]) by {
        assert(depends_on(g, path[t], path[t + 1]));
    }
    assert(is_dep_path(g, head) && head[0] == root && head.last() == d);
}

/// A set of stored names that holds `root` and is closed under dependency edges
/// holds the end of every dependency path from `root`.
proof fn lemma_closed_holds_reach(
    g: Map<Seq<char>, PackageView>,
    root: Seq<char>,
    order: Seq<Seq<char>>,
    p: Seq<Seq<char>>,
)
    requires
        order.contains(root),
        forall|b: int, d: Seq<char>|
            0 <= b < order.len() && #[trigger] g[order[b]].dependencies.contains(d) ==> order.contains(d),
        is_dep_path(g, p),
        p[0] == root,
    ensures
        order.contains(p.last()),
    decreases p.len(),
{
    if p.len() > 1 {
        let q = p.drop_last();
        assert forall|t: int| 0 <= t < q.len() - 1 implies #[trigger] depends_on(g, q[t], q[t + 1]) by {
            assert(depends_on(g, p[t], p[t + 1]));
        }
        lemma_closed_holds_reach(g, root, order, q);
        let t = p.len() - 2;
        assert(depends_on(g, p[t], p[t + 1]));
        let b = choose|b: int| 0 <= b < order.len() && order[b] == q.last();
        assert(g[order[b]].dependencies.contains(p.last()));
    }
}

/// The part of `stack` from the first occurrence of `d` on, followed by `d`.
fn cycle_from(stack: &Vec<String>, d: &String) -> (r: Vec<String>)
    requires
        names_of(stack@).contains(d@),
    ensures
        exists|q: int|
            0 <= q < stack@.len() && names_of(stack@)[q] == d@ && names_of(r@) == names_of(
                stack@,
            ).subrange(q, stack@.len() as int).push(d@),
{
    let ghost path = names_of(stack@);
    let mut q: usize = 0;
    while q < stack.len() && stack[q] != *d
        invariant
            q <= stack@.len(),
            path == names_of(stack@),
            forall|t: int| 0 <= t < q ==> path[t] != d@,
            path.contains(d@),
        decreases stack@.len() - q,
    {
        q = q + 1;
    }
    proof {
        if q == stack@.len() {
            let t = choose|t: int| 0 <= t < path.len() && path[t] == d@;
            assert(path[t] != d@);
        }
    }
    let mut r: Vec<String> = Vec::new();
    let mut t: usize = q;
    while t < stack.len()
        invariant
            q <= t <= stack@.len(),
            path == names_of(stack@),
            path[q as int] == d@,
            r@.len() == t - q,
            forall|k: int| 0 <= k < t - q ==> #[trigger] r@[k]@ == path[q + k],
        decreases stack@.len() - t,
    {
        r.push(stack[t].clone());
        t = t + 1;
    }
    r.push(d.clone());
    assert(names_of(r@) =~= path.subrange(q as int, stack@.len() as int).push(d@));
    r
}
/// Depth-first walk from slot `i`: its dependencies are resolved first, then it
/// is appended to `order`. `stack` holds the chain of packages in progress.
fn visit(
    reg: &Registry,
    i: usize,
    marks: &mut Vec<Mark>,
    order: &mut Vec<String>,
    stack: &mut Vec<String>,
    Ghost(root): Ghost<Seq<char>>,
) -> (r: Result<(), ResolutionError>)
    requires
        reg.wf(),
        walk_inv(reg@, reg.slots(), root, old(marks)@, names_of(old(order)@), names_of(old(stack)@)),
        i < reg.slots().len(),
        old(marks)@[i as int] == Mark::Unvisited,
        if old(stack)@.len() == 0 {
            reg.slots()[i as int].name == root
        } else {
            depends_on(reg@, names_of(old(stack)@).last(), reg.slots()[i as int].name)
        },
    ensures
        match r {
            Ok(()) => {
                &&& walk_inv(
                    reg@,
                    reg.slots(),
                    root,
                    final(marks)@,
                    names_of(final(order)@),
                    names_of(final(stack)@),
                )
                &&& names_of(final(stack)@) == names_of(old(stack)@)
                &&& keeps_marks(old(marks)@, final(marks)@)
                &&& final(marks)@[i as int] == Mark::Resolved
            },
            Err(e) => explains_failure(reg@, root, e),
        },
    decreases unvisited(old(marks)@),
{
    let ghost g = reg@;
    let ghost s = reg.slots();
    let ghost path0 = names_of(stack@);
    let ghost marks_in = marks@;
    proof {
        lemma_start(g, s, root, marks@, names_of(order@), path0, i as int);
    }
    marks[i] = Mark::InProgress;
    let p = reg.entry(i);
    stack.push(p.name.clone());
    assert(names_of(stack@) =~= path0.push(s[i as int].name));
    let ghost marks0 = marks@;
    proof {
        lemma_unvisited_shrinks(marks_in, marks0, i as int);
    }
    let deps = &p.dependencies;
    let mut j: usize = 0;
    while j < deps.len()
        invariant
            reg.wf(),
            g == reg@,
            s == reg.slots(),
            i < s.len(),
            names_of(deps@) == s[i as int].dependencies,
            p.name@ == s[i as int].name,
            j <= deps@.len(),
            walk_inv(g, s, root, marks@, names_of(order@), names_of(stack@)),
            names_of(stack@) == path0.push(s[i as int].name),
            keeps_marks(marks0, marks@),
            marks0[i as int] == Mark::InProgress,
            unvisited(marks@) < unvisited(marks_in),
            marks_in == old(marks)@,
            forall|jj: int| 0 <= jj < j ==> #[trigger] names_of(order@).contains(deps@[jj]@),
        decreases deps@.len() - j,
    {
        let d = &deps[j];
        let ghost path = names_of(stack@);
        assert(g.contains_key(s[i as int].name));
        assert(g[s[i as int].name] == s[i as int]);
        assert(names_of(deps@)[j as int] == d@);
        assert(depends_on(g, path.last(), d@));
        match reg.find(d) {
            None => {
                proof {
                    lemma_reach_step(g, root, path, d@);
                }
                return Err(ResolutionError::PackageNotFound(d.clone()));
            },
            Some(k) => {
                match marks[k] {
                    Mark::Resolved => {},
                    Mark::InProgress => {
                        let cyc = cycle_from(stack, d);
                        proof {
                            let q = choose|q: int|
                                0 <= q < stack@.len() && names_of(stack@)[q] == d@ && names_of(cyc@)
                                    == names_of(stack@).subrange(q, stack@.len() as int).push(d@);
                            lemma_cycle(g, root, path, q, d@);
                        }
                        return Err(ResolutionError::CyclicDependency(cyc));
                    },
                    Mark::Unvisited => {
                        let ghost before = marks@;
                        let ghost order_before = names_of(order@);
                        match visit(reg, k, marks, order, stack, Ghost(root)) {
                            Err(e) => {
                                return Err(e);
                            },
                            Ok(()) => {
                                proof {
                                    lemma_unvisited_shrinks(before, marks@, 0);
                                    assert forall|jj: int| 0 <= jj < j implies #[trigger] names_of(
                                        order@,
                                    ).contains(deps@[jj]@) by {
                                        let x = deps@[jj]@;
                                        assert(order_before.contains(x));
                                        let t = choose|t: int| 0 <= t < s.len() && s[t].name == x;
                                        assert(before[t] == Mark::Resolved);
                                        assert(marks@[t] == Mark::Resolved);
                                    }
                                }
                            },
                        }
                    },
                }
                assert(marks@[k as int] == Mark::Resolved);
                assert(names_of(order@).contains(d@));
            },
        }
        j = j + 1;
    }
    proof {
        assert forall|x: Seq<char>| #[trigger] s[i as int].dependencies.contains(x) implies names_of(
            order@,
        ).contains(x) by {
            let jj = choose|jj: int| 0 <= jj < deps@.len() && names_of(deps@)[jj] == x;
            assert(names_of(order@).contains(deps@[jj]@));
        }
        lemma_finish(g, s, root, marks@, names_of(order@), path0, i as int);
    }
    let ghost order_before = order@;
    let ghost stack_before = stack@;
    marks[i] = Mark::Resolved;
    order.push(p.name.clone());
    stack.pop();
    assert(names_of(order@) =~= names_of(order_before).push(s[i as int].name));
    assert(stack@ =~= stack_before.drop_last());
    assert(names_of(stack@) =~= names_of(stack_before).drop_last());
    assert(names_of(stack@) =~= path0);
    Ok(())
}
/// All packages that `root_name` needs, each once, in an order in which every
/// package comes after its own dependencies.
///
/// Fails with `PackageNotFound` for an empty root or a reachable name that the
/// registry does not hold, and with `CyclicDependency` for a chain of
/// dependencies, reachable from the root, that comes back to its start.
pub fn resolve(registry: &Registry, root_name: &String) -> (r: Result<Vec<String>, ResolutionError>)
    requires
        registry.wf(),
    ensures
        match r {
            Ok(order) => {
                &&& root_name@.len() > 0
                &&& is_install_order(registry@, names_of(order@))
                &&& is_closure(registry@, root_name@, names_of(order@))
            },
            Err(e) => explains_failure(registry@, root_name@, e),
        },
{
    let ghost g = registry@;
    let ghost s = registry.slots();
    let ghost root = root_name@;
    if root_name.as_str().is_empty() {
        return Err(ResolutionError::PackageNotFound(root_name.clone()));
    }
    let i = match registry.find(root_name) {
        Some(i) => i,
        None => {
            assert(is_dep_path(g, seq![root]));
            assert(seq![root][0] == root && seq![root].last() == root);
            return Err(ResolutionError::PackageNotFound(root_name.clone()));
        },
    };
    let mut marks: Vec<Mark> = Vec::new();
    let mut n: usize = 0;
    while n < registry.len()
        invariant
            n <= s.len(),
            s == registry.slots(),
            marks@.len() == n,
            forall|k: int| 0 <= k < n ==> #[trigger] marks@[k] == Mark::Unvisited,
        decreases s.len() - n,
    {
        marks.push(Mark::Unvisited);
        n = n + 1;
    }
    let mut order: Vec<String> = Vec::new();
    let mut stack: Vec<String> = Vec::new();
    assert(names_of(order@) =~= Seq::<Seq<char>>::empty());
    assert(names_of(stack@) =~= Seq::<Seq<char>>::empty());
    visit(registry, i, &mut marks, &mut order, &mut stack, Ghost(root))?;
    proof {
        let o = names_of(order@);
        assert(o.contains(root)) by {
            assert(marks@[i as int] == Mark::Resolved);
        }
        assert forall|x: Seq<char>| #[trigger] o.contains(x) <==> reachable(g, root, x) by {
            if o.contains(x) {
                assert(g.contains_key(x));
                let k = choose|k: int| 0 <= k < s.len() && s[k].name == x;
                assert(marks@[k] == Mark::Resolved);
            }
            if reachable(g, root, x) {
                let p = choose|p: Seq<Seq<char>>| #[trigger] is_dep_path(g, p) && p[0] == root && p.last() == x;
                lemma_closed_holds_reach(g, root, o, p);
            }
        }
    }
    Ok(order)
}
/// Along a dependency path inside a closed install order, each step moves to a
/// strictly earlier position.
proof fn lemma_descend(
    g: Map<Seq<char>, PackageView>,
    root: Seq<char>,
    order: Seq<Seq<char>>,
    p: Seq<Seq<char>>,
    b0: int,
    t: int,
) -> (a: int)
    requires
        is_install_order(g, order),
        is_closure(g, root, order),
        is_dep_path(g, p),
        0 <= b0 < order.len(),
        order[b0] == p[0],
        0 <= t < p.len(),
    ensures
        0 <= a < order.len(),
        order[a] == p[t],
        a + t <= b0,
    decreases t,
{
    if t == 0 {
        b0
    } else {
        let a1 = lemma_descend(g, root, order, p, b0, t - 1);
        let u = t - 1;
        assert(depends_on(g, p[u], p[u + 1]));
        assert(order.contains(p[t - 1]));
        let w = choose|w: Seq<Seq<char>>| #[trigger] is_dep_path(g, w) && w[0] == root && w.last() == p[t - 1];
        lemma_reach_step(g, root, w, p[t]);
        assert(order.contains(p[t]));
        let a = choose|a: int| 0 <= a < order.len() && order[a] == p[t];
        assert(depends_on(g, order[a1], order[a]));
        a
    }
}

/// A result that is an install order and exactly the closure from `root` leaves
/// no room for a cycle reachable from `root`: resolution succeeds only on
/// acyclic, complete dependency graphs.
pub proof fn lemma_resolved_has_no_cycle(
    g: Map<Seq<char>, PackageView>,
    root: Seq<char>,
    order: Seq<Seq<char>>,
    p: Seq<Seq<char>>,
)
    requires
        is_install_order(g, order),
        is_closure(g, root, order),
    ensures
        !(is_cycle(g, p) && reachable(g, root, p[0])),
        forall|n: Seq<char>| reachable(g, root, n) ==> #[trigger] g.contains_key(n),
{
    if is_cycle(g, p) && reachable(g, root, p[0]) {
        assert(order.contains(p[0]));
        let b0 = choose|b: int| 0 <= b < order.len() && order[b] == p[0];
        let a = lemma_descend(g, root, order, p, b0, p.len() - 1);
        assert(order[a] == order[b0]);
    }
    assert forall|n: Seq<char>| reachable(g, root, n) implies #[trigger] g.contains_key(n) by {
        assert(order.contains(n));
    }
}
/// When the root is named, every package reachable from it is stored, and no
/// cycle is reachable from it, no failure fits: `resolve` then returns `Ok`,
/// and by its contract exactly the reachable packages, in install order.
pub proof fn lemma_complete_acyclic_resolves(
    g: Map<Seq<char>, PackageView>,
    root: Seq<char>,
    e: ResolutionError,
)
    requires
        root.len() > 0,
        forall|n: Seq<char>| reachable(g, root, n) ==> #[trigger] g.contains_key(n),
        forall|p: Seq<Seq<char>>| #[trigger] is_cycle(g, p) ==> !reachable(g, root, p[0]),
    ensures
        !explains_failure(g, root, e),
{
    match e {
        ResolutionError::PackageNotFound(name) => {
            if reachable(g, root, name@) {
                assert(g.contains_key(name@));
            }
        },
        ResolutionError::CyclicDependency(path) => {
            if is_cycle(g, names_of(path@)) {
                assert(!reachable(g, root, names_of(path@)[0]));
            }
        },
    }
}
} // verus!
