//! The branch tree: which branch hangs under which, and the order in which
//! the branches are listed.
//!
//! A branch is identified by its index in the list of declared branches. A
//! name that is declared more than once stands for one branch, the first
//! declaration; the default branch is the root and is not listed.

use vstd::prelude::*;
use crate::data::Branch;
use crate::names::{name_before, same_name, sorts_before};

verus! {

/// Where a declared branch hangs in the tree.
#[derive(PartialEq, Eq, Structural, Clone, Copy, Debug)]
pub enum Link {
    /// Not a branch of its own: it carries the default branch's name, or
    /// repeats an earlier declaration.
    Skip,
    /// Directly under the default branch.
    Root,
    /// Under the branch declared at this index.
    Under(usize),
}

/// One entry of the traversal: a branch and how far below the default
/// branch's children it hangs (0 for a child of the default branch).
#[derive(PartialEq, Eq, Structural, Clone, Copy, Debug)]
pub struct Visit {
    pub branch: usize,
    pub depth: usize,
}

pub open spec fn declared(branches: Seq<Branch>, name: Seq<char>) -> bool {
    exists|i: int| 0 <= i < branches.len() && (#[trigger] branches[i]).name@ == name
}

/// `i` is the first declaration of `name`.
pub open spec fn is_first_named(branches: Seq<Branch>, name: Seq<char>, i: int) -> bool {
    &&& 0 <= i < branches.len()
    &&& branches[i].name@ == name
    &&& forall|j: int| 0 <= j < i ==> (#[trigger] branches[j]).name@ != name
}

/// The index of the first declaration of a declared name.
pub open spec fn first_named(branches: Seq<Branch>, name: Seq<char>) -> int {
    choose|i: int| is_first_named(branches, name, i)
}

pub proof fn lemma_first_named(branches: Seq<Branch>, name: Seq<char>, i: int)
    requires
        is_first_named(branches, name, i),
    ensures
        first_named(branches, name) == i,
        declared(branches, name),
{
    let c = first_named(branches, name);
    assert(is_first_named(branches, name, c));
    if c < i {
        assert(branches[c].name@ != name);
    } else if i < c {
        assert(branches[i].name@ != name);
    }
}

/// The link of the branch declared at `i`. A parent counts only if it is
/// declared and is not the default branch; it is then the first declaration
/// of its name.
pub open spec fn link_of(branches: Seq<Branch>, default: Seq<char>, i: int) -> Link {
    let b = branches[i];
    if b.name@ == default || !is_first_named(branches, b.name@, i) {
        Link::Skip
    } else {
        match b.parent_branch {
            None => Link::Root,
            Some(p) => if p@ == default || !declared(branches, p@) {
                Link::Root
            } else {
                Link::Under(first_named(branches, p@) as usize)
            },
        }
    }
}

pub open spec fn link_table(branches: Seq<Branch>, default: Seq<char>) -> Seq<Link> {
    Seq::new(branches.len(), |i: int| link_of(branches, default, i))
}

/// `s` with `x` put in after the last element whose name does not come after
/// the name of `x`.
pub open spec fn insert_by_name(branches: Seq<Branch>, s: Seq<usize>, x: usize) -> Seq<usize>
    decreases s.len(),
{
    if s.len() > 0 && name_before(branches[x as int].name@, branches[s.last() as int].name@) {
        insert_by_name(branches, s.drop_last(), x).push(s.last())
    } else {
        s.push(x)
    }
}

/// The branches among the first `k` declarations, in alphabetical order.
pub open spec fn nodes_by_name(branches: Seq<Branch>, default: Seq<char>, k: nat) -> Seq<usize>
    decreases k,
{
    if k == 0 {
        Seq::empty()
    } else {
        let rest = nodes_by_name(branches, default, (k - 1) as nat);
        if link_of(branches, default, k - 1) == Link::Skip {
            rest
        } else {
            insert_by_name(branches, rest, (k - 1) as usize)
        }
    }
}

/// Depth-first walk: of the first `upto` entries of `sorted`, those that hang
/// at `target`, each followed by what hangs under it. `fuel` bounds how deep
/// the walk goes.
pub open spec fn walk(
    links: Seq<Link>,
    sorted: Seq<usize>,
    target: Link,
    upto: nat,
    depth: nat,
    fuel: nat,
) -> Seq<Visit>
    decreases fuel, upto,
{
    if upto == 0 || upto > sorted.len() {
        Seq::empty()
    } else {
        let before = walk(links, sorted, target, (upto - 1) as nat, depth, fuel);
        let e = sorted[upto - 1];
        if links[e as int] == target {
            let below = if fuel == 0 {
                Seq::empty()
            } else {
                walk(links, sorted, Link::Under(e), sorted.len(), depth + 1, (fuel - 1) as nat)
            };
            before.push(Visit { branch: e, depth: depth as usize }) + below
        } else {
            before
        }
    }
}

/// All branches that hang, directly or not, under the default branch:
/// depth first, a parent before its children, siblings in alphabetical order.
pub open spec fn traversal(branches: Seq<Branch>, default: Seq<char>) -> Seq<Visit> {
    let sorted = nodes_by_name(branches, default, branches.len());
    walk(link_table(branches, default), sorted, Link::Root, sorted.len(), 0, branches.len())
}

/// The first declaration of `name`, if it is declared.
pub fn find_branch(branches: &Vec<Branch>, name: &String) -> (found: Option<usize>)
    ensures
        match found {
            Some(i) => is_first_named(branches@, name@, i as int),
            None => !declared(branches@, name@),
        },
{
    let mut i: usize = 0;
    while i < branches.len()
        invariant
            i <= branches.len(),
            forall|j: int| 0 <= j < i ==> (#[trigger] branches@[j]).name@ != name@,
        decreases branches.len() - i,
    {
        if same_name(&branches[i].name, name) {
            return Some(i);
        }
        i += 1;
    }
    None
}

/// The link of the branch declared at `i`.
pub fn link_at(branches: &Vec<Branch>, default_branch: &String, i: usize) -> (link: Link)
    requires
        i < branches.len(),
    ensures
        link == link_of(branches@, default_branch@, i as int),
{
    let b = &branches[i];
    if same_name(&b.name, default_branch) {
        return Link::Skip;
    }
    let first = find_branch(branches, &b.name);
    proof {
        if first is Some {
            lemma_first_named(branches@, b.name@, first->0 as int);
        }
        if is_first_named(branches@, b.name@, i as int) {
            lemma_first_named(branches@, b.name@, i as int);
        }
    }
    match first {
        Some(f) => {
            if f != i {
                return Link::Skip;
            }
        },
        None => {
            return Link::Skip;
        },
    }
    match &b.parent_branch {
        None => Link::Root,
        Some(p) => {
            if same_name(p, default_branch) {
                Link::Root
            } else {
                match find_branch(branches, p) {
                    Some(j) => {
                        proof {
                            lemma_first_named(branches@, p@, j as int);
                        }
                        Link::Under(j)
                    },
                    None => Link::Root,
                }
            }
        },
    }
}

fn insert_sorted(branches: &Vec<Branch>, sorted: &mut Vec<usize>, x: usize)
    requires
        x < branches.len(),
        forall|k: int| 0 <= k < old(sorted)@.len() ==> (#[trigger] old(sorted)@[k]) < branches.len(),
    ensures
        final(sorted)@ == insert_by_name(branches@, old(sorted)@, x),
        forall|k: int| 0 <= k < final(sorted)@.len() ==> (#[trigger] final(sorted)@[k]) < branches.len(),
{
    let mut p: usize = sorted.len();
    proof {
        assert(sorted@.take(p as int) =~= sorted@);
        assert(sorted@.skip(p as int) =~= Seq::<usize>::empty());
    }
    while p > 0 && sorts_before(&branches[x].name, &branches[sorted[p - 1]].name)
        invariant
            p <= sorted@.len(),
            x < branches.len(),
            sorted@ == old(sorted)@,
            forall|k: int| 0 <= k < sorted@.len() ==> (#[trigger] sorted@[k]) < branches.len(),
            insert_by_name(branches@, sorted@, x) == insert_by_name(
                branches@,
                sorted@.take(p as int),
                x,
            ) + sorted@.skip(p as int),
        decreases p,
    {
        proof {
            let s = sorted@.take(p as int);
            assert(s.last() == sorted@[p - 1]);
            assert(s.drop_last() =~= sorted@.take(p - 1));
            assert(seq![sorted@[p - 1]] + sorted@.skip(p as int) =~= sorted@.skip(p - 1));
            assert(insert_by_name(branches@, s, x) == insert_by_name(
                branches@,
                s.drop_last(),
                x,
            ).push(s.last()));
            assert(insert_by_name(branches@, s.drop_last(), x).push(s.last()) + sorted@.skip(
                p as int,
            ) =~= insert_by_name(branches@, s.drop_last(), x) + sorted@.skip(p - 1));
        }
        p -= 1;
    }
    proof {
        let s = sorted@.take(p as int);
        if p > 0 {
            assert(s.last() == sorted@[p - 1]);
        }
        assert(insert_by_name(branches@, s, x) == s.push(x));
        assert(s.push(x) + sorted@.skip(p as int) =~= sorted@.insert(p as int, x));
    }
    sorted.insert(p, x);
}

fn visit(
    links: &Vec<Link>,
    sorted: &Vec<usize>,
    target: Link,
    depth: usize,
    fuel: usize,
    out: &mut Vec<Visit>,
)
    requires
        forall|k: int| 0 <= k < sorted@.len() ==> (#[trigger] sorted@[k]) < links@.len(),
        forall|k: int| 0 <= k < old(out)@.len() ==> (#[trigger] old(out)@[k]).branch < links@.len(),
        depth + fuel <= usize::MAX,
    ensures
        final(out)@ == old(out)@ + walk(
            links@,
            sorted@,
            target,
            sorted@.len(),
            depth as nat,
            fuel as nat,
        ),
        forall|k: int| 0 <= k < final(out)@.len() ==> (#[trigger] final(out)@[k]).branch < links@.len(),
    decreases fuel,
{
    let mut k: usize = 0;
    while k < sorted.len()
        invariant
            k <= sorted@.len(),
            forall|j: int| 0 <= j < sorted@.len() ==> (#[trigger] sorted@[j]) < links@.len(),
            forall|j: int| 0 <= j < out@.len() ==> (#[trigger] out@[j]).branch < links@.len(),
            depth + fuel <= usize::MAX,
            out@ == old(out)@ + walk(links@, sorted@, target, k as nat, depth as nat, fuel as nat),
        decreases sorted@.len() - k,
    {
        let e: usize = sorted[k];
        let ghost before = walk(links@, sorted@, target, k as nat, depth as nat, fuel as nat);
        if links[e] == target {
            out.push(Visit { branch: e, depth });
            if fuel > 0 {
                visit(links, sorted, Link::Under(e), depth + 1, fuel - 1, out);
            }
            proof {
                let below = if fuel == 0 {
                    Seq::<Visit>::empty()
                } else {
                    walk(
                        links@,
                        sorted@,
                        Link::Under(e),
                        sorted@.len(),
                        (depth + 1) as nat,
                        (fuel - 1) as nat,
                    )
                };
                assert(out@ =~= old(out)@ + (before.push(Visit { branch: e, depth }) + below));
            }
        }
        k += 1;
    }
}

/// The tree of the declared branches under the default branch.
#[derive(Clone, Debug)]
pub struct BranchTree {
    /// For each declared branch, where it hangs.
    pub links: Vec<Link>,
    /// The listed branches in traversal order.
    pub order: Vec<Visit>,
}

/// Builds the tree of `branches` under the branch named `default_branch`.
pub fn build_branch_tree(branches: &Vec<Branch>, default_branch: &String) -> (tree: BranchTree)
    ensures
        tree.links@ == link_table(branches@, default_branch@),
        tree.order@ == traversal(branches@, default_branch@),
        forall|k: int| 0 <= k < tree.order@.len() ==> (#[trigger] tree.order@[k]).branch < branches@.len(),
{
    let n: usize = branches.len();
    let mut links: Vec<Link> = Vec::new();
    let mut sorted: Vec<usize> = Vec::new();
    let mut i: usize = 0;
    while i < n
        invariant
            i <= n,
            n == branches@.len(),
            links@.len() == i,
            forall|j: int| 0 <= j < i ==> links@[j] == link_of(branches@, default_branch@, j),
            sorted@ == nodes_by_name(branches@, default_branch@, i as nat),
            forall|k: int| 0 <= k < sorted@.len() ==> (#[trigger] sorted@[k]) < n,
        decreases n - i,
    {
        let link = link_at(branches, default_branch, i);
        links.push(link);
        if link != Link::Skip {
            insert_sorted(branches, &mut sorted, i);
        }
        i += 1;
    }
    assert(links@ =~= link_table(branches@, default_branch@));
    let mut order: Vec<Visit> = Vec::new();
    visit(&links, &sorted, Link::Root, 0, n, &mut order);
    BranchTree { links, order }
}

/// Whether entry `k` of a walk started at `target`, `depth` hangs where the
/// walk says: at `target` itself with the walk's depth, or one level under an
/// earlier entry that is its parent.
pub open spec fn hangs_in(links: Seq<Link>, w: Seq<Visit>, target: Link, depth: nat, k: int) -> bool {
    ||| links[w[k].branch as int] == target && w[k].depth == depth
    ||| exists|j: int|
        0 <= j < k && links[w[k].branch as int] == Link::Under((#[trigger] w[j]).branch)
            && w[k].depth == w[j].depth + 1
}

/// In a walk every entry hangs at the walk's target or under an earlier
/// entry, one level deeper than that entry.
proof fn lemma_walk_parent_first(
    links: Seq<Link>,
    sorted: Seq<usize>,
    target: Link,
    upto: nat,
    depth: nat,
    fuel: nat,
)
    requires
        forall|k: int| 0 <= k < sorted.len() ==> (#[trigger] sorted[k]) < links.len(),
        depth + fuel <= usize::MAX,
    ensures
        forall|k: int|
            0 <= k < walk(links, sorted, target, upto, depth, fuel).len() ==> hangs_in(
                links,
                walk(links, sorted, target, upto, depth, fuel),
                target,
                depth,
                k,
            ),
    decreases fuel, upto,
{
    let w = walk(links, sorted, target, upto, depth, fuel);
    if upto == 0 || upto > sorted.len() {
    } else {
        let before = walk(links, sorted, target, (upto - 1) as nat, depth, fuel);
        lemma_walk_parent_first(links, sorted, target, (upto - 1) as nat, depth, fuel);
        let e = sorted[upto - 1];
        if links[e as int] == target {
            let below = if fuel == 0 {
                Seq::<Visit>::empty()
            } else {
                walk(links, sorted, Link::Under(e), sorted.len(), depth + 1, (fuel - 1) as nat)
            };
            if fuel > 0 {
                lemma_walk_parent_first(
                    links,
                    sorted,
                    Link::Under(e),
                    sorted.len(),
                    depth + 1,
                    (fuel - 1) as nat,
                );
            }
            let here = Visit { branch: e, depth: depth as usize };
            assert(w == before.push(here) + below);
            assert forall|k: int| 0 <= k < w.len() implies hangs_in(links, w, target, depth, k) by {
                if k < before.len() {
                    assert(w[k] == before[k]);
                    assert(hangs_in(links, before, target, depth, k));
                    if !(links[w[k].branch as int] == target && w[k].depth == depth) {
                        let j = choose|j: int|
                            0 <= j < k && links[before[k].branch as int] == Link::Under(
                                (#[trigger] before[j]).branch,
                            ) && before[k].depth == before[j].depth + 1;
                        assert(w[j] == before[j]);
                    }
                } else if k == before.len() {
                    assert(w[k] == here);
                } else {
                    let kk = k - before.len() - 1;
                    assert(w[k] == below[kk]);
                    assert(hangs_in(links, below, Link::Under(e), depth + 1, kk));
                    if links[below[kk].branch as int] == Link::Under(e) && below[kk].depth == depth
                        + 1 {
                        assert(w[before.len() as int] == here);
                    } else {
                        let j = choose|j: int|
                            0 <= j < kk && links[below[kk].branch as int] == Link::Under(
                                (#[trigger] below[j]).branch,
                            ) && below[kk].depth == below[j].depth + 1;
                        assert(w[j + before.len() + 1] == below[j]);
                    }
                }
            }
        }
    }
}

/// Every listed branch hangs directly under the default branch, at depth 0,
/// or under a branch listed before it, one level deeper than that branch.
pub proof fn lemma_traversal_parent_first(branches: Seq<Branch>, default: Seq<char>, k: int)
    requires
        branches.len() <= usize::MAX,
        0 <= k < traversal(branches, default).len(),
    ensures
        hangs_in(
            link_table(branches, default),
            traversal(branches, default),
            Link::Root,
            0,
            k,
        ),
{
    let sorted = nodes_by_name(branches, default, branches.len());
    lemma_nodes_in_range(branches, default, branches.len());
    lemma_walk_parent_first(
        link_table(branches, default),
        sorted,
        Link::Root,
        sorted.len(),
        0,
        branches.len(),
    );
}

/// A walk lists only what the alphabetical list holds.
proof fn lemma_walk_in_range(
    links: Seq<Link>,
    sorted: Seq<usize>,
    target: Link,
    upto: nat,
    depth: nat,
    fuel: nat,
)
    requires
        forall|k: int| 0 <= k < sorted.len() ==> (#[trigger] sorted[k]) < links.len(),
    ensures
        forall|k: int|
            0 <= k < walk(links, sorted, target, upto, depth, fuel).len() ==> (#[trigger] walk(
                links,
                sorted,
                target,
                upto,
                depth,
                fuel,
            )[k]).branch < links.len(),
    decreases fuel, upto,
{
    let w = walk(links, sorted, target, upto, depth, fuel);
    if upto == 0 || upto > sorted.len() {
    } else {
        let before = walk(links, sorted, target, (upto - 1) as nat, depth, fuel);
        lemma_walk_in_range(links, sorted, target, (upto - 1) as nat, depth, fuel);
        let e = sorted[upto - 1];
        if links[e as int] == target {
            let below = if fuel == 0 {
                Seq::<Visit>::empty()
            } else {
                walk(links, sorted, Link::Under(e), sorted.len(), depth + 1, (fuel - 1) as nat)
            };
            if fuel > 0 {
                lemma_walk_in_range(
                    links,
                    sorted,
                    Link::Under(e),
                    sorted.len(),
                    depth + 1,
                    (fuel - 1) as nat,
                );
            }
            assert(w == before.push(Visit { branch: e, depth: depth as usize }) + below);
            assert forall|k: int| 0 <= k < w.len() implies (#[trigger] w[k]).branch
                < links.len() by {
                if k < before.len() {
                    assert(w[k] == before[k]);
                } else if k > before.len() {
                    assert(w[k] == below[k - before.len() - 1]);
                }
            }
        }
    }
}

/// A listed branch is a declared branch of its own: the first declaration
/// of its name, which is not the default branch's.
pub proof fn lemma_traversal_names(branches: Seq<Branch>, default: Seq<char>, k: int)
    requires
        branches.len() <= usize::MAX,
        0 <= k < traversal(branches, default).len(),
    ensures
        traversal(branches, default)[k].branch < branches.len(),
        link_of(branches, default, traversal(branches, default)[k].branch as int) != Link::Skip,
        branches[traversal(branches, default)[k].branch as int].name@ != default,
        is_first_named(
            branches,
            branches[traversal(branches, default)[k].branch as int].name@,
            traversal(branches, default)[k].branch as int,
        ),
{
    let sorted = nodes_by_name(branches, default, branches.len());
    let links = link_table(branches, default);
    lemma_nodes_in_range(branches, default, branches.len());
    lemma_walk_in_range(links, sorted, Link::Root, sorted.len(), 0, branches.len());
    lemma_traversal_parent_first(branches, default, k);
    let w = traversal(branches, default);
    assert(w[k].branch < links.len());
    assert(links[w[k].branch as int] == link_of(branches, default, w[k].branch as int));
}

proof fn lemma_insert_in_range(branches: Seq<Branch>, s: Seq<usize>, x: usize, bound: nat)
    requires
        x < bound,
        forall|i: int| 0 <= i < s.len() ==> (#[trigger] s[i]) < bound,
    ensures
        insert_by_name(branches, s, x).len() == s.len() + 1,
        forall|i: int|
            0 <= i < insert_by_name(branches, s, x).len() ==> (#[trigger] insert_by_name(
                branches,
                s,
                x,
            )[i]) < bound,
    decreases s.len(),
{
    if s.len() > 0 && name_before(branches[x as int].name@, branches[s.last() as int].name@) {
        lemma_insert_in_range(branches, s.drop_last(), x, bound);
    }
}

/// The alphabetical list of the first `k` declarations holds indices below `k`.
pub proof fn lemma_nodes_in_range(branches: Seq<Branch>, default: Seq<char>, k: nat)
    requires
        k <= branches.len(),
        branches.len() <= usize::MAX,
    ensures
        nodes_by_name(branches, default, k).len() <= k,
        forall|i: int|
            0 <= i < nodes_by_name(branches, default, k).len() ==> (#[trigger] nodes_by_name(
                branches,
                default,
                k,
            )[i]) < k,
    decreases k,
{
    if k > 0 {
        let rest = nodes_by_name(branches, default, (k - 1) as nat);
        lemma_nodes_in_range(branches, default, (k - 1) as nat);
        if link_of(branches, default, k - 1) != Link::Skip {
            lemma_insert_in_range(branches, rest, (k - 1) as usize, k);
        }
    }
}

/// The names of the branches at `s` rise strictly from place to place.
pub open spec fn rises_by_name(branches: Seq<Branch>, s: Seq<usize>) -> bool {
    forall|a: int, b: int|
        0 <= a < b < s.len() ==> name_before(
            branches[(#[trigger] s[a]) as int].name@,
            branches[(#[trigger] s[b]) as int].name@,
        )
}

/// Where `x` goes into `s`: after the elements before `p`, before the rest.
proof fn lemma_insert_place(branches: Seq<Branch>, s: Seq<usize>, x: usize) -> (p: int)
    ensures
        0 <= p <= s.len(),
        insert_by_name(branches, s, x) == s.take(p).push(x) + s.skip(p),
        p > 0 ==> !name_before(branches[x as int].name@, branches[s[p - 1] as int].name@),
        forall|k: int|
            p <= k < s.len() ==> name_before(
                branches[x as int].name@,
                branches[(#[trigger] s[k]) as int].name@,
            ),
    decreases s.len(),
{
    if s.len() > 0 && name_before(branches[x as int].name@, branches[s.last() as int].name@) {
        let p = lemma_insert_place(branches, s.drop_last(), x);
        let d = s.drop_last();
        assert(d.take(p) =~= s.take(p));
        assert((d.take(p).push(x) + d.skip(p)).push(s.last()) =~= s.take(p).push(x) + s.skip(p));
        assert forall|k: int| p <= k < s.len() implies name_before(
            branches[x as int].name@,
            branches[(#[trigger] s[k]) as int].name@,
        ) by {
            if k < d.len() {
                assert(d[k] == s[k]);
            }
        }
        if p > 0 {
            assert(d[p - 1] == s[p - 1]);
        }
        p
    } else {
        let p = s.len() as int;
        assert(s.take(p).push(x) + s.skip(p) =~= s.push(x));
        p
    }
}

/// Putting in a branch whose name is new keeps the names rising.
proof fn lemma_insert_rises(branches: Seq<Branch>, s: Seq<usize>, x: usize)
    requires
        rises_by_name(branches, s),
        forall|i: int|
            0 <= i < s.len() ==> branches[(#[trigger] s[i]) as int].name@
                != branches[x as int].name@,
    ensures
        rises_by_name(branches, insert_by_name(branches, s, x)),
{
    let p = lemma_insert_place(branches, s, x);
    let r = insert_by_name(branches, s, x);
    let nx = branches[x as int].name@;
    assert forall|a: int, b: int| 0 <= a < b < r.len() implies name_before(
        branches[(#[trigger] r[a]) as int].name@,
        branches[(#[trigger] r[b]) as int].name@,
    ) by {
        let na = branches[r[a] as int].name@;
        let nb = branches[r[b] as int].name@;
        if b < p {
            assert(r[a] == s[a] && r[b] == s[b]);
        } else if b == p {
            assert(r[a] == s[a] && r[b] == x);
            let last = branches[s[p - 1] as int].name@;
            crate::names::lemma_name_before_total(last, nx);
            if a < p - 1 {
                assert(name_before(na, last));
                crate::names::lemma_name_before_transitive(na, last, nx);
            }
        } else if a < p {
            assert(r[a] == s[a] && r[b] == s[b - 1]);
        } else if a == p {
            assert(r[a] == x && r[b] == s[b - 1]);
        } else {
            assert(r[a] == s[a - 1] && r[b] == s[b - 1]);
        }
    }
}

/// The names in the alphabetical list, from which a walk takes the children
/// of every branch in the order of the list, rise strictly.
pub proof fn lemma_nodes_rise_by_name(branches: Seq<Branch>, default: Seq<char>, k: nat)
    requires
        k <= branches.len(),
        branches.len() <= usize::MAX,
    ensures
        rises_by_name(branches, nodes_by_name(branches, default, k)),
    decreases k,
{
    if k > 0 {
        let rest = nodes_by_name(branches, default, (k - 1) as nat);
        lemma_nodes_rise_by_name(branches, default, (k - 1) as nat);
        if link_of(branches, default, k - 1) != Link::Skip {
            lemma_nodes_in_range(branches, default, (k - 1) as nat);
            assert forall|i: int| 0 <= i < rest.len() implies branches[(#[trigger] rest[i]) as int].name@
                != branches[k - 1].name@ by {
                assert(rest[i] < k - 1);
                assert(is_first_named(branches, branches[k - 1].name@, k - 1));
            }
            lemma_insert_rises(branches, rest, (k - 1) as usize);
        }
    }
}

/// Whether the parents of the branch at `e` lead to the default branch in
/// at most `steps` steps: a child of the default branch takes one step.
pub open spec fn rooted(links: Seq<Link>, e: int, steps: nat) -> bool
    decreases steps,
{
    if steps == 0 || !(0 <= e < links.len()) {
        false
    } else {
        match links[e] {
            Link::Skip => false,
            Link::Root => true,
            Link::Under(p) => rooted(links, p as int, (steps - 1) as nat),
        }
    }
}

/// A walk lists every entry of the alphabetical list that hangs at its target.
proof fn lemma_walk_lists_children(
    links: Seq<Link>,
    sorted: Seq<usize>,
    target: Link,
    upto: nat,
    depth: nat,
    fuel: nat,
    at: int,
) -> (k: int)
    requires
        0 <= at < upto <= sorted.len(),
        links[sorted[at] as int] == target,
    ensures
        0 <= k < walk(links, sorted, target, upto, depth, fuel).len(),
        walk(links, sorted, target, upto, depth, fuel)[k] == (Visit {
            branch: sorted[at],
            depth: depth as usize,
        }),
    decreases upto,
{
    let before = walk(links, sorted, target, (upto - 1) as nat, depth, fuel);
    let e = sorted[upto - 1];
    if at == upto - 1 {
        before.len() as int
    } else {
        lemma_walk_lists_children(links, sorted, target, (upto - 1) as nat, depth, fuel, at)
    }
}

/// A walk that lists a branch above its last level lists the children of
/// that branch, one level deeper.
proof fn lemma_walk_lists_below(
    links: Seq<Link>,
    sorted: Seq<usize>,
    target: Link,
    upto: nat,
    depth: nat,
    fuel: nat,
    k: int,
    at: int,
) -> (found: int)
    requires
        upto <= sorted.len(),
        depth + fuel <= usize::MAX,
        0 <= k < walk(links, sorted, target, upto, depth, fuel).len(),
        walk(links, sorted, target, upto, depth, fuel)[k].depth < depth + fuel,
        0 <= at < sorted.len(),
        links[sorted[at] as int] == Link::Under(
            walk(links, sorted, target, upto, depth, fuel)[k].branch,
        ),
    ensures
        0 <= found < walk(links, sorted, target, upto, depth, fuel).len(),
        walk(links, sorted, target, upto, depth, fuel)[found] == (Visit {
            branch: sorted[at],
            depth: (walk(links, sorted, target, upto, depth, fuel)[k].depth + 1) as usize,
        }),
    decreases fuel, upto,
{
    let w = walk(links, sorted, target, upto, depth, fuel);
    let before = walk(links, sorted, target, (upto - 1) as nat, depth, fuel);
    let e = sorted[upto - 1];
    if links[e as int] == target {
        let below = if fuel == 0 {
            Seq::<Visit>::empty()
        } else {
            walk(links, sorted, Link::Under(e), sorted.len(), depth + 1, (fuel - 1) as nat)
        };
        assert(w == before.push(Visit { branch: e, depth: depth as usize }) + below);
        if k < before.len() {
            assert(w[k] == before[k]);
            let found = lemma_walk_lists_below(
                links,
                sorted,
                target,
                (upto - 1) as nat,
                depth,
                fuel,
                k,
                at,
            );
            assert(w[found] == before[found]);
            found
        } else if k == before.len() {
            let inner = lemma_walk_lists_children(
                links,
                sorted,
                Link::Under(e),
                sorted.len(),
                depth + 1,
                (fuel - 1) as nat,
                at,
            );
            assert(w[before.len() + 1 + inner] == below[inner]);
            before.len() + 1 + inner
        } else {
            let kk = k - before.len() - 1;
            assert(w[k] == below[kk]);
            let inner = lemma_walk_lists_below(
                links,
                sorted,
                Link::Under(e),
                sorted.len(),
                depth + 1,
                (fuel - 1) as nat,
                kk,
                at,
            );
            assert(w[before.len() + 1 + inner] == below[inner]);
            before.len() + 1 + inner
        }
    } else {
        lemma_walk_lists_below(links, sorted, target, (upto - 1) as nat, depth, fuel, k, at)
    }
}

/// The alphabetical list holds every branch of its own.
proof fn lemma_nodes_hold(branches: Seq<Branch>, default: Seq<char>, k: nat, e: int) -> (at:
    int)
    requires
        0 <= e < k <= branches.len(),
        branches.len() <= usize::MAX,
        link_of(branches, default, e) != Link::Skip,
    ensures
        0 <= at < nodes_by_name(branches, default, k).len(),
        nodes_by_name(branches, default, k)[at] == e,
    decreases k,
{
    let rest = nodes_by_name(branches, default, (k - 1) as nat);
    if link_of(branches, default, k - 1) == Link::Skip {
        lemma_nodes_hold(branches, default, (k - 1) as nat, e)
    } else {
        let p = lemma_insert_place(branches, rest, (k - 1) as usize);
        let r = nodes_by_name(branches, default, k);
        if e == k - 1 {
            assert(r[p] == e);
            p
        } else {
            let at = lemma_nodes_hold(branches, default, (k - 1) as nat, e);
            if at < p {
                assert(r[at] == rest[at]);
                at
            } else {
                assert(r[at + 1] == rest[at]);
                at + 1
            }
        }
    }
}

/// Every branch whose parents lead to the default branch is listed, at a
/// depth below the number of steps that its parents take.
pub proof fn lemma_rooted_is_listed(
    branches: Seq<Branch>,
    default: Seq<char>,
    e: int,
    steps: nat,
) -> (k: int)
    requires
        branches.len() <= usize::MAX,
        steps <= branches.len() + 1,
        rooted(link_table(branches, default), e, steps),
    ensures
        0 <= k < traversal(branches, default).len(),
        traversal(branches, default)[k].branch == e,
        traversal(branches, default)[k].depth < steps,
    decreases steps,
{
    let links = link_table(branches, default);
    let n = branches.len();
    let sorted = nodes_by_name(branches, default, n);
    let at = lemma_nodes_hold(branches, default, n, e);
    lemma_nodes_in_range(branches, default, n);
    match links[e] {
        Link::Root => lemma_walk_lists_children(
            links,
            sorted,
            Link::Root,
            sorted.len(),
            0,
            n,
            at,
        ),
        Link::Under(p) => {
            let kp = lemma_rooted_is_listed(branches, default, p as int, (steps - 1) as nat);
            lemma_walk_lists_below(links, sorted, Link::Root, sorted.len(), 0, n, kp, at)
        },
        Link::Skip => 0,
    }
}

/// The parents of every listed branch lead to the default branch, in one
/// step more than the depth of the branch.
pub proof fn lemma_listed_is_rooted(branches: Seq<Branch>, default: Seq<char>, k: int)
    requires
        branches.len() <= usize::MAX,
        0 <= k < traversal(branches, default).len(),
    ensures
        rooted(
            link_table(branches, default),
            traversal(branches, default)[k].branch as int,
            (traversal(branches, default)[k].depth + 1) as nat,
        ),
    decreases k,
{
    let links = link_table(branches, default);
    let w = traversal(branches, default);
    lemma_traversal_parent_first(branches, default, k);
    lemma_traversal_names(branches, default, k);
    if !(links[w[k].branch as int] == Link::Root && w[k].depth == 0) {
        let j = choose|j: int|
            0 <= j < k && links[w[k].branch as int] == Link::Under((#[trigger] w[j]).branch)
                && w[k].depth == w[j].depth + 1;
        lemma_listed_is_rooted(branches, default, j);
    }
}

/// The number of steps in which the parents of the branch at `e` lead to
/// the default branch, if they do so in at most `fuel` steps.
spec fn height(links: Seq<Link>, e: int, fuel: nat) -> Option<nat>
    decreases fuel,
{
    if fuel == 0 || !(0 <= e < links.len()) {
        None
    } else {
        match links[e] {
            Link::Skip => None,
            Link::Root => Some(1),
            Link::Under(p) => match height(links, p as int, (fuel - 1) as nat) {
                Some(h) => Some(h + 1),
                None => None,
            },
        }
    }
}

/// The branch `k` levels above the branch at `e`; -1 where there is none.
spec fn ancestor(links: Seq<Link>, e: int, k: nat) -> int
    decreases k,
{
    if k == 0 {
        e
    } else {
        let below = ancestor(links, e, (k - 1) as nat);
        if 0 <= below < links.len() {
            match links[below] {
                Link::Under(p) => p as int,
                _ => -1,
            }
        } else {
            -1
        }
    }
}

/// A walk is anchored if its depth is the height of the branch at which
/// its target hangs.
spec fn anchored(links: Seq<Link>, target: Link, depth: nat) -> bool {
    match target {
        Link::Skip => false,
        Link::Root => depth == 0,
        Link::Under(t) => height(links, t as int, depth) == Some(depth),
    }
}

proof fn lemma_height_settles(links: Seq<Link>, e: int, fuel: nat, more: nat)
    requires
        fuel <= more,
        height(links, e, fuel) is Some,
    ensures
        height(links, e, more) == height(links, e, fuel),
    decreases fuel,
{
    if fuel > 0 && 0 <= e < links.len() {
        match links[e] {
            Link::Under(p) => {
                lemma_height_settles(links, p as int, (fuel - 1) as nat, (more - 1) as nat);
            },
            _ => {},
        }
    }
}

/// In an anchored walk the depth of every entry is one less than the
/// height of its branch, and the ancestor of the entry at the level of the
/// walk is an entry of the alphabetical list that hangs at the target.
spec fn sits_in(
    links: Seq<Link>,
    sorted: Seq<usize>,
    target: Link,
    upto: nat,
    depth: nat,
    x: Visit,
) -> bool {
    &&& x.depth >= depth
    &&& height(links, x.branch as int, (x.depth + 1) as nat) == Some((x.depth + 1) as nat)
    &&& exists|at: int|
        0 <= at < upto && at < sorted.len() && links[(#[trigger] sorted[at]) as int] == target
            && ancestor(links, x.branch as int, (x.depth - depth) as nat) == sorted[at]
}

proof fn lemma_walk_sits(
    links: Seq<Link>,
    sorted: Seq<usize>,
    target: Link,
    upto: nat,
    depth: nat,
    fuel: nat,
)
    requires
        forall|k: int| 0 <= k < sorted.len() ==> (#[trigger] sorted[k]) < links.len(),
        depth + fuel <= usize::MAX,
        anchored(links, target, depth),
    ensures
        forall|k: int|
            0 <= k < walk(links, sorted, target, upto, depth, fuel).len() ==> sits_in(
                links,
                sorted,
                target,
                upto,
                depth,
                #[trigger] walk(links, sorted, target, upto, depth, fuel)[k],
            ),
    decreases fuel, upto,
{
    let w = walk(links, sorted, target, upto, depth, fuel);
    if upto == 0 || upto > sorted.len() {
    } else {
        let before = walk(links, sorted, target, (upto - 1) as nat, depth, fuel);
        lemma_walk_sits(links, sorted, target, (upto - 1) as nat, depth, fuel);
        let e = sorted[upto - 1];
        assert forall|k: int| 0 <= k < before.len() implies sits_in(
            links,
            sorted,
            target,
            upto,
            depth,
            #[trigger] before[k],
        ) by {
            assert(sits_in(links, sorted, target, (upto - 1) as nat, depth, before[k]));
            let at = choose|at: int|
                0 <= at < upto - 1 && at < sorted.len() && links[(#[trigger] sorted[at]) as int]
                    == target && ancestor(
                    links,
                    before[k].branch as int,
                    (before[k].depth - depth) as nat,
                ) == sorted[at];
            assert(0 <= at < upto && links[sorted[at] as int] == target);
        }
        if links[e as int] == target {
            let below = if fuel == 0 {
                Seq::<Visit>::empty()
            } else {
                walk(links, sorted, Link::Under(e), sorted.len(), depth + 1, (fuel - 1) as nat)
            };
            let here = Visit { branch: e, depth: depth as usize };
            assert(w == before.push(here) + below);
            assert(height(links, e as int, depth + 1) == Some(depth + 1)) by {
                match target {
                    Link::Under(t) => {},
                    _ => {},
                }
            }
            assert(sits_in(links, sorted, target, upto, depth, here)) by {
                assert(links[sorted[upto - 1] as int] == target);
            }
            if fuel > 0 {
                lemma_walk_sits(
                    links,
                    sorted,
                    Link::Under(e),
                    sorted.len(),
                    depth + 1,
                    (fuel - 1) as nat,
                );
            }
            assert forall|k: int| 0 <= k < w.len() implies sits_in(
                links,
                sorted,
                target,
                upto,
                depth,
                #[trigger] w[k],
            ) by {
                if k < before.len() {
                    assert(w[k] == before[k]);
                } else if k == before.len() {
                    assert(w[k] == here);
                } else {
                    let y = below[k - before.len() - 1];
                    assert(w[k] == y);
                    assert(sits_in(links, sorted, Link::Under(e), sorted.len(), depth + 1, y));
                    let at = choose|at: int|
                        0 <= at < sorted.len() && links[(#[trigger] sorted[at]) as int]
                            == Link::Under(e) && ancestor(
                            links,
                            y.branch as int,
                            (y.depth - (depth + 1)) as nat,
                        ) == sorted[at];
                    assert(ancestor(links, y.branch as int, (y.depth - depth) as nat) == e);
                    assert(links[sorted[upto - 1] as int] == target);
                }
            }
        }
    }
}

/// The entries of an alphabetical list of rising names differ.
proof fn lemma_rising_differ(branches: Seq<Branch>, s: Seq<usize>, a: int, b: int)
    requires
        rises_by_name(branches, s),
        0 <= a < s.len(),
        0 <= b < s.len(),
        s[a] == s[b],
    ensures
        a == b,
{
    crate::names::lemma_name_before_irreflexive(branches[s[a] as int].name@);
}

/// Two entries of an anchored walk with one branch have one depth.
proof fn lemma_one_depth(links: Seq<Link>, x: Visit, y: Visit)
    requires
        x.branch == y.branch,
        height(links, x.branch as int, (x.depth + 1) as nat) == Some((x.depth + 1) as nat),
        height(links, y.branch as int, (y.depth + 1) as nat) == Some((y.depth + 1) as nat),
    ensures
        x.depth == y.depth,
{
    if x.depth <= y.depth {
        lemma_height_settles(
            links,
            x.branch as int,
            (x.depth + 1) as nat,
            (y.depth + 1) as nat,
        );
    } else {
        lemma_height_settles(
            links,
            x.branch as int,
            (y.depth + 1) as nat,
            (x.depth + 1) as nat,
        );
    }
}

/// An anchored walk over an alphabetical list of rising names lists no
/// branch twice.
proof fn lemma_walk_lists_once(
    branches: Seq<Branch>,
    links: Seq<Link>,
    sorted: Seq<usize>,
    target: Link,
    upto: nat,
    depth: nat,
    fuel: nat,
)
    requires
        forall|k: int| 0 <= k < sorted.len() ==> (#[trigger] sorted[k]) < links.len(),
        rises_by_name(branches, sorted),
        depth + fuel <= usize::MAX,
        anchored(links, target, depth),
    ensures
        forall|a: int, b: int|
            0 <= a < b < walk(links, sorted, target, upto, depth, fuel).len() ==> (#[trigger] walk(
                links,
                sorted,
                target,
                upto,
                depth,
                fuel,
            )[a]).branch != (#[trigger] walk(links, sorted, target, upto, depth, fuel)[b]).branch,
    decreases fuel, upto,
{
    let w = walk(links, sorted, target, upto, depth, fuel);
    if upto == 0 || upto > sorted.len() {
    } else {
        let before = walk(links, sorted, target, (upto - 1) as nat, depth, fuel);
        lemma_walk_lists_once(branches, links, sorted, target, (upto - 1) as nat, depth, fuel);
        lemma_walk_sits(links, sorted, target, (upto - 1) as nat, depth, fuel);
        let e = sorted[upto - 1];
        if links[e as int] == target {
            let below = if fuel == 0 {
                Seq::<Visit>::empty()
            } else {
                walk(links, sorted, Link::Under(e), sorted.len(), depth + 1, (fuel - 1) as nat)
            };
            let here = Visit { branch: e, depth: depth as usize };
            assert(w == before.push(here) + below);
            lemma_walk_sits(links, sorted, target, upto, depth, fuel);
            if fuel > 0 {
                assert(height(links, e as int, depth + 1) == Some(depth + 1)) by {
                    assert(sits_in(links, sorted, target, upto, depth, w[before.len() as int]));
                }
                lemma_walk_lists_once(
                    branches,
                    links,
                    sorted,
                    Link::Under(e),
                    sorted.len(),
                    depth + 1,
                    (fuel - 1) as nat,
                );
                lemma_walk_sits(
                    links,
                    sorted,
                    Link::Under(e),
                    sorted.len(),
                    depth + 1,
                    (fuel - 1) as nat,
                );
            }
            assert forall|a: int, b: int| 0 <= a < b < w.len() implies (#[trigger] w[a]).branch != (
            #[trigger] w[b]).branch by {
                let x = w[a];
                let y = w[b];
                if x.branch == y.branch {
                    assert(sits_in(links, sorted, target, upto, depth, x));
                    assert(sits_in(links, sorted, target, upto, depth, y));
                    lemma_one_depth(links, x, y);
                    if b < before.len() {
                        assert(x == before[a] && y == before[b]);
                    } else if a > before.len() {
                        assert(x == below[a - before.len() - 1]);
                        assert(y == below[b - before.len() - 1]);
                    } else {
                        // `x` is in `before` or is `here`; `y` is `here` or in `below`.
                        let level = (x.depth - depth) as nat;
                        let top_x = ancestor(links, x.branch as int, level);
                        if a < before.len() {
                            assert(x == before[a]);
                            assert(sits_in(links, sorted, target, (upto - 1) as nat, depth, x));
                            let at = choose|at: int|
                                0 <= at < upto - 1 && at < sorted.len() && links[(
                                #[trigger] sorted[at]) as int] == target && ancestor(
                                    links,
                                    x.branch as int,
                                    (x.depth - depth) as nat,
                                ) == sorted[at];
                            if b == before.len() {
                                assert(y == here);
                                lemma_rising_differ(branches, sorted, at, upto - 1);
                            } else {
                                let yy = below[b - before.len() - 1];
                                assert(y == yy);
                                assert(sits_in(
                                    links,
                                    sorted,
                                    Link::Under(e),
                                    sorted.len(),
                                    depth + 1,
                                    yy,
                                ));
                                let att = choose|att: int|
                                    0 <= att < sorted.len() && links[(#[trigger] sorted[att]) as int]
                                        == Link::Under(e) && ancestor(
                                        links,
                                        yy.branch as int,
                                        (yy.depth - (depth + 1)) as nat,
                                    ) == sorted[att];
                                assert(ancestor(links, y.branch as int, (y.depth - depth) as nat)
                                    == e);
                                lemma_rising_differ(branches, sorted, at, upto - 1);
                            }
                        } else {
                            assert(x == here);
                            let yy = below[b - before.len() - 1];
                            assert(y == yy);
                            assert(sits_in(
                                links,
                                sorted,
                                Link::Under(e),
                                sorted.len(),
                                depth + 1,
                                yy,
                            ));
                        }
                    }
                }
            }
        }
    }
}

/// The ancestors of a branch are the ancestors of its parent, one level on.
proof fn lemma_ancestor_of_parent(links: Seq<Link>, e: int, p: usize, k: nat)
    requires
        0 <= e < links.len(),
        links[e] == Link::Under(p),
    ensures
        ancestor(links, e, k + 1) == ancestor(links, p as int, k),
    decreases k,
{
    if k > 0 {
        lemma_ancestor_of_parent(links, e, p, (k - 1) as nat);
        assert(ancestor(links, e, k) == ancestor(links, p as int, (k - 1) as nat));
    } else {
        assert(ancestor(links, e, 0) == e);
        assert(ancestor(links, p as int, 0) == p);
    }
}

/// In an anchored walk over an alphabetical list of rising names, of two
/// entries that hang at the same place the one with the name that comes
/// first is listed first.
proof fn lemma_walk_siblings_rise(
    branches: Seq<Branch>,
    links: Seq<Link>,
    sorted: Seq<usize>,
    target: Link,
    upto: nat,
    depth: nat,
    fuel: nat,
)
    requires
        forall|k: int| 0 <= k < sorted.len() ==> (#[trigger] sorted[k]) < links.len(),
        rises_by_name(branches, sorted),
        depth + fuel <= usize::MAX,
        anchored(links, target, depth),
    ensures
        forall|a: int, b: int|
            0 <= a < b < walk(links, sorted, target, upto, depth, fuel).len() && links[(
            #[trigger] walk(links, sorted, target, upto, depth, fuel)[a]).branch as int] == links[(
            #[trigger] walk(links, sorted, target, upto, depth, fuel)[b]).branch as int]
                ==> name_before(
                branches[walk(links, sorted, target, upto, depth, fuel)[a].branch as int].name@,
                branches[walk(links, sorted, target, upto, depth, fuel)[b].branch as int].name@,
            ),
    decreases fuel, upto,
{
    let w = walk(links, sorted, target, upto, depth, fuel);
    if upto == 0 || upto > sorted.len() {
    } else {
        let before = walk(links, sorted, target, (upto - 1) as nat, depth, fuel);
        lemma_walk_siblings_rise(branches, links, sorted, target, (upto - 1) as nat, depth, fuel);
        lemma_walk_sits(links, sorted, target, (upto - 1) as nat, depth, fuel);
        lemma_walk_in_range(links, sorted, target, upto, depth, fuel);
        let e = sorted[upto - 1];
        if links[e as int] == target {
            let below = if fuel == 0 {
                Seq::<Visit>::empty()
            } else {
                walk(links, sorted, Link::Under(e), sorted.len(), depth + 1, (fuel - 1) as nat)
            };
            let here = Visit { branch: e, depth: depth as usize };
            assert(w == before.push(here) + below);
            lemma_walk_sits(links, sorted, target, upto, depth, fuel);
            if fuel > 0 {
                assert(height(links, e as int, depth + 1) == Some(depth + 1)) by {
                    assert(sits_in(links, sorted, target, upto, depth, w[before.len() as int]));
                }
                lemma_walk_siblings_rise(
                    branches,
                    links,
                    sorted,
                    Link::Under(e),
                    sorted.len(),
                    depth + 1,
                    (fuel - 1) as nat,
                );
                lemma_walk_sits(
                    links,
                    sorted,
                    Link::Under(e),
                    sorted.len(),
                    depth + 1,
                    (fuel - 1) as nat,
                );
            }
            assert forall|a: int, b: int|
                0 <= a < b < w.len() && links[(#[trigger] w[a]).branch as int] == links[(
                #[trigger] w[b]).branch as int] implies name_before(
                branches[w[a].branch as int].name@,
                branches[w[b].branch as int].name@,
            ) by {
                let x = w[a];
                let y = w[b];
                assert(sits_in(links, sorted, target, upto, depth, x));
                assert(sits_in(links, sorted, target, upto, depth, y));
                assert(x.branch < links.len() && y.branch < links.len());
                // Entries that hang at the same place have the same height, and so
                // the same depth.
                assert(x.depth == y.depth) by {
                    let hx = (x.depth + 1) as nat;
                    let hy = (y.depth + 1) as nat;
                    match links[x.branch as int] {
                        Link::Under(p) => {
                            if hx <= hy {
                                lemma_height_settles(links, p as int, (hx - 1) as nat, (hy - 1) as nat);
                            } else {
                                lemma_height_settles(links, p as int, (hy - 1) as nat, (hx - 1) as nat);
                            }
                        },
                        _ => {},
                    }
                }
                if b < before.len() {
                    assert(x == before[a] && y == before[b]);
                } else if a > before.len() {
                    assert(x == below[a - before.len() - 1]);
                    assert(y == below[b - before.len() - 1]);
                } else if a < before.len() {
                    assert(x == before[a]);
                    assert(sits_in(links, sorted, target, (upto - 1) as nat, depth, x));
                    let at = choose|at: int|
                        0 <= at < upto - 1 && at < sorted.len() && links[(
                        #[trigger] sorted[at]) as int] == target && ancestor(
                            links,
                            x.branch as int,
                            (x.depth - depth) as nat,
                        ) == sorted[at];
                    if b == before.len() {
                        assert(y == here);
                        assert(x.branch == sorted[at]);
                    } else {
                        let yy = below[b - before.len() - 1];
                        assert(y == yy);
                        assert(sits_in(links, sorted, Link::Under(e), sorted.len(), depth + 1, yy));
                        let att = choose|att: int|
                            0 <= att < sorted.len() && links[(#[trigger] sorted[att]) as int]
                                == Link::Under(e) && ancestor(
                                links,
                                yy.branch as int,
                                (yy.depth - (depth + 1)) as nat,
                            ) == sorted[att];
                        assert(ancestor(links, y.branch as int, (y.depth - depth) as nat) == e);
                        let level = (x.depth - depth - 1) as nat;
                        match links[x.branch as int] {
                            Link::Under(p) => {
                                lemma_ancestor_of_parent(links, x.branch as int, p, level);
                                lemma_ancestor_of_parent(links, y.branch as int, p, level);
                            },
                            _ => {
                                assert(height(links, y.branch as int, (y.depth + 1) as nat) == Some(
                                    1nat,
                                ));
                            },
                        }
                        lemma_rising_differ(branches, sorted, at, upto - 1);
                    }
                } else {
                    assert(x == here);
                    let yy = below[b - before.len() - 1];
                    assert(y == yy);
                    assert(sits_in(links, sorted, Link::Under(e), sorted.len(), depth + 1, yy));
                }
            }
        }
    }
}

/// Siblings are listed in alphabetical order: of two listed branches with
/// the same parent, the one listed first has the name that comes first.
pub proof fn lemma_siblings_rise(branches: Seq<Branch>, default: Seq<char>, a: int, b: int)
    requires
        branches.len() <= usize::MAX,
        0 <= a < b < traversal(branches, default).len(),
        link_of(branches, default, traversal(branches, default)[a].branch as int) == link_of(
            branches,
            default,
            traversal(branches, default)[b].branch as int,
        ),
    ensures
        name_before(
            branches[traversal(branches, default)[a].branch as int].name@,
            branches[traversal(branches, default)[b].branch as int].name@,
        ),
{
    let n = branches.len();
    let sorted = nodes_by_name(branches, default, n);
    let links = link_table(branches, default);
    lemma_nodes_in_range(branches, default, n);
    lemma_nodes_rise_by_name(branches, default, n);
    lemma_traversal_names(branches, default, a);
    lemma_traversal_names(branches, default, b);
    lemma_walk_siblings_rise(branches, links, sorted, Link::Root, sorted.len(), 0, n);
    let w = traversal(branches, default);
    assert(links[w[a].branch as int] == links[w[b].branch as int]);
}

/// No branch is listed twice.
pub proof fn lemma_listed_once(branches: Seq<Branch>, default: Seq<char>, a: int, b: int)
    requires
        branches.len() <= usize::MAX,
        0 <= a < b < traversal(branches, default).len(),
    ensures
        traversal(branches, default)[a].branch != traversal(branches, default)[b].branch,
{
    let n = branches.len();
    let sorted = nodes_by_name(branches, default, n);
    lemma_nodes_in_range(branches, default, n);
    lemma_nodes_rise_by_name(branches, default, n);
    lemma_walk_lists_once(
        branches,
        link_table(branches, default),
        sorted,
        Link::Root,
        sorted.len(),
        0,
        n,
    );
}

} // verus!
