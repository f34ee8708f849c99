//! What hangs below what. A device may hang below any other, older or younger, as long as nothing comes
//! to hang below itself.

use vstd::prelude::*;

verus! {

/// A parent and one of its children.
#[derive(Clone, Copy, Debug, PartialEq, Eq, Structural)]
pub struct Edge {
    pub parent: u64,
    pub child: u64,
}

/// Whether a device hangs directly below another.
pub open spec fn hangs(e: Seq<Edge>, parent: u64, child: u64) -> bool {
    e.contains(Edge { parent, child })
}

/// No way down from a device is longer than `n`.
pub open spec fn within(e: Seq<Edge>, id: u64, n: nat) -> bool
    decreases n,
{
    forall|c: u64| #[trigger] hangs(e, id, c) ==> n > 0 && within(e, c, (n - 1) as nat)
}

/// Every way down from a device ends.
pub open spec fn ends(e: Seq<Edge>, id: u64) -> bool {
    exists|n: nat| within(e, id, n)
}

/// Nothing hangs below itself: every way down ends.
pub open spec fn acyclic(e: Seq<Edge>) -> bool {
    forall|id: u64| #[trigger] ends(e, id)
}

/// How far down it goes from a device at most.
pub open spec fn depth(e: Seq<Edge>, id: u64) -> nat {
    choose|n: nat| within(e, id, n)
}

/// `b` can be reached from `a` in at most `n` steps down.
pub open spec fn reaches(e: Seq<Edge>, a: u64, b: u64, n: nat) -> bool
    decreases n,
{
    a == b || (n > 0 && exists|c: u64| #[trigger] hangs(e, a, c) && reaches(e, c, b, (n - 1) as nat))
}

/// `b` is `a` or hangs somewhere below it.
pub open spec fn under(e: Seq<Edge>, a: u64, b: u64) -> bool {
    exists|n: nat| reaches(e, a, b, n)
}

/// Everything that hangs below something in `f` does so in `e`.
pub open spec fn part_of(f: Seq<Edge>, e: Seq<Edge>) -> bool {
    forall|p: u64, c: u64| #[trigger] hangs(f, p, c) ==> hangs(e, p, c)
}

pub proof fn lemma_nothing_hangs()
    ensures
        acyclic(Seq::<Edge>::empty()),
{
    let e = Seq::<Edge>::empty();
    assert forall|id: u64| #[trigger] ends(e, id) by {
        assert(within(e, id, 0));
    }
}

pub proof fn lemma_within_more(e: Seq<Edge>, id: u64, n: nat, m: nat)
    requires
        within(e, id, n),
        n <= m,
    ensures
        within(e, id, m),
    decreases n,
{
    assert forall|c: u64| #[trigger] hangs(e, id, c) implies m > 0 && within(e, c, (m - 1) as nat) by {
        lemma_within_more(e, c, (n - 1) as nat, (m - 1) as nat);
    }
}

pub proof fn lemma_within_part(e: Seq<Edge>, f: Seq<Edge>, id: u64, n: nat)
    requires
        within(e, id, n),
        part_of(f, e),
    ensures
        within(f, id, n),
    decreases n,
{
    assert forall|c: u64| #[trigger] hangs(f, id, c) implies n > 0 && within(f, c, (n - 1) as nat) by {
        assert(hangs(e, id, c));
        lemma_within_part(e, f, c, (n - 1) as nat);
    }
}

pub proof fn lemma_part_acyclic(e: Seq<Edge>, f: Seq<Edge>)
    requires
        acyclic(e),
        part_of(f, e),
    ensures
        acyclic(f),
{
    assert forall|id: u64| #[trigger] ends(f, id) by {
        assert(ends(e, id));
        lemma_within_part(e, f, id, depth(e, id));
    }
}

pub proof fn lemma_depth(e: Seq<Edge>, id: u64)
    requires
        acyclic(e),
    ensures
        within(e, id, depth(e, id)),
{
    assert(ends(e, id));
}

/// What can be reached goes no deeper than where one comes from.
proof fn lemma_reached_within(e: Seq<Edge>, a: u64, b: u64, n: nat, m: nat)
    requires
        within(e, a, n),
        reaches(e, a, b, m),
    ensures
        within(e, b, n),
    decreases m,
{
    if a != b {
        let c = choose|c: u64| #[trigger] hangs(e, a, c) && reaches(e, c, b, (m - 1) as nat);
        lemma_within_more(e, c, (n - 1) as nat, n);
        lemma_reached_within(e, c, b, n, (m - 1) as nat);
    }
}

/// Where every way down ends, none leads back.
pub proof fn lemma_no_way_back(e: Seq<Edge>, a: u64, c: u64, n: nat)
    requires
        within(e, a, n),
        hangs(e, a, c),
    ensures
        !under(e, c, a),
    decreases n,
{
    if under(e, c, a) {
        let m = choose|m: nat| reaches(e, c, a, m);
        assert(n > 0 && within(e, c, (n - 1) as nat));
        lemma_reached_within(e, c, a, (n - 1) as nat, m);
        lemma_no_way_back(e, a, c, (n - 1) as nat);
    }
}

pub proof fn lemma_under_self(e: Seq<Edge>, a: u64)
    ensures
        under(e, a, a),
{
    assert(reaches(e, a, a, 0));
}

pub proof fn lemma_under_step(e: Seq<Edge>, a: u64, c: u64, b: u64)
    requires
        hangs(e, a, c),
        under(e, c, b),
    ensures
        under(e, a, b),
{
    let n = choose|n: nat| reaches(e, c, b, n);
    assert(reaches(e, a, b, n + 1)) by {
        assert(hangs(e, a, c) && reaches(e, c, b, (n + 1 - 1) as nat));
    }
}

pub proof fn lemma_under_part(e: Seq<Edge>, f: Seq<Edge>, a: u64, b: u64)
    requires
        part_of(f, e),
        under(f, a, b),
    ensures
        under(e, a, b),
{
    let n = choose|n: nat| reaches(f, a, b, n);
    lemma_reaches_part(e, f, a, b, n);
}

proof fn lemma_reaches_part(e: Seq<Edge>, f: Seq<Edge>, a: u64, b: u64, n: nat)
    requires
        part_of(f, e),
        reaches(f, a, b, n),
    ensures
        reaches(e, a, b, n),
    decreases n,
{
    if a != b {
        let c = choose|c: u64| #[trigger] hangs(f, a, c) && reaches(f, c, b, (n - 1) as nat);
        lemma_reaches_part(e, f, c, b, (n - 1) as nat);
        assert(hangs(e, a, c));
    }
}

pub proof fn lemma_pushed(e: Seq<Edge>, x: Edge)
    ensures
        forall|p: u64, c: u64| #[trigger] hangs(e.push(x), p, c) == (hangs(e, p, c) || (p == x.parent && c == x.child)),
{
    let f = e.push(x);
    assert forall|p: u64, c: u64| #[trigger] hangs(f, p, c) == (hangs(e, p, c) || (p == x.parent && c == x.child)) by {
        let y = Edge { parent: p, child: c };
        if e.contains(y) {
            let i = choose|i: int| 0 <= i < e.len() && e[i] == y;
            assert(f[i] == y);
        }
        if y == x {
            assert(f[e.len() as int] == y);
        }
    }
}

/// A new edge changes nothing for devices that its parent does not hang below.
proof fn lemma_within_apart(e: Seq<Edge>, x: Edge, a: u64, n: nat)
    requires
        within(e, a, n),
        !under(e, a, x.parent),
    ensures
        within(e.push(x), a, n),
    decreases n,
{
    lemma_pushed(e, x);
    lemma_under_self(e, a);
    assert forall|c: u64| #[trigger] hangs(e.push(x), a, c) implies n > 0 && within(e.push(x), c, (n - 1) as nat) by {
        assert(hangs(e, a, c));
        if under(e, c, x.parent) {
            lemma_under_step(e, a, c, x.parent);
        }
        lemma_within_apart(e, x, c, (n - 1) as nat);
    }
}

proof fn lemma_within_pushed(e: Seq<Edge>, x: Edge, a: u64, n: nat, m: nat)
    requires
        within(e, a, n),
        within(e.push(x), x.child, m),
    ensures
        within(e.push(x), a, n + m + 1),
    decreases n,
{
    lemma_pushed(e, x);
    let f = e.push(x);
    assert forall|c: u64| #[trigger] hangs(f, a, c) implies within(f, c, n + m) by {
        if hangs(e, a, c) {
            lemma_within_pushed(e, x, c, (n - 1) as nat, m);
        } else {
            lemma_within_more(f, c, m, n + m);
        }
    }
}

/// A device can be hung below another unless that hangs below it.
pub proof fn lemma_pushed_acyclic(e: Seq<Edge>, x: Edge)
    requires
        acyclic(e),
        !under(e, x.child, x.parent),
    ensures
        acyclic(e.push(x)),
{
    let m = depth(e, x.child);
    lemma_depth(e, x.child);
    lemma_within_apart(e, x, x.child, m);
    assert forall|id: u64| #[trigger] ends(e.push(x), id) by {
        lemma_depth(e, id);
        lemma_within_pushed(e, x, id, depth(e, id), m);
    }
}

/// Hanging something below a device brings nothing above it.
pub proof fn lemma_under_pushed(e: Seq<Edge>, x: Edge, a: u64)
    requires
        under(e.push(x), a, x.parent),
    ensures
        under(e, a, x.parent),
{
    let n = choose|n: nat| reaches(e.push(x), a, x.parent, n);
    lemma_reaches_pushed(e, x, a, n);
}

proof fn lemma_reaches_pushed(e: Seq<Edge>, x: Edge, a: u64, n: nat)
    requires
        reaches(e.push(x), a, x.parent, n),
    ensures
        under(e, a, x.parent),
    decreases n,
{
    if a == x.parent {
        lemma_under_self(e, a);
    } else {
        let c = choose|c: u64| #[trigger] hangs(e.push(x), a, c) && reaches(e.push(x), c, x.parent, (n - 1) as nat);
        lemma_pushed(e, x);
        lemma_reaches_pushed(e, x, c, (n - 1) as nat);
        lemma_under_step(e, a, c, x.parent);
    }
}

/// Nothing hangs below a device without children.
pub proof fn lemma_leaf(e: Seq<Edge>, a: u64, b: u64)
    requires
        a != b,
        forall|c: u64| !#[trigger] hangs(e, a, c),
    ensures
        !under(e, a, b),
{
    if under(e, a, b) {
        let n = choose|n: nat| reaches(e, a, b, n);
        let c = choose|c: u64| #[trigger] hangs(e, a, c) && reaches(e, c, b, (n - 1) as nat);
        assert(!hangs(e, a, c));
    }
}

pub proof fn lemma_filter_part(e: Seq<Edge>, keep: spec_fn(Edge) -> bool)
    ensures
        part_of(e.filter(keep), e),
{
    assert forall|p: u64, c: u64| #[trigger] hangs(e.filter(keep), p, c) implies hangs(e, p, c) by {
        e.lemma_filter_contains_rev(keep, Edge { parent: p, child: c });
    }
}

/// The children of a device among the first `n` edges.
pub open spec fn children_of(e: Seq<Edge>, n: nat, parent: u64) -> Seq<u64>
    decreases n,
{
    if n == 0 {
        Seq::empty()
    } else {
        let rest = children_of(e, (n - 1) as nat, parent);
        if e[n - 1].parent == parent { rest.push(e[n - 1].child) } else { rest }
    }
}

pub proof fn lemma_children(e: Seq<Edge>, n: nat, parent: u64)
    requires
        n <= e.len(),
    ensures
        forall|k: int| 0 <= k < children_of(e, n, parent).len() ==> hangs(e, parent, #[trigger] children_of(e, n, parent)[k]),
    decreases n,
{
    if n > 0 {
        lemma_children(e, (n - 1) as nat, parent);
        let rest = children_of(e, (n - 1) as nat, parent);
        let all = children_of(e, n, parent);
        assert forall|k: int| 0 <= k < all.len() implies hangs(e, parent, #[trigger] all[k]) by {
            if k < rest.len() {
                assert(hangs(e, parent, rest[k]));
            } else {
                assert(e[n - 1] == Edge { parent, child: all[k] });
            }
        }
    }
}

} // verus!
