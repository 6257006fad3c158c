//! A stateful, resumable depth-first walk over the index's type graph.
//!
//! The walk is iterative: an explicit stack of tagged position segments
//! replaces native recursion, so the sequence of items is lazy and can be
//! abandoned early.  A set of visited type ids keeps cyclic graphs finite: a
//! type already fully entered earlier in the same walk is reported again when
//! reached, but never re-expanded.

use crate::Point;
use crate::index::{
    DeclView, Declaration, Index, TypeId, TypeOrigin, TypeView, decl_view, origin_of, type_view,
};
use vstd::prelude::*;

verus! {

/// One tagged position segment on the cursor's explicit stack.
///
/// A stack like `[Type(3), Declaration(1), Dependency(4)]` points at the
/// fourth dependency edge of the second declaration of type 3.
#[derive(Clone, Copy, Debug, PartialEq, Eq, Structural)]
pub enum Segment {
    Type(TypeId),
    Declaration(usize),
    Dependency(usize),
}

/// One item produced by the walk.
#[derive(Debug, Clone)]
pub enum IndexItem {
    /// A type reached by the walk: id, name and origin.
    Type(TypeId, String, TypeOrigin),
    /// One declaration site of the type above it.
    Declaration(Declaration),
    /// One dependency edge of the declaration above it: target id, target
    /// name and the location of the reference.
    Dependency(TypeId, String, Point),
}

/// Mathematical value of an [`IndexItem`].
#[verifier::ext_equal]
pub ghost enum ItemView {
    Type(usize, Seq<char>, TypeOrigin),
    Declaration(DeclView),
    Dependency(usize, Seq<char>, Point),
}

pub open spec fn item_view(it: IndexItem) -> ItemView {
    match it {
        IndexItem::Type(id, name, origin) => ItemView::Type(id, name@, origin),
        IndexItem::Declaration(d) => ItemView::Declaration(decl_view(d)),
        IndexItem::Dependency(id, name, p) => ItemView::Dependency(id, name@, p),
    }
}

impl PartialEq for IndexItem {
    /// Two items are equal when their mathematical values are.
    fn eq(&self, other: &Self) -> (r: bool) {
        match (self, other) {
            (IndexItem::Type(a, b, c), IndexItem::Type(d, e, f)) => *a == *d && *b == *e && *c
                == *f,
            (IndexItem::Declaration(a), IndexItem::Declaration(b)) => *a == *b,
            (IndexItem::Dependency(a, b, c), IndexItem::Dependency(d, e, f)) => *a == *d && *b
                == *e && *c == *f,
            _ => false,
        }
    }
}

impl vstd::std_specs::cmp::PartialEqSpecImpl for IndexItem {
    open spec fn obeys_eq_spec() -> bool {
        true
    }

    open spec fn eq_spec(&self, other: &Self) -> bool {
        item_view(*self) == item_view(*other)
    }
}

/// The type id a segment carries, zero for the other segments.
pub open spec fn seg_type(s: Segment) -> usize {
    match s {
        Segment::Type(t) => t,
        Segment::Declaration(i) => 0,
        Segment::Dependency(j) => 0,
    }
}

/// The list index a segment carries, zero for a type segment.
pub open spec fn seg_idx(s: Segment) -> usize {
    match s {
        Segment::Type(t) => 0,
        Segment::Declaration(i) => i,
        Segment::Dependency(j) => j,
    }
}

/// The stack grammar: segments repeat as type, declaration, dependency.  A
/// segment's index stays in range of the list it walks; it may rest one past
/// the end only while it is on top (the overrun is then detected and the
/// stack backtracks).  A type segment above a dependency segment is the
/// target of that dependency edge.
pub open spec fn stack_pos_wf(types: Seq<TypeView>, path: Seq<Segment>, p: int) -> bool {
    if p % 3 == 0 {
        &&& path[p] is Type
        &&& seg_type(path[p]) < types.len()
    } else if p % 3 == 1 {
        &&& path[p] is Declaration
        &&& {
            let tv = types[seg_type(path[p - 1]) as int];
            let i = seg_idx(path[p]);
            &&& i <= tv.decls.len()
            &&& (p + 1 < path.len() ==> i < tv.decls.len())
        }
    } else {
        &&& path[p] is Dependency
        &&& {
            let tv = types[seg_type(path[p - 2]) as int];
            let i = seg_idx(path[p - 1]);
            let j = seg_idx(path[p]);
            &&& i < tv.decls.len()
            &&& j <= tv.decls[i as int].deps.len()
            &&& (p + 1 < path.len() ==> j < tv.decls[i as int].deps.len()
                && tv.decls[i as int].deps[j as int].0 == seg_type(path[p + 1]))
        }
    }
}

pub open spec fn stack_wf(types: Seq<TypeView>, path: Seq<Segment>) -> bool {
    forall|p: int| 0 <= p < path.len() ==> stack_pos_wf(types, path, p)
}

/// Every type segment strictly below the top has been entered: only the top
/// of the stack may carry a type that is still waiting to be expanded.
pub open spec fn inner_types_visited(path: Seq<Segment>, visited: Set<usize>) -> bool {
    forall|p: int| 0 <= p < path.len() - 1 && p % 3 == 0
        ==> visited.contains(seg_type(#[trigger] path[p]))
}

/// All list lengths fit the machine; true of every view of a real index.
pub open spec fn types_bounded(types: Seq<TypeView>) -> bool {
    &&& types.len() <= usize::MAX
    &&& forall|i: int| 0 <= i < types.len() ==> (#[trigger] types[i]).decls.len() <= usize::MAX
        && (forall|j: int| 0 <= j < types[i].decls.len()
            ==> (#[trigger] types[i].decls[j]).deps.len() <= usize::MAX)
}

/// Popping a finished or pruned type segment: the segment goes, and the
/// dependency segment now exposed (if any) advances to its next edge.
pub open spec fn pop_advance(path: Seq<Segment>) -> Seq<Segment> {
    let q = path.drop_last();
    if q.len() > 0 && q.last() is Dependency {
        q.update(q.len() - 1, Segment::Dependency((seg_idx(q.last()) + 1) as usize))
    } else {
        q
    }
}

// The walk terminates because every step strictly shrinks a measure: each
// unentered type holds a budget covering the stack growth its entry causes,
// and each stack segment weighs its remaining work.

/// Weight of the declaration list of `tv` from declaration `i` on: two per
/// declaration plus two per dependency edge.
pub open spec fn decl_tail_weight(tv: TypeView, i: int) -> nat
    decreases tv.decls.len() - i,
{
    if i < 0 || i >= tv.decls.len() {
        0
    } else {
        (2 + 2 * tv.decls[i].deps.len() + decl_tail_weight(tv, i + 1)) as nat
    }
}

/// Budget of a type that has not been entered yet.
pub open spec fn type_budget(tv: TypeView) -> nat {
    2 + decl_tail_weight(tv, 0)
}

/// Weight of the segment at position `p`; the segment on top of the stack
/// weighs slightly more than a covered one, paying for the steps that happen
/// while it is exposed.
pub open spec fn seg_weight(types: Seq<TypeView>, path: Seq<Segment>, p: int, top: bool) -> nat {
    match path[p] {
        Segment::Type(t) => 1,
        Segment::Declaration(i) => {
            let tv = types[seg_type(path[p - 1]) as int];
            if top {
                1 + decl_tail_weight(tv, i as int)
            } else {
                1 + decl_tail_weight(tv, i + 1)
            }
        }
        Segment::Dependency(j) => {
            let dv = types[seg_type(path[p - 2]) as int].decls[seg_idx(path[p - 1]) as int];
            if top {
                (1 + 2 * (dv.deps.len() - j)) as nat
            } else {
                (2 * (dv.deps.len() - j) - 1) as nat
            }
        }
    }
}

/// Combined weight of the covered segments below position `upto`.
pub open spec fn stack_prefix_weight(types: Seq<TypeView>, path: Seq<Segment>, upto: int) -> nat
    decreases upto,
{
    if upto <= 0 {
        0
    } else {
        stack_prefix_weight(types, path, upto - 1) + seg_weight(types, path, upto - 1, false)
    }
}

pub open spec fn stack_weight(types: Seq<TypeView>, path: Seq<Segment>) -> nat {
    if path.len() == 0 {
        0
    } else {
        stack_prefix_weight(types, path, path.len() - 1) + seg_weight(
            types,
            path,
            path.len() - 1,
            true,
        )
    }
}

/// Combined budget of the unentered types with id below `upto`.
pub open spec fn unvisited_budget(
    types: Seq<TypeView>,
    visited: Set<usize>,
    upto: int,
) -> nat
    decreases upto,
{
    if upto <= 0 {
        0
    } else {
        unvisited_budget(types, visited, upto - 1) + if visited.contains((upto - 1) as usize) {
            0
        } else {
            type_budget(types[upto - 1])
        }
    }
}

pub open spec fn walk_measure(types: Seq<TypeView>, path: Seq<Segment>, visited: Set<usize>) -> nat {
    unvisited_budget(types, visited, types.len() as int) + stack_weight(types, path)
}

/// The items a walk still has to produce from a given state, each with the
/// depth it is reported at (stack depth at emission time, minus one).
///
/// This is the reference semantics of [`IndexCursor::next_item`]: each pull
/// loops through any number of pure bookkeeping transitions (a pruned
/// back-edge, an exhausted list) and then emits the head of this sequence.
pub open spec fn walk_items(
    types: Seq<TypeView>,
    path: Seq<Segment>,
    visited: Set<usize>,
) -> Seq<(ItemView, int)>
    decreases walk_measure(types, path, visited),
        when stack_wf(types, path) && types_bounded(types)
{
    if path.len() == 0 {
        Seq::empty()
    } else {
        let p = path.len() - 1;
        match path[p] {
            Segment::Type(t) => {
                if visited.contains(t) {
                    // A pruned back-edge: the type was entered earlier in
                    // this walk, so it is not expanded again.
                    proof {
                        lemma_pop_type(types, path);
                    }
                    walk_items(types, pop_advance(path), visited)
                } else {
                    let tv = types[t as int];
                    let item = (ItemView::Type(t, tv.name, origin_of(tv)), p);
                    if tv.decls.len() > 0 {
                        proof {
                            assert(stack_pos_wf(types, path, path.len() - 1));
                            assert(t < types.len());
                            lemma_push_decl(types, path);
                            lemma_budget_insert(types, visited, t, types.len() as int);
                        }
                        seq![item] + walk_items(
                            types,
                            path.push(Segment::Declaration(0)),
                            visited.insert(t),
                        )
                    } else {
                        // A type with no declarations is a leaf.
                        proof {
                            lemma_pop_type(types, path);
                            lemma_budget_insert(types, visited, t, types.len() as int);
                        }
                        seq![item] + walk_items(types, pop_advance(path), visited.insert(t))
                    }
                }
            }
            Segment::Declaration(i) => {
                let tv = types[seg_type(path[p - 1]) as int];
                if i >= tv.decls.len() {
                    // The declaration list has run out; backtrack.
                    proof {
                        lemma_pop_decl(types, path);
                    }
                    walk_items(types, path.drop_last(), visited)
                } else {
                    let item = (ItemView::Declaration(tv.decls[i as int]), p);
                    if tv.decls[i as int].deps.len() > 0 {
                        proof {
                            lemma_push_dep(types, path);
                        }
                        seq![item] + walk_items(
                            types,
                            path.push(Segment::Dependency(0)),
                            visited,
                        )
                    } else if i + 1 < tv.decls.len() {
                        proof {
                            lemma_next_decl(types, path);
                        }
                        seq![item] + walk_items(
                            types,
                            path.update(p, Segment::Declaration((i + 1) as usize)),
                            visited,
                        )
                    } else {
                        proof {
                            lemma_pop_decl(types, path);
                        }
                        seq![item] + walk_items(types, path.drop_last(), visited)
                    }
                }
            }
            Segment::Dependency(j) => {
                let k = seg_idx(path[p - 1]);
                let dv = types[seg_type(path[p - 2]) as int].decls[k as int];
                if j >= dv.deps.len() {
                    // The dependency list has run out: this declaration is
                    // finished and its type advances to the next one.
                    proof {
                        lemma_finish_decl(types, path);
                    }
                    walk_items(
                        types,
                        path.drop_last().drop_last().push(
                            Segment::Declaration((k + 1) as usize),
                        ),
                        visited,
                    )
                } else {
                    let target = dv.deps[j as int].0;
                    let item = (
                        ItemView::Dependency(target, types[target as int].name, dv.deps[j as int].1),
                        p,
                    );
                    if !visited.contains(target) {
                        proof {
                            lemma_push_type(types, path, target);
                        }
                        seq![item] + walk_items(types, path.push(Segment::Type(target)), visited)
                    } else {
                        // A pruned back-edge: the edge itself is reported,
                        // but the target's subtree is not expanded.
                        proof {
                            lemma_next_dep(types, path);
                        }
                        seq![item] + walk_items(
                            types,
                            path.update(p, Segment::Dependency((j + 1) as usize)),
                            visited,
                        )
                    }
                }
            }
        }
    }
}

/// The prefix weight only reads the segments below `upto`.
pub proof fn lemma_prefix_congruence(
    types: Seq<TypeView>,
    path1: Seq<Segment>,
    path2: Seq<Segment>,
    upto: int,
)
    requires
        upto <= path1.len(),
        upto <= path2.len(),
        stack_wf(types, path1),
        forall|p: int| 0 <= p < upto ==> path1[p] == path2[p],
    ensures
        stack_prefix_weight(types, path1, upto) == stack_prefix_weight(types, path2, upto),
    decreases upto,
{
    if upto > 0 {
        lemma_prefix_congruence(types, path1, path2, upto - 1);
        let p = upto - 1;
        assert(stack_pos_wf(types, path1, p));
        if p % 3 == 1 {
            assert(path1[p - 1] == path2[p - 1]);
        }
        if p % 3 == 2 {
            assert(path1[p - 1] == path2[p - 1]);
            assert(path1[p - 2] == path2[p - 2]);
        }
        assert(seg_weight(types, path1, p, false) == seg_weight(types, path2, p, false));
    }
}

/// Marking a type as visited releases exactly its budget.
pub proof fn lemma_budget_insert(types: Seq<TypeView>, visited: Set<usize>, t: usize, upto: int)
    requires
        !visited.contains(t),
        upto <= usize::MAX,
    ensures
        unvisited_budget(types, visited.insert(t), upto) == unvisited_budget(types, visited, upto)
            - (if t < upto { type_budget(types[t as int]) } else { 0 }),
    decreases upto,
{
    if upto > 0 {
        lemma_budget_insert(types, visited, t, upto - 1);
    }
}

/// Popping a type segment: the stack weight drops by exactly one.
pub proof fn lemma_pop_type(types: Seq<TypeView>, path: Seq<Segment>)
    requires
        stack_wf(types, path),
        types_bounded(types),
        path.len() > 0,
        path.last() is Type,
    ensures
        stack_wf(types, pop_advance(path)),
        stack_weight(types, pop_advance(path)) + 1 == stack_weight(types, path),
{
    let n = path.len() as int;
    let q = path.drop_last();
    assert(stack_pos_wf(types, path, n - 1));
    assert((n - 1) % 3 == 0);
    if n == 1 {
        assert(pop_advance(path) =~= Seq::<Segment>::empty());
        assert(stack_weight(types, path) == stack_prefix_weight(types, path, 0) + 1);
    } else {
        assert(n >= 4);
        assert((n - 2) % 3 == 2);
        assert(stack_pos_wf(types, path, n - 2));
        assert(stack_pos_wf(types, path, n - 3));
        assert(stack_pos_wf(types, path, n - 4));
        assert(path[n - 2] is Dependency);
        let j = seg_idx(path[n - 2]);
        let tv = types[seg_type(path[n - 4]) as int];
        let dv = tv.decls[seg_idx(path[n - 3]) as int];
        let dn = dv.deps.len();
        assert(j < dn);
        assert(seg_type(path[n - 4]) < types.len());
        assert(tv.decls.len() <= usize::MAX);
        assert(dn <= usize::MAX);
        assert((j + 1) as usize == j + 1);
        let q2 = pop_advance(path);
        assert(q2 == q.update(n - 2, Segment::Dependency((j + 1) as usize)));
        assert(q2.len() == n - 1);
        // Well-formedness of the result.
        assert forall|p: int| 0 <= p < q2.len() implies stack_pos_wf(types, q2, p) by {
            assert(stack_pos_wf(types, path, p));
            if p < n - 2 {
                assert(q2[p] == path[p]);
                if p % 3 == 1 {
                    assert(q2[p - 1] == path[p - 1]);
                }
                if p % 3 == 2 {
                    assert(q2[p - 1] == path[p - 1]);
                    assert(q2[p - 2] == path[p - 2]);
                    if p + 1 < q2.len() {
                        assert(q2[p + 1] == path[p + 1]);
                    }
                }
            } else {
                assert(p == n - 2);
                assert(q2[p - 1] == path[p - 1]);
                assert(q2[p - 2] == path[p - 2]);
            }
        }
        // Weight accounting.
        lemma_prefix_congruence(types, path, q2, n - 2);
        assert(stack_prefix_weight(types, path, n - 1) == stack_prefix_weight(types, path, n - 2)
            + seg_weight(types, path, n - 2, false));
        assert(seg_weight(types, path, n - 2, false) == (2 * (dn - j) - 1) as nat);
        assert(seg_weight(types, path, n - 1, true) == 1);
        assert(seg_weight(types, q2, n - 2, true) == (1 + 2 * (dn - (j + 1))) as nat);
        assert((1 + 2 * (dn - (j + 1))) as nat == (2 * (dn - j) - 1) as nat);
    }
}

/// Pushing the first declaration segment after entering a type: the stack
/// gains one plus the type's declaration-list weight.
pub proof fn lemma_push_decl(types: Seq<TypeView>, path: Seq<Segment>)
    requires
        stack_wf(types, path),
        types_bounded(types),
        path.len() > 0,
        path.last() is Type,
        types[seg_type(path.last()) as int].decls.len() > 0,
    ensures
        stack_wf(types, path.push(Segment::Declaration(0))),
        stack_weight(types, path.push(Segment::Declaration(0))) == stack_weight(types, path) + 1
            + decl_tail_weight(types[seg_type(path.last()) as int], 0),
{
    let n = path.len() as int;
    let q2 = path.push(Segment::Declaration(0));
    let tv = types[seg_type(path.last()) as int];
    assert(stack_pos_wf(types, path, n - 1));
    assert((n - 1) % 3 == 0);
    assert forall|p: int| 0 <= p < q2.len() implies stack_pos_wf(types, q2, p) by {
        if p < n {
            assert(stack_pos_wf(types, path, p));
            assert(q2[p] == path[p]);
            if p % 3 == 1 {
                assert(q2[p - 1] == path[p - 1]);
                assert(p + 1 < n);
            }
            if p % 3 == 2 {
                assert(q2[p - 1] == path[p - 1]);
                assert(q2[p - 2] == path[p - 2]);
                assert(p + 1 < n);
                assert(q2[p + 1] == path[p + 1]);
            }
        } else {
            assert(p == n);
            assert(p % 3 == 1);
            assert(q2[p - 1] == path[n - 1]);
        }
    }
    lemma_prefix_congruence(types, path, q2, n - 1);
    assert(stack_prefix_weight(types, q2, n) == stack_prefix_weight(types, q2, n - 1)
        + seg_weight(types, q2, n - 1, false));
    assert(seg_weight(types, q2, n - 1, false) == 1);
    assert(seg_weight(types, path, n - 1, true) == 1);
    assert(seg_weight(types, q2, n, true) == 1 + decl_tail_weight(tv, 0));
}

/// Pushing the first dependency segment while emitting a declaration that
/// has dependencies: the stack weight drops by one.
pub proof fn lemma_push_dep(types: Seq<TypeView>, path: Seq<Segment>)
    requires
        stack_wf(types, path),
        types_bounded(types),
        path.len() > 0,
        path.last() is Declaration,
        seg_idx(path.last()) < types[seg_type(path[path.len() - 2]) as int].decls.len(),
        types[seg_type(path[path.len() - 2]) as int].decls[seg_idx(path.last()) as int].deps.len()
            > 0,
    ensures
        stack_wf(types, path.push(Segment::Dependency(0))),
        stack_weight(types, path.push(Segment::Dependency(0))) + 1 == stack_weight(types, path),
{
    let n = path.len() as int;
    let q2 = path.push(Segment::Dependency(0));
    let tv = types[seg_type(path[n - 2]) as int];
    let i = seg_idx(path[n - 1]);
    let dv = tv.decls[i as int];
    assert(stack_pos_wf(types, path, n - 1));
    assert((n - 1) % 3 == 1);
    assert forall|p: int| 0 <= p < q2.len() implies stack_pos_wf(types, q2, p) by {
        if p < n {
            assert(stack_pos_wf(types, path, p));
            assert(q2[p] == path[p]);
            if p % 3 == 1 {
                assert(q2[p - 1] == path[p - 1]);
            }
            if p % 3 == 2 {
                assert(p + 1 < n);
                assert(q2[p - 1] == path[p - 1]);
                assert(q2[p - 2] == path[p - 2]);
                assert(q2[p + 1] == path[p + 1]);
            }
        } else {
            assert(p == n);
            assert(p % 3 == 2);
            assert(q2[p - 1] == path[n - 1]);
            assert(q2[p - 2] == path[n - 2]);
        }
    }
    lemma_prefix_congruence(types, path, q2, n - 1);
    assert(stack_prefix_weight(types, q2, n) == stack_prefix_weight(types, q2, n - 1)
        + seg_weight(types, q2, n - 1, false));
    assert(decl_tail_weight(tv, i as int) == 2 + 2 * dv.deps.len() + decl_tail_weight(
        tv,
        i + 1,
    ));
    assert(seg_weight(types, q2, n - 1, false) == 1 + decl_tail_weight(tv, i + 1));
    assert(seg_weight(types, path, n - 1, true) == 1 + decl_tail_weight(tv, i as int));
    assert(seg_weight(types, q2, n, true) == (1 + 2 * dv.deps.len()) as nat);
}

/// Pushing the target type segment while emitting a dependency edge: the
/// stack weight drops by one.
pub proof fn lemma_push_type(types: Seq<TypeView>, path: Seq<Segment>, target: usize)
    requires
        stack_wf(types, path),
        types_bounded(types),
        path.len() > 0,
        path.last() is Dependency,
        seg_idx(path.last()) < types[seg_type(path[path.len() - 3]) as int].decls[seg_idx(
            path[path.len() - 2],
        ) as int].deps.len(),
        target == types[seg_type(path[path.len() - 3]) as int].decls[seg_idx(
            path[path.len() - 2],
        ) as int].deps[seg_idx(path.last()) as int].0,
    ensures
        target < types.len() ==> stack_wf(types, path.push(Segment::Type(target))),
        stack_weight(types, path.push(Segment::Type(target))) + 1 == stack_weight(types, path),
{
    let n = path.len() as int;
    let q2 = path.push(Segment::Type(target));
    let tv = types[seg_type(path[n - 3]) as int];
    let dv = tv.decls[seg_idx(path[n - 2]) as int];
    let j = seg_idx(path[n - 1]);
    let dn = dv.deps.len();
    assert(stack_pos_wf(types, path, n - 1));
    assert((n - 1) % 3 == 2);
    assert(n >= 3);
    assert(stack_pos_wf(types, path, n - 3));
    assert(stack_pos_wf(types, path, n - 2));
    if target < types.len() {
        assert forall|p: int| 0 <= p < q2.len() implies stack_pos_wf(types, q2, p) by {
            if p < n {
                assert(stack_pos_wf(types, path, p));
                assert(q2[p] == path[p]);
                if p % 3 == 1 {
                    assert(q2[p - 1] == path[p - 1]);
                }
                if p % 3 == 2 {
                    assert(q2[p - 1] == path[p - 1]);
                    assert(q2[p - 2] == path[p - 2]);
                    if p + 1 < n {
                        assert(q2[p + 1] == path[p + 1]);
                    } else {
                        assert(p == n - 1);
                        assert(q2[p + 1] == Segment::Type(target));
                    }
                }
            } else {
                assert(p == n);
                assert(p % 3 == 0);
            }
        }
    }
    lemma_prefix_congruence(types, path, q2, n - 1);
    assert(stack_prefix_weight(types, q2, n) == stack_prefix_weight(types, q2, n - 1)
        + seg_weight(types, q2, n - 1, false));
    assert(seg_weight(types, q2, n - 1, false) == (2 * (dn - j) - 1) as nat);
    assert(seg_weight(types, path, n - 1, true) == (1 + 2 * (dn - j)) as nat);
    assert(seg_weight(types, q2, n, true) == 1);
}

/// Popping a declaration segment: the stack weight drops by at least one.
pub proof fn lemma_pop_decl(types: Seq<TypeView>, path: Seq<Segment>)
    requires
        stack_wf(types, path),
        types_bounded(types),
        path.len() > 0,
        path.last() is Declaration,
    ensures
        stack_wf(types, path.drop_last()),
        stack_weight(types, path.drop_last()) < stack_weight(types, path),
{
    let n = path.len() as int;
    let q2 = path.drop_last();
    assert(stack_pos_wf(types, path, n - 1));
    assert((n - 1) % 3 == 1);
    assert(n >= 2);
    assert((n - 2) % 3 == 0);
    assert forall|p: int| 0 <= p < q2.len() implies stack_pos_wf(types, q2, p) by {
        assert(stack_pos_wf(types, path, p));
        assert(q2[p] == path[p]);
        if p % 3 == 1 {
            assert(q2[p - 1] == path[p - 1]);
            assert(p + 1 < q2.len());
        }
        if p % 3 == 2 {
            assert(q2[p - 1] == path[p - 1]);
            assert(q2[p - 2] == path[p - 2]);
            if p + 1 < q2.len() {
                assert(q2[p + 1] == path[p + 1]);
            }
        }
    }
    lemma_prefix_congruence(types, path, q2, n - 2);
    assert(stack_prefix_weight(types, path, n - 1) == stack_prefix_weight(types, path, n - 2)
        + seg_weight(types, path, n - 2, false));
    assert(stack_pos_wf(types, path, n - 2));
    assert(path[n - 2] is Type);
    assert(seg_weight(types, path, n - 2, false) == 1);
    assert(q2[n - 2] == path[n - 2]);
    assert(seg_weight(types, q2, n - 2, true) == 1);
    assert(seg_weight(types, path, n - 1, true) >= 1);
}

/// Advancing the top declaration segment to the next sibling: the stack
/// weight drops by two.
pub proof fn lemma_next_decl(types: Seq<TypeView>, path: Seq<Segment>)
    requires
        stack_wf(types, path),
        types_bounded(types),
        path.len() > 0,
        path.last() is Declaration,
        seg_idx(path.last()) < types[seg_type(path[path.len() - 2]) as int].decls.len(),
        types[seg_type(path[path.len() - 2]) as int].decls[seg_idx(path.last()) as int].deps.len()
            == 0,
    ensures
        stack_wf(
            types,
            path.update(
                path.len() - 1,
                Segment::Declaration((seg_idx(path.last()) + 1) as usize),
            ),
        ),
        stack_weight(
            types,
            path.update(
                path.len() - 1,
                Segment::Declaration((seg_idx(path.last()) + 1) as usize),
            ),
        ) + 2 == stack_weight(types, path),
{
    let n = path.len() as int;
    let tv = types[seg_type(path[n - 2]) as int];
    let i = seg_idx(path[n - 1]);
    let q2 = path.update(n - 1, Segment::Declaration((i + 1) as usize));
    assert(stack_pos_wf(types, path, n - 1));
    assert((n - 1) % 3 == 1);
    assert(i < tv.decls.len());
    assert(tv.decls.len() <= usize::MAX) by {
        assert(stack_pos_wf(types, path, n - 2));
    }
    assert forall|p: int| 0 <= p < q2.len() implies stack_pos_wf(types, q2, p) by {
        assert(stack_pos_wf(types, path, p));
        if p < n - 1 {
            assert(q2[p] == path[p]);
            if p % 3 == 1 {
                assert(q2[p - 1] == path[p - 1]);
                assert(p + 1 < n - 1 || p + 1 == n - 1);
            }
            if p % 3 == 2 {
                assert(q2[p - 1] == path[p - 1]);
                assert(q2[p - 2] == path[p - 2]);
                if p + 1 < q2.len() {
                    assert(q2[p + 1] == path[p + 1]);
                }
            }
        } else {
            assert(q2[p - 1] == path[p - 1]);
        }
    }
    lemma_prefix_congruence(types, path, q2, n - 1);
    assert(decl_tail_weight(tv, i as int) == 2 + 2 * tv.decls[i as int].deps.len()
        + decl_tail_weight(tv, i + 1));
    assert(seg_weight(types, path, n - 1, true) == 1 + decl_tail_weight(tv, i as int));
    assert(seg_weight(types, q2, n - 1, true) == 1 + decl_tail_weight(tv, i + 1));
}

/// Advancing the top dependency segment past an already visited target: the
/// stack weight drops by two.
pub proof fn lemma_next_dep(types: Seq<TypeView>, path: Seq<Segment>)
    requires
        stack_wf(types, path),
        types_bounded(types),
        path.len() > 0,
        path.last() is Dependency,
        seg_idx(path.last()) < types[seg_type(path[path.len() - 3]) as int].decls[seg_idx(
            path[path.len() - 2],
        ) as int].deps.len(),
    ensures
        stack_wf(
            types,
            path.update(path.len() - 1, Segment::Dependency((seg_idx(path.last()) + 1) as usize)),
        ),
        stack_weight(
            types,
            path.update(path.len() - 1, Segment::Dependency((seg_idx(path.last()) + 1) as usize)),
        ) + 2 == stack_weight(types, path),
{
    let n = path.len() as int;
    let tv = types[seg_type(path[n - 3]) as int];
    let dv = tv.decls[seg_idx(path[n - 2]) as int];
    let j = seg_idx(path[n - 1]);
    let dn = dv.deps.len();
    let q2 = path.update(n - 1, Segment::Dependency((j + 1) as usize));
    assert(stack_pos_wf(types, path, n - 1));
    assert((n - 1) % 3 == 2);
    assert(n >= 3);
    assert(dn <= usize::MAX) by {
        assert(stack_pos_wf(types, path, n - 3));
        let t = seg_type(path[n - 3]);
        assert(types[t as int].decls.len() <= usize::MAX);
    }
    assert forall|p: int| 0 <= p < q2.len() implies stack_pos_wf(types, q2, p) by {
        assert(stack_pos_wf(types, path, p));
        if p < n - 1 {
            assert(q2[p] == path[p]);
            if p % 3 == 1 {
                assert(q2[p - 1] == path[p - 1]);
            }
            if p % 3 == 2 {
                assert(q2[p - 1] == path[p - 1]);
                assert(q2[p - 2] == path[p - 2]);
                if p + 1 < n - 1 {
                    assert(q2[p + 1] == path[p + 1]);
                }
            }
        } else {
            assert(q2[p - 1] == path[p - 1]);
            assert(q2[p - 2] == path[p - 2]);
        }
    }
    lemma_prefix_congruence(types, path, q2, n - 1);
    assert(seg_weight(types, path, n - 1, true) == (1 + 2 * (dn - j)) as nat);
    assert(seg_weight(types, q2, n - 1, true) == (1 + 2 * (dn - (j + 1))) as nat);
}

/// Backtracking out of an exhausted dependency list: its declaration is
/// finished and the enclosing type advances to the next declaration; the
/// stack weight drops by one.
pub proof fn lemma_finish_decl(types: Seq<TypeView>, path: Seq<Segment>)
    requires
        stack_wf(types, path),
        types_bounded(types),
        path.len() > 0,
        path.last() is Dependency,
        seg_idx(path.last()) >= types[seg_type(path[path.len() - 3]) as int].decls[seg_idx(
            path[path.len() - 2],
        ) as int].deps.len(),
    ensures
        stack_wf(
            types,
            path.drop_last().drop_last().push(
                Segment::Declaration((seg_idx(path[path.len() - 2]) + 1) as usize),
            ),
        ),
        stack_weight(
            types,
            path.drop_last().drop_last().push(
                Segment::Declaration((seg_idx(path[path.len() - 2]) + 1) as usize),
            ),
        ) + 1 == stack_weight(types, path),
{
    let n = path.len() as int;
    let tv = types[seg_type(path[n - 3]) as int];
    let k = seg_idx(path[n - 2]);
    let dv = tv.decls[k as int];
    let j = seg_idx(path[n - 1]);
    let q2 = path.drop_last().drop_last().push(Segment::Declaration((k + 1) as usize));
    assert(stack_pos_wf(types, path, n - 1));
    assert((n - 1) % 3 == 2);
    assert(n >= 3);
    assert(stack_pos_wf(types, path, n - 2));
    assert(j == dv.deps.len());
    assert(k < tv.decls.len());
    assert(tv.decls.len() <= usize::MAX) by {
        assert(stack_pos_wf(types, path, n - 3));
    }
    assert(q2.len() == n - 1);
    assert forall|p: int| 0 <= p < q2.len() implies stack_pos_wf(types, q2, p) by {
        assert(stack_pos_wf(types, path, p));
        if p < n - 2 {
            assert(q2[p] == path[p]);
            if p % 3 == 1 {
                assert(q2[p - 1] == path[p - 1]);
            }
            if p % 3 == 2 {
                assert(q2[p - 1] == path[p - 1]);
                assert(q2[p - 2] == path[p - 2]);
                if p + 1 < q2.len() {
                    assert(q2[p + 1] == path[p + 1]);
                }
            }
        } else {
            assert(p == n - 2);
            assert(p % 3 == 1);
            assert(q2[p - 1] == path[p - 1]);
        }
    }
    lemma_prefix_congruence(types, path, q2, n - 2);
    assert(stack_prefix_weight(types, path, n - 1) == stack_prefix_weight(types, path, n - 2)
        + seg_weight(types, path, n - 2, false));
    assert(seg_weight(types, path, n - 2, false) == 1 + decl_tail_weight(tv, k + 1));
    assert(seg_weight(types, path, n - 1, true) == 1) by {
        assert(j == dv.deps.len());
    }
    assert(seg_weight(types, q2, n - 2, true) == 1 + decl_tail_weight(tv, k + 1));
}

/// The set of type ids marked in the cursor's visited table.
pub open spec fn visited_set(v: Seq<bool>) -> Set<usize> {
    Set::new(|t: usize| t < v.len() && v[t as int])
}

/// A stateful search through the index's type graph.
///
/// The walk never follows a back edge into a type entered earlier in the
/// same walk, but a type reached again over a path that has not yet crossed
/// the visited marker may still be expanded once more.
#[derive(Debug)]
pub struct IndexCursor {
    /// Path in the graph from the entry point.
    pub path: Vec<Segment>,
    /// One mark per type id of the index; set once a type has been entered.
    pub visited: Vec<bool>,
}

impl IndexCursor {
    /// The cursor fits the index it was created from.
    pub open spec fn wf(self, index: Index) -> bool {
        &&& self.visited@.len() == index@.types.len()
        &&& types_bounded(index@.types)
        &&& stack_wf(index@.types, self.path@)
        &&& inner_types_visited(self.path@, visited_set(self.visited@))
    }

    /// The items this cursor will still produce, in order.
    pub open spec fn remaining(self, index: Index) -> Seq<(ItemView, int)> {
        walk_items(index@.types, self.path@, visited_set(self.visited@))
    }

    /// A fresh cursor rooted at a type of the index.
    pub fn new(index: &Index, type_id: TypeId) -> (c: IndexCursor)
        requires
            index@.wf(),
            type_id < index@.types.len(),
        ensures
            c.wf(*index),
            c.path@ == seq![Segment::Type(type_id)],
            visited_set(c.visited@) == Set::<usize>::empty(),
    {
        let n = index.type_count();
        let mut path: Vec<Segment> = Vec::new();
        path.push(Segment::Type(type_id));
        let mut visited: Vec<bool> = Vec::new();
        let mut k: usize = 0;
        while k < n
            invariant
                k <= n,
                visited@.len() == k,
                forall|t: int| 0 <= t < k ==> !visited@[t],
            decreases n - k,
        {
            visited.push(false);
            k += 1;
        }
        let c = IndexCursor { path, visited };
        proof {
            index.lemma_types_bounded();
            assert(c.path@ =~= seq![Segment::Type(type_id)]);
            assert(visited_set(c.visited@) =~= Set::<usize>::empty());
            assert forall|p: int| 0 <= p < c.path@.len() implies stack_pos_wf(
                index@.types,
                c.path@,
                p,
            ) by {
                assert(p == 0);
            }
        }
        c
    }

    /// Pop the finished or pruned type segment on top and advance the
    /// dependency segment underneath, if any, to its next edge.
    fn pop_and_advance(&mut self, index: &Index)
        requires
            types_bounded(index@.types),
            stack_wf(index@.types, old(self).path@),
            old(self).path@.len() > 0,
            old(self).path@.last() is Type,
        ensures
            final(self).path@ == pop_advance(old(self).path@),
            final(self).visited == old(self).visited,
    {
        let ghost types = index@.types;
        let ghost path0 = self.path@;
        let _ = self.path.pop();
        let m = self.path.len();
        if m > 0 {
            let below = self.path[m - 1];
            if let Segment::Dependency(j) = below {
                proof {
                    assert(stack_pos_wf(types, path0, m as int));
                    assert((m as int) % 3 == 0);
                    assert((m - 1) % 3 == 2);
                    assert(m >= 3);
                    assert(stack_pos_wf(types, path0, m - 1));
                    assert(stack_pos_wf(types, path0, m - 3));
                    let t = seg_type(path0[m - 3]);
                    let i = seg_idx(path0[m - 2]);
                    assert(j < types[t as int].decls[i as int].deps.len());
                    assert(types[t as int].decls.len() <= usize::MAX);
                    assert(types[t as int].decls[i as int].deps.len() <= usize::MAX);
                }
                self.path[m - 1] = Segment::Dependency(j + 1);
            }
        }
        proof {
            assert(self.path@ =~= pop_advance(path0));
        }
    }

    /// Produce the next item of the walk and the depth it stands at, or
    /// `None` once the walk is exhausted.
    ///
    /// Each call performs any number of internal bookkeeping transitions
    /// (pruned back-edges, exhausted lists) and then emits exactly the head
    /// of [`IndexCursor::remaining`] as it stood before the call.
    #[verifier::loop_isolation(false)]
    #[verifier::rlimit(100)]
    pub fn next_item(&mut self, index: &Index) -> (r: Option<(IndexItem, usize)>)
        requires
            index@.wf(),
            old(self).wf(*index),
        ensures
            final(self).wf(*index),
            visited_set(old(self).visited@).subset_of(visited_set(final(self).visited@)),
            match r {
                None => old(self).remaining(*index).len() == 0 && final(self).remaining(
                    *index,
                ).len() == 0,
                Some(x) => old(self).remaining(*index).len() > 0 && old(self).remaining(
                    *index,
                ).first() == (item_view(x.0), x.1 as int) && final(self).remaining(*index)
                    == old(self).remaining(*index).drop_first(),
            },
    {
        let ghost types = index@.types;
        let ghost rem0 = self.remaining(*index);
        let ghost vis0 = visited_set(self.visited@);
        loop
            invariant
                index@.wf(),
                self.wf(*index),
                self.remaining(*index) == rem0,
                vis0.subset_of(visited_set(self.visited@)),
                rem0 == old(self).remaining(*index),
                vis0 == visited_set(old(self).visited@),
            decreases walk_measure(types, self.path@, visited_set(self.visited@)),
        {
            if self.path.len() == 0 {
                return None;
            }
            let depth = self.path.len() - 1;
            let ghost pre = *self;
            let ghost vis = visited_set(self.visited@);
            proof {
                assert(stack_wf(types, self.path@));
                assert(stack_pos_wf(types, self.path@, depth as int));
                assert(pre.path@ == self.path@);
                assert(stack_pos_wf(types, pre.path@, depth as int));
            }
            let top = self.path[depth];
            match top {
                Segment::Type(t) => {
                    if self.visited[t] {
                        // A pruned back-edge: drop it and move on.
                        proof {
                            lemma_pop_type(types, pre.path@);
                        }
                        self.pop_and_advance(index);
                        proof {
                            assert(inner_types_visited(self.path@, vis)) by {
                                lemma_inner_prefix(pre.path@, self.path@, vis);
                            }
                        }
                    } else {
                        // Enter the type: mark it and emit it.
                        self.visited[t] = true;
                        proof {
                            assert(visited_set(self.visited@) =~= vis.insert(t));
                        }
                        let type_ref = index.get_type(t).unwrap();
                        let name = type_ref.name.clone();
                        let origin = type_ref.origin();
                        let item = IndexItem::Type(t, name, origin);
                        proof {
                            assert(type_view(*type_ref) == types[t as int]);
                            assert(item_view(item) == ItemView::Type(
                                t,
                                types[t as int].name,
                                origin_of(types[t as int]),
                            ));
                        }
                        if type_ref.declarations.len() > 0 {
                            self.path.push(Segment::Declaration(0));
                            proof {
                                lemma_push_decl(types, pre.path@);
                                assert(self.path@ == pre.path@.push(Segment::Declaration(0)));
                                assert(inner_types_visited(self.path@, visited_set(self.visited@)))
                                    by {
                                    assert forall|p2: int|
                                        0 <= p2 < self.path@.len() - 1 && p2 % 3 == 0 implies
                                        visited_set(self.visited@).contains(
                                            seg_type(#[trigger] self.path@[p2]),
                                        ) by {
                                        if p2 < pre.path@.len() - 1 {
                                            assert(vis.contains(seg_type(pre.path@[p2])));
                                        } else {
                                            assert(p2 == pre.path@.len() - 1);
                                            assert(seg_type(self.path@[p2]) == t);
                                        }
                                    }
                                }
                                assert(rem0 == seq![(item_view(item), depth as int)]
                                    + self.remaining(*index));
                                assert(self.remaining(*index) =~= rem0.drop_first());
                            }
                            return Some((item, depth));
                        } else {
                            // A declaration-less type is a leaf.
                            proof {
                                lemma_pop_type(types, pre.path@);
                            }
                            self.pop_and_advance(index);
                            proof {
                                assert(inner_types_visited(self.path@, visited_set(self.visited@)))
                                    by {
                                    assert forall|p2: int|
                                        0 <= p2 < pre.path@.len() - 1 && p2 % 3 == 0 implies
                                        visited_set(self.visited@).contains(
                                            seg_type(#[trigger] pre.path@[p2]),
                                        ) by {
                                        assert(vis.contains(seg_type(pre.path@[p2])));
                                    }
                                    lemma_inner_prefix(pre.path@, self.path@, visited_set(self.visited@));
                                }
                                assert(rem0 == seq![(item_view(item), depth as int)]
                                    + self.remaining(*index));
                                assert(self.remaining(*index) =~= rem0.drop_first());
                            }
                            return Some((item, depth));
                        }
                    }
                }
                Segment::Declaration(i) => {
                    proof {
                        assert((depth as int) % 3 == 1);
                        assert(stack_pos_wf(types, pre.path@, depth - 1));
                    }
                    let below = self.path[depth - 1];
                    let t = match below {
                        Segment::Type(tt) => tt,
                        _ => vstd::pervasive::unreached(),
                    };
                    let type_ref = index.get_type(t).unwrap();
                    if i >= type_ref.declarations.len() {
                        // The declaration list has run out; backtrack.
                        let _ = self.path.pop();
                        proof {
                            lemma_pop_decl(types, pre.path@);
                            assert(self.path@ =~= pre.path@.drop_last());
                            lemma_inner_prefix(pre.path@, self.path@, vis);
                        }
                    } else {
                        let declaration = type_ref.declarations[i].duplicate();
                        let item = IndexItem::Declaration(declaration);
                        proof {
                            assert(type_view(*type_ref) == types[t as int]);
                            assert(item_view(item) == ItemView::Declaration(
                                types[t as int].decls[i as int],
                            ));
                        }
                        let has_deps = type_ref.declarations[i].dependencies.len() > 0;
                        if has_deps {
                            self.path.push(Segment::Dependency(0));
                            proof {
                                lemma_push_dep(types, pre.path@);
                                assert(self.path@ == pre.path@.push(Segment::Dependency(0)));
                                lemma_inner_grow(pre.path@, self.path@, vis);
                                assert(rem0 == seq![(item_view(item), depth as int)]
                                    + self.remaining(*index));
                                assert(self.remaining(*index) =~= rem0.drop_first());
                            }
                            return Some((item, depth));
                        } else if i + 1 < type_ref.declarations.len() {
                            self.path[depth] = Segment::Declaration(i + 1);
                            proof {
                                lemma_next_decl(types, pre.path@);
                                assert(self.path@ == pre.path@.update(
                                    depth as int,
                                    Segment::Declaration((i + 1) as usize),
                                ));
                                lemma_inner_update_top(pre.path@, self.path@, vis);
                                assert(rem0 == seq![(item_view(item), depth as int)]
                                    + self.remaining(*index));
                                assert(self.remaining(*index) =~= rem0.drop_first());
                            }
                            return Some((item, depth));
                        } else {
                            let _ = self.path.pop();
                            proof {
                                lemma_pop_decl(types, pre.path@);
                                assert(self.path@ =~= pre.path@.drop_last());
                                lemma_inner_prefix(pre.path@, self.path@, vis);
                                assert(rem0 == seq![(item_view(item), depth as int)]
                                    + self.remaining(*index));
                                assert(self.remaining(*index) =~= rem0.drop_first());
                            }
                            return Some((item, depth));
                        }
                    }
                }
                Segment::Dependency(j) => {
                    proof {
                        assert((depth as int) % 3 == 2);
                        assert(stack_pos_wf(types, pre.path@, depth - 1));
                        assert(stack_pos_wf(types, pre.path@, depth - 2));
                    }
                    let decl_seg = self.path[depth - 1];
                    let k = match decl_seg {
                        Segment::Declaration(kk) => kk,
                        _ => vstd::pervasive::unreached(),
                    };
                    let type_seg = self.path[depth - 2];
                    let t = match type_seg {
                        Segment::Type(tt) => tt,
                        _ => vstd::pervasive::unreached(),
                    };
                    let type_ref = index.get_type(t).unwrap();
                    proof {
                        assert(type_view(*type_ref) == types[t as int]);
                    }
                    if j >= type_ref.declarations[k].dependencies.len() {
                        // This declaration's dependencies are finished: its
                        // type moves on to the next declaration.
                        let _ = self.path.pop();
                        let _ = self.path.pop();
                        self.path.push(Segment::Declaration(k + 1));
                        proof {
                            lemma_finish_decl(types, pre.path@);
                            assert(self.path@ =~= pre.path@.drop_last().drop_last().push(
                                Segment::Declaration((k + 1) as usize),
                            ));
                            lemma_inner_prefix(pre.path@, self.path@, vis);
                        }
                    } else {
                        let edge = type_ref.declarations[k].dependencies[j];
                        let target = edge.0;
                        proof {
                            assert(index@.types_wf());
                            assert(types[t as int].wf(
                                types.len() as int,
                                index@.files.len() as int,
                            ));
                            assert(types[t as int].decls[k as int].wf(
                                types.len() as int,
                                index@.files.len() as int,
                            ));
                            assert(edge == types[t as int].decls[k as int].deps[j as int]);
                            assert(target < types.len());
                        }
                        let target_ref = index.get_type(target).unwrap();
                        let target_name = target_ref.name.clone();
                        let item = IndexItem::Dependency(target, target_name, edge.1);
                        proof {
                            assert(type_view(*target_ref) == types[target as int]);
                            assert(item_view(item) == ItemView::Dependency(
                                target,
                                types[target as int].name,
                                types[t as int].decls[k as int].deps[j as int].1,
                            ));
                        }
                        if !self.visited[target] {
                            // Expand the target on the next pull.
                            self.path.push(Segment::Type(target));
                            proof {
                                lemma_push_type(types, pre.path@, target);
                                assert(self.path@ == pre.path@.push(Segment::Type(target)));
                                lemma_inner_grow(pre.path@, self.path@, vis);
                                assert(rem0 == seq![(item_view(item), depth as int)]
                                    + self.remaining(*index));
                                assert(self.remaining(*index) =~= rem0.drop_first());
                            }
                            return Some((item, depth));
                        } else {
                            // A pruned back-edge: report it, skip its subtree.
                            self.path[depth] = Segment::Dependency(j + 1);
                            proof {
                                lemma_next_dep(types, pre.path@);
                                assert(self.path@ == pre.path@.update(
                                    depth as int,
                                    Segment::Dependency((j + 1) as usize),
                                ));
                                lemma_inner_update_top(pre.path@, self.path@, vis);
                                assert(rem0 == seq![(item_view(item), depth as int)]
                                    + self.remaining(*index));
                                assert(self.remaining(*index) =~= rem0.drop_first());
                            }
                            return Some((item, depth));
                        }
                    }
                }
            }
        }
    }
}

/// A stack that keeps a prefix of the covered segments keeps the covered
/// types entered.
pub proof fn lemma_inner_prefix(path: Seq<Segment>, q: Seq<Segment>, visited: Set<usize>)
    requires
        inner_types_visited(path, visited),
        q.len() < path.len(),
        forall|p: int| 0 <= p < q.len() - 1 ==> q[p] == path[p],
    ensures
        inner_types_visited(q, visited),
{
    assert forall|p: int| 0 <= p < q.len() - 1 && p % 3 == 0 implies visited.contains(
        seg_type(#[trigger] q[p]),
    ) by {
        assert(q[p] == path[p]);
        assert(visited.contains(seg_type(path[p])));
    }
}

/// Pushing a non-type segment on top keeps the covered types entered, since
/// the old top was not a type segment or was just entered.
pub proof fn lemma_inner_grow(path: Seq<Segment>, q: Seq<Segment>, visited: Set<usize>)
    requires
        inner_types_visited(path, visited),
        q.len() == path.len() + 1,
        forall|p: int| 0 <= p < path.len() ==> q[p] == path[p],
        path.len() > 0,
        (path.len() - 1) % 3 != 0,
    ensures
        inner_types_visited(q, visited),
{
    assert forall|p: int| 0 <= p < q.len() - 1 && p % 3 == 0 implies visited.contains(
        seg_type(#[trigger] q[p]),
    ) by {
        assert(p < path.len() - 1);
        assert(q[p] == path[p]);
        assert(visited.contains(seg_type(path[p])));
    }
}

/// Replacing the top segment with another non-type segment keeps the covered
/// types entered.
pub proof fn lemma_inner_update_top(path: Seq<Segment>, q: Seq<Segment>, visited: Set<usize>)
    requires
        inner_types_visited(path, visited),
        q.len() == path.len(),
        forall|p: int| 0 <= p < path.len() - 1 ==> q[p] == path[p],
    ensures
        inner_types_visited(q, visited),
{
    assert forall|p: int| 0 <= p < q.len() - 1 && p % 3 == 0 implies visited.contains(
        seg_type(#[trigger] q[p]),
    ) by {
        assert(q[p] == path[p]);
        assert(visited.contains(seg_type(path[p])));
    }
}

} // verus!
