//! Mapping an object's dependencies into the address space it is loaded into: each mapping of
//! each object it depends on, directly or through others, once.

use vstd::prelude::*;

use crate::paging::{PageRange, PageTableFlags};

verus! {

/// One of an object's mappings: where it lies among the kernel's mappings, its pages, and the
/// flags it is mapped with.
#[derive(Clone, Copy, Debug, PartialEq, Eq, Structural)]
pub struct ObjectMapping {
    pub addr: u64,
    pub pages: PageRange,
    pub flags: PageTableFlags,
}

/// An object as its dependents see it: its mappings, and the objects it depends on, by number.
#[derive(Debug)]
pub struct DependencyNode {
    pub executable: Option<ObjectMapping>,
    pub read_only: Option<ObjectMapping>,
    pub read_write: Option<ObjectMapping>,
    pub dependencies: Vec<usize>,
}

/// An object's mappings that exist: the executable one, the read-only one and the writable
/// one, in that order.
pub open spec fn own_mappings(node: DependencyNode) -> Seq<ObjectMapping> {
    (match node.executable {
        Some(m) => seq![m],
        None => Seq::empty(),
    }) + (match node.read_only {
        Some(m) => seq![m],
        None => Seq::empty(),
    }) + (match node.read_write {
        Some(m) => seq![m],
        None => Seq::empty(),
    })
}

/// The mappings of `ms` not yet mapped, each taken in turn, and what is mapped after them.
pub open spec fn plan_own(ms: Seq<ObjectMapping>, mapped: Set<u64>) -> (Seq<ObjectMapping>, Set<u64>)
    decreases ms.len(),
{
    if ms.len() == 0 {
        (Seq::empty(), mapped)
    } else {
        let (before, m) = plan_own(ms.drop_last(), mapped);
        let last = ms.last();
        if m.contains(last.addr) {
            (before, m)
        } else {
            (before.push(last), m.insert(last.addr))
        }
    }
}

/// The mappings to map for the object `d` and, in turn, every object it depends on, with at
/// most `fuel` levels, and what is mapped after them.
pub open spec fn plan_object(
    g: Seq<DependencyNode>,
    d: int,
    mapped: Set<u64>,
    fuel: nat,
) -> (Seq<ObjectMapping>, Set<u64>)
    decreases fuel, 0int, 0int,
{
    if fuel == 0 || !(0 <= d < g.len()) {
        (Seq::empty(), mapped)
    } else {
        let (own, m1) = plan_own(own_mappings(g[d]), mapped);
        let (rest, m2) = plan_list(g, g[d].dependencies@, 0, m1, (fuel - 1) as nat);
        (own + rest, m2)
    }
}

/// The mappings to map for the objects `deps` from `i` on, in turn.
pub open spec fn plan_list(
    g: Seq<DependencyNode>,
    deps: Seq<usize>,
    i: int,
    mapped: Set<u64>,
    fuel: nat,
) -> (Seq<ObjectMapping>, Set<u64>)
    decreases fuel, 1int, deps.len() - i,
{
    if i < 0 || i >= deps.len() {
        (Seq::empty(), mapped)
    } else {
        let (first, m1) = plan_object(g, deps[i] as int, mapped, fuel);
        let (rest, m2) = plan_list(g, deps, i + 1, m1, fuel);
        (first + rest, m2)
    }
}

/// Whether `target` is `d` or an object that `d` depends on, within `fuel` levels.
pub open spec fn reaches(g: Seq<DependencyNode>, d: int, target: int, fuel: nat) -> bool
    decreases fuel,
{
    fuel > 0 && 0 <= d < g.len() && (d == target || exists|i: int|
        0 <= i < g[d].dependencies@.len() && reaches(
            g,
            #[trigger] g[d].dependencies@[i] as int,
            target,
            (fuel - 1) as nat,
        ))
}

/// Every object depends only on objects of a lower rank, and every rank is below the number
/// of objects: no object depends on itself, directly or through others.
pub open spec fn ranked(g: Seq<DependencyNode>, rank: Seq<nat>) -> bool {
    &&& rank.len() == g.len()
    &&& forall|d: int| 0 <= d < g.len() ==> #[trigger] rank[d] < g.len()
    &&& forall|d: int, i: int|
        0 <= d < g.len() && 0 <= i < g[d].dependencies@.len() ==> (#[trigger] g[d].dependencies@[i])
            < g.len() && rank[g[d].dependencies@[i] as int] < rank[d]
}

/// Whether `mapped` holds each address once.
pub open spec fn no_repeats(mapped: Seq<u64>) -> bool {
    forall|i: int, j: int| 0 <= i < j < mapped.len() ==> mapped[i] != mapped[j]
}

/// Whether `addr` is among `mapped`.
fn holds(mapped: &Vec<u64>, addr: u64) -> (r: bool)
    ensures
        r == mapped@.to_set().contains(addr),
{
    let mut i: usize = 0;
    while i < mapped.len()
        invariant
            i <= mapped@.len(),
            forall|j: int| 0 <= j < i ==> mapped@[j] != addr,
        decreases mapped@.len() - i,
    {
        if mapped[i] == addr {
            assert(mapped@.to_set().contains(mapped@[i as int]));
            return true;
        }
        i = i + 1;
    }
    assert(!mapped@.to_set().contains(addr)) by {
        if mapped@.to_set().contains(addr) {
            let j = choose|j: int| 0 <= j < mapped@.len() && mapped@[j] == addr;
        }
    }
    false
}

/// Takes `m` if it is not mapped yet.
fn take_mapping(m: Option<ObjectMapping>, mapped: &mut Vec<u64>, out: &mut Vec<ObjectMapping>)
    requires
        no_repeats(old(mapped)@),
    ensures
        no_repeats(final(mapped)@),
        ({
            let ms = match m {
                Some(x) => seq![x],
                None => Seq::<ObjectMapping>::empty(),
            };
            let (own, after) = plan_own(ms, old(mapped)@.to_set());
            final(out)@ == old(out)@ + own && final(mapped)@.to_set() == after
        }),
{
    match m {
        Some(x) => {
            let ghost s0 = mapped@.to_set();
            proof {
                assert(seq![x].drop_last() =~= Seq::<ObjectMapping>::empty());
                assert(seq![x].last() == x);
                assert(plan_own(Seq::<ObjectMapping>::empty(), s0) == (Seq::<ObjectMapping>::empty(), s0));
            }
            if !holds(mapped, x.addr) {
                let ghost before = mapped@;
                mapped.push(x.addr);
                out.push(x);
                proof {
                    before.lemma_push_to_set_commute(x.addr);
                    assert(mapped@ == before.push(x.addr));
                    assert(Seq::<ObjectMapping>::empty().push(x) =~= seq![x]);
                    assert(out@ =~= old(out)@ + seq![x]);
                    assert forall|i: int, j: int| 0 <= i < j < mapped@.len() implies mapped@[i] != mapped@[j] by {
                        if j == mapped@.len() - 1 {
                            assert(before.to_set().contains(before[i]));
                        }
                    }
                }
            } else {
                proof {
                    assert(out@ =~= old(out)@ + Seq::<ObjectMapping>::empty());
                }
            }
        },
        None => {
            proof {
                assert(out@ =~= old(out)@ + Seq::<ObjectMapping>::empty());
            }
        },
    }
}

proof fn lemma_plan_own_split(
    a: Option<ObjectMapping>,
    b: Option<ObjectMapping>,
    c: Option<ObjectMapping>,
    mapped: Set<u64>,
)
    ensures
        ({
            let sa = match a { Some(x) => seq![x], None => Seq::<ObjectMapping>::empty() };
            let sb = match b { Some(x) => seq![x], None => Seq::<ObjectMapping>::empty() };
            let sc = match c { Some(x) => seq![x], None => Seq::<ObjectMapping>::empty() };
            let (oa, ma) = plan_own(sa, mapped);
            let (ob, mb) = plan_own(sb, ma);
            let (oc, mc) = plan_own(sc, mb);
            plan_own(sa + sb + sc, mapped) == (oa + ob + oc, mc)
        }),
{
    let sa = match a { Some(x) => seq![x], None => Seq::<ObjectMapping>::empty() };
    let sb = match b { Some(x) => seq![x], None => Seq::<ObjectMapping>::empty() };
    let sc = match c { Some(x) => seq![x], None => Seq::<ObjectMapping>::empty() };
    lemma_plan_own_append(sa, sb, mapped);
    lemma_plan_own_append(sa + sb, sc, mapped);
    let (oa, ma) = plan_own(sa, mapped);
    let (ob, mb) = plan_own(sb, ma);
    lemma_plan_own_append(sa, sb, mapped);
    assert(plan_own(sa + sb, mapped) == (oa + ob, mb));
    assert(oa + ob + plan_own(sc, mb).0 == (oa + ob) + plan_own(sc, mb).0);
}

proof fn lemma_plan_own_append(s: Seq<ObjectMapping>, t: Seq<ObjectMapping>, mapped: Set<u64>)
    ensures
        ({
            let (os, ms) = plan_own(s, mapped);
            let (ot, mt) = plan_own(t, ms);
            plan_own(s + t, mapped) == (os + ot, mt)
        }),
    decreases t.len(),
{
    if t.len() == 0 {
        assert(s + t =~= s);
        let (os, ms) = plan_own(s, mapped);
        assert(os + Seq::<ObjectMapping>::empty() =~= os);
    } else {
        lemma_plan_own_append(s, t.drop_last(), mapped);
        assert((s + t).drop_last() =~= s + t.drop_last());
        assert((s + t).last() == t.last());
        let (os, ms) = plan_own(s, mapped);
        let (ot0, mt0) = plan_own(t.drop_last(), ms);
        assert(os + ot0.push(t.last()) =~= (os + ot0).push(t.last()));
    }
}

/// Appends the mappings to map for object `d` and every object it depends on to `out`,
/// recording their addresses in `mapped`.
fn map_object(
    g: &[DependencyNode],
    object: usize,
    d: usize,
    mapped: &mut Vec<u64>,
    out: &mut Vec<ObjectMapping>,
    Ghost(rank): Ghost<Seq<nat>>,
    Ghost(fuel): Ghost<nat>,
)
    requires
        ranked(g@, rank),
        d < g@.len(),
        fuel > rank[d as int],
        !reaches(g@, d as int, object as int, fuel),
        no_repeats(old(mapped)@),
    ensures
        no_repeats(final(mapped)@),
        final(out)@ == old(out)@ + plan_object(g@, d as int, old(mapped)@.to_set(), fuel).0,
        final(mapped)@.to_set() == plan_object(g@, d as int, old(mapped)@.to_set(), fuel).1,
    decreases fuel, 0nat,
{
    let ghost start_out = out@;
    let ghost start_mapped = mapped@.to_set();
    let node = &g[d];
    take_mapping(node.executable, mapped, out);
    take_mapping(node.read_only, mapped, out);
    take_mapping(node.read_write, mapped, out);
    let ghost own_out = out@;
    let ghost m1 = mapped@.to_set();
    proof {
        lemma_plan_own_split(node.executable, node.read_only, node.read_write, start_mapped);
        assert(own_mappings(*node) == (match node.executable { Some(x) => seq![x], None => Seq::<ObjectMapping>::empty() })
            + (match node.read_only { Some(x) => seq![x], None => Seq::<ObjectMapping>::empty() })
            + (match node.read_write { Some(x) => seq![x], None => Seq::<ObjectMapping>::empty() }));
        assert(own_out =~= start_out + plan_own(own_mappings(g@[d as int]), start_mapped).0);
        assert(m1 == plan_own(own_mappings(g@[d as int]), start_mapped).1);
        assert forall|i: int| 0 <= i < node.dependencies@.len() implies
            (#[trigger] node.dependencies@[i]) < g@.len()
            && rank[node.dependencies@[i] as int] < (fuel - 1) as nat
            && !reaches(g@, node.dependencies@[i] as int, object as int, (fuel - 1) as nat) by {
            assert(g@[d as int].dependencies@[i] < g@.len());
        }
    }
    map_list(g, object, &node.dependencies, mapped, out, Ghost(rank), Ghost((fuel - 1) as nat));
    proof {
        assert(out@ =~= start_out + plan_object(g@, d as int, start_mapped, fuel).0);
    }
}

/// Appends the mappings to map for each of the objects `deps`, in turn, and the objects they
/// depend on, to `out`, recording their addresses in `mapped`.
fn map_list(
    g: &[DependencyNode],
    object: usize,
    deps: &Vec<usize>,
    mapped: &mut Vec<u64>,
    out: &mut Vec<ObjectMapping>,
    Ghost(rank): Ghost<Seq<nat>>,
    Ghost(fuel): Ghost<nat>,
)
    requires
        ranked(g@, rank),
        forall|i: int| 0 <= i < deps@.len() ==> (#[trigger] deps@[i]) < g@.len()
            && rank[deps@[i] as int] < fuel
            && !reaches(g@, deps@[i] as int, object as int, fuel),
        no_repeats(old(mapped)@),
    ensures
        no_repeats(final(mapped)@),
        final(out)@ == old(out)@ + plan_list(g@, deps@, 0, old(mapped)@.to_set(), fuel).0,
        final(mapped)@.to_set() == plan_list(g@, deps@, 0, old(mapped)@.to_set(), fuel).1,
    decreases fuel, 1nat,
{
    let ghost start_out = out@;
    let ghost m0 = mapped@.to_set();
    let mut i: usize = 0;
    while i < deps.len()
        invariant
            ranked(g@, rank),
            forall|k: int| 0 <= k < deps@.len() ==> (#[trigger] deps@[k]) < g@.len()
                && rank[deps@[k] as int] < fuel
                && !reaches(g@, deps@[k] as int, object as int, fuel),
            i <= deps@.len(),
            no_repeats(mapped@),
            start_out.len() <= out@.len(),
            out@.take(start_out.len() as int) == start_out,
            plan_list(g@, deps@, 0, m0, fuel).0
                == out@.skip(start_out.len() as int) + plan_list(g@, deps@, i as int, mapped@.to_set(), fuel).0,
            plan_list(g@, deps@, 0, m0, fuel).1 == plan_list(g@, deps@, i as int, mapped@.to_set(), fuel).1,
        decreases deps@.len() - i,
    {
        let dep = deps[i];
        let ghost before_out = out@;
        let ghost before_mapped = mapped@.to_set();
        map_object(g, object, dep, mapped, out, Ghost(rank), Ghost(fuel));
        proof {
            let first = plan_object(g@, dep as int, before_mapped, fuel).0;
            let rest = plan_list(g@, deps@, i + 1, mapped@.to_set(), fuel).0;
            assert(plan_list(g@, deps@, i as int, before_mapped, fuel).0 == first + rest);
            assert(out@.skip(start_out.len() as int) =~= before_out.skip(start_out.len() as int) + first);
            assert(out@.take(start_out.len() as int) =~= before_out.take(start_out.len() as int));
        }
        i = i + 1;
    }
    proof {
        assert(plan_list(g@, deps@, i as int, mapped@.to_set(), fuel).0 =~= Seq::<ObjectMapping>::empty());
        assert(out@ =~= out@.take(start_out.len() as int) + out@.skip(start_out.len() as int));
    }
}

/// The mappings of `dependency` and of every object it depends on, directly or through
/// others, that are not mapped yet, each once, in the order they are met; `mapped` then
/// holds their addresses too. `object`, the object they are mapped for, must not be among
/// them.
pub fn map_dependency_sections(
    graph: &[DependencyNode],
    object: usize,
    dependency: usize,
    mapped: &mut Vec<u64>,
) -> (r: Vec<ObjectMapping>)
    requires
        exists|rank: Seq<nat>| ranked(graph@, rank),
        dependency < graph@.len(),
        !reaches(graph@, dependency as int, object as int, graph@.len() as nat),
        no_repeats(old(mapped)@),
    ensures
        no_repeats(final(mapped)@),
        r@ == plan_object(graph@, dependency as int, old(mapped)@.to_set(), graph@.len() as nat).0,
        final(mapped)@.to_set() == plan_object(graph@, dependency as int, old(mapped)@.to_set(), graph@.len() as nat).1,
{
    let ghost rank = choose|rank: Seq<nat>| ranked(graph@, rank);
    let mut out: Vec<ObjectMapping> = Vec::new();
    map_object(graph, object, dependency, mapped, &mut out, Ghost(rank), Ghost(graph@.len() as nat));
    proof {
        assert(out@ =~= plan_object(graph@, dependency as int, old(mapped)@.to_set(), graph@.len() as nat).0);
    }
    out
}

} // verus!
