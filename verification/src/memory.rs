//! The allocator and simulator: owns the process backlog and the ordered
//! partition table, and drives the per-tick lifecycle of assignment, aging,
//! pruning and coalescing.

use vstd::prelude::*;
use crate::partition::Partition;
use crate::partition::part_repr;
use crate::partition::split_parts;
use crate::process::ParseError;
use crate::process::Process;
use crate::process::parse_err;
use crate::process::parse_ok;
use crate::process::parsed;
use crate::process::ticked;
use crate::text::dec_digits;
use crate::text::lines_go;
use crate::text::lines_of;
use crate::text::push_char;
use crate::text::push_decimal;
use crate::text::strip_cr;

verus! {

/// Total units of the simulated memory region.
pub const INITIAL_MEMORY: u32 = 2000;

/// Placement strategy: the smallest or the largest qualifying hole.
#[derive(Clone, Copy, Debug)]
pub enum Algorithm {
    BestFit,
    WorstFit,
}

/// The simulator.  `all_processes` is the store of every process read from
/// the input, in input order, and never shrinks; `processes` is the backlog,
/// holding store indices of the processes not yet ended; a partition's
/// occupant is an index into the same store, so the backlog and the partition
/// table observe one shared process identity.
#[derive(Debug)]
pub struct Memory {
    pub size: u32,
    pub processes: Vec<usize>,
    pub all_processes: Vec<Process>,
    pub partitions: Vec<Partition>,
    pub runtime: u32,
}

/// The partition table covers `[0, total)` with no gaps and no overlaps:
/// addresses start at zero, each partition starts where the previous one
/// ends, and the last one ends at `total`.
pub open spec fn parts_contiguous(parts: Seq<Partition>, total: u32) -> bool {
    &&& parts.len() >= 1
    &&& parts[0].initial_adress == 0
    &&& forall|i: int|
        1 <= i < parts.len() ==> (#[trigger] parts[i]).initial_adress == parts[i
            - 1].initial_adress + parts[i - 1].size
    &&& parts.last().initial_adress + parts.last().size == total
}

/// Every occupant is a valid store index of an assigned process.
pub open spec fn occupant_ok(parts: Seq<Partition>, ps: Seq<Process>) -> bool {
    forall|i: int|
        0 <= i < parts.len() ==> match (#[trigger] parts[i]).process {
            Some(h) => h < ps.len() && ps[h as int].is_assigned,
            None => true,
        }
}

/// No process occupies two partitions.
pub open spec fn occupants_distinct(parts: Seq<Partition>) -> bool {
    forall|i: int, j: int|
        0 <= i < j < parts.len() && (#[trigger] parts[i]).process is Some ==> parts[i].process != (
        #[trigger] parts[j]).process
}

/// Whether some partition is occupied by the process at store index `h`.
#[verifier::opaque]
pub open spec fn occ_in(parts: Seq<Partition>, h: usize) -> bool {
    exists|i: int| 0 <= i < parts.len() && (#[trigger] parts[i]).process == Some(h)
}

/// Every occupied partition of `old_parts` survives, unchanged, somewhere in
/// `new_parts`.
#[verifier::opaque]
pub open spec fn occupied_preserved(old_parts: Seq<Partition>, new_parts: Seq<Partition>) -> bool {
    forall|j: int|
        0 <= j < old_parts.len() && (#[trigger] old_parts[j]).process is Some ==> exists|j2: int|
            0 <= j2 < new_parts.len() && new_parts[j2] == old_parts[j]
}

/// Every occupied partition of `new_parts`, except one occupied by `except`,
/// already stood, unchanged, in `old_parts`.
#[verifier::opaque]
pub open spec fn occupants_from(
    new_parts: Seq<Partition>,
    old_parts: Seq<Partition>,
    except: Option<usize>,
) -> bool {
    forall|j2: int|
        0 <= j2 < new_parts.len() && (#[trigger] new_parts[j2]).process is Some && new_parts[
        j2].process != except ==> exists|j: int|
            0 <= j < old_parts.len() && old_parts[j] == new_parts[j2]
}

/// Every process whose store entry changed between `ps` and `a2` was an
/// unassigned process that had arrived by `tick`, is now marked assigned and
/// otherwise unchanged, and occupies a partition of exactly its requirement
/// in `p2`.
#[verifier::opaque]
pub open spec fn newly_assigned_placed(
    ps: Seq<Process>,
    a2: Seq<Process>,
    p2: Seq<Partition>,
    tick: u32,
) -> bool {
    forall|x: int|
        0 <= x < ps.len() && #[trigger] a2[x] != ps[x] ==> {
            &&& !ps[x].is_assigned
            &&& ps[x].arrival_time <= tick
            &&& a2[x] == (Process { is_assigned: true, ..ps[x] })
            &&& exists|j2: int|
                0 <= j2 < p2.len() && (#[trigger] p2[j2]).process == Some(x as usize) && p2[j2].size
                    == ps[x].memory_required
        }
}

/// Occupied partitions surviving two passes survive their composition.
proof fn lemma_occupied_preserved_trans(a: Seq<Partition>, b: Seq<Partition>, c: Seq<Partition>)
    requires
        occupied_preserved(a, b),
        occupied_preserved(b, c),
    ensures
        occupied_preserved(a, c),
{
    reveal(occupied_preserved);
    assert forall|j: int|
        0 <= j < a.len() && (#[trigger] a[j]).process is Some implies exists|j2: int|
        0 <= j2 < c.len() && c[j2] == a[j] by {
        let jb = choose|jb: int| 0 <= jb < b.len() && #[trigger] b[jb] == a[j];
        assert(exists|j2: int| 0 <= j2 < c.len() && c[j2] == b[jb]);
    }
}

/// Every backlog entry is a valid store index.
pub open spec fn backlog_ok(backlog: Seq<usize>, ps: Seq<Process>) -> bool {
    forall|k: int| 0 <= k < backlog.len() ==> (#[trigger] backlog[k]) < ps.len()
}

/// An occupant either has ended or is still in the backlog.
pub open spec fn occupant_live(parts: Seq<Partition>, backlog: Seq<usize>, ps: Seq<Process>) -> bool {
    forall|i: int|
        0 <= i < parts.len() ==> match (#[trigger] parts[i]).process {
            Some(h) => ps[h as int].runtime == 0 || backlog.contains(h),
            None => true,
        }
}

/// An assigned process still in the backlog has runtime left and occupies a
/// partition.
pub open spec fn backlog_assigned_ok(
    parts: Seq<Partition>,
    backlog: Seq<usize>,
    ps: Seq<Process>,
) -> bool {
    forall|k: int|
        0 <= k < backlog.len() && ps[(#[trigger] backlog[k]) as int].is_assigned ==> ps[backlog[
            k] as int].runtime > 0 && occ_in(parts, backlog[k])
}

/// No two consecutive partitions are both free.
pub open spec fn no_adjacent_free(parts: Seq<Partition>) -> bool {
    forall|i: int|
        1 <= i < parts.len() ==> !((#[trigger] parts[i]).process is None && parts[i
            - 1].process is None)
}

/// Whether a partition is a hole large enough for a requirement of `req`.
pub open spec fn fits(pt: Partition, req: u32) -> bool {
    pt.process is None && pt.size >= req
}

/// Whether a hole of size `cand` is preferred over the best seen so far.
pub open spec fn improves(cand: u32, best: u32, alg: Algorithm) -> bool {
    match alg {
        Algorithm::BestFit => cand < best,
        Algorithm::WorstFit => cand > best,
    }
}

/// The index of the hole, among the first `n` partitions, that the strategy
/// selects for a requirement of `req` units: qualifying holes are compared
/// left to right, a later one replacing the current choice only on strict
/// improvement, so ties go to the lowest address.
pub open spec fn chosen_upto(parts: Seq<Partition>, req: u32, alg: Algorithm, n: int) -> Option<int>
    decreases n,
{
    if n <= 0 {
        None
    } else {
        let prev = chosen_upto(parts, req, alg, n - 1);
        if fits(parts[n - 1], req) && (match prev {
            None => true,
            Some(b) => improves(parts[n - 1].size, parts[b].size, alg),
        }) {
            Some(n - 1)
        } else {
            prev
        }
    }
}

/// The partition index the strategy selects over the whole table.
pub open spec fn chosen(parts: Seq<Partition>, req: u32, alg: Algorithm) -> Option<int> {
    chosen_upto(parts, req, alg, parts.len() as int)
}

/// Fit selection is sound and optimal: when nothing is chosen, no hole among
/// the first `n` partitions fits; a chosen hole fits, no fitting hole among
/// the first `n` beats it (smaller for best fit, larger for worst fit), and
/// among fitting holes of equal size the chosen one comes first.
pub proof fn lemma_chosen_upto(parts: Seq<Partition>, req: u32, alg: Algorithm, n: int)
    requires
        0 <= n <= parts.len(),
    ensures
        chosen_upto(parts, req, alg, n) is None ==> forall|j: int|
            0 <= j < n ==> !fits(#[trigger] parts[j], req),
        chosen_upto(parts, req, alg, n) matches Some(i) ==> {
            &&& 0 <= i < n
            &&& fits(parts[i], req)
            &&& forall|j: int|
                0 <= j < n && fits(#[trigger] parts[j], req) ==> !improves(
                    parts[j].size,
                    parts[i].size,
                    alg,
                )
            &&& forall|j: int|
                0 <= j < n && fits(#[trigger] parts[j], req) && parts[j].size == parts[i].size
                    ==> i <= j
        },
    decreases n,
{
    if n > 0 {
        lemma_chosen_upto(parts, req, alg, n - 1);
    }
}

/// Best fit picks the smallest qualifying hole, worst fit the largest, and
/// both break ties toward the lowest address; when no hole qualifies,
/// nothing is picked.
pub proof fn lemma_fit_selection(parts: Seq<Partition>, req: u32, alg: Algorithm)
    ensures
        chosen(parts, req, alg) is None ==> forall|j: int|
            0 <= j < parts.len() ==> !fits(#[trigger] parts[j], req),
        chosen(parts, req, alg) matches Some(i) ==> {
            &&& 0 <= i < parts.len()
            &&& fits(parts[i], req)
            &&& forall|j: int|
                0 <= j < parts.len() && fits(#[trigger] parts[j], req) ==> match alg {
                    Algorithm::BestFit => parts[i].size <= parts[j].size,
                    Algorithm::WorstFit => parts[i].size >= parts[j].size,
                }
            &&& forall|j: int|
                0 <= j < parts.len() && fits(#[trigger] parts[j], req) && parts[j].size == parts[
                    i].size ==> i <= j
        },
{
    lemma_chosen_upto(parts, req, alg, parts.len() as int);
}

/// Under contiguity every partition ends within the region.
pub proof fn lemma_contiguous_bound(parts: Seq<Partition>, total: u32, i: int)
    requires
        parts_contiguous(parts, total),
        0 <= i < parts.len(),
    ensures
        parts[i].initial_adress + parts[i].size <= total,
    decreases parts.len() - i,
{
    if i < parts.len() - 1 {
        lemma_contiguous_bound(parts, total, i + 1);
    }
}

/// The partition table after the coalescing pass has folded `rest` onto the
/// already-coalesced prefix `acc`: each partition of `rest`, left to right,
/// is absorbed into the last partition of the accumulator when both are
/// free, and appended otherwise, so every run of adjacent holes collapses
/// into one.
pub open spec fn coalesce_go(rest: Seq<Partition>, acc: Seq<Partition>) -> Seq<Partition>
    decreases rest.len(),
{
    if rest.len() == 0 {
        acc
    } else {
        let p = rest.first();
        if p.process is None && acc.len() > 0 && acc.last().process is None {
            let merged = Partition { size: (acc.last().size + p.size) as u32, ..acc.last() };
            coalesce_go(rest.drop_first(), acc.update(acc.len() - 1, merged))
        } else {
            coalesce_go(rest.drop_first(), acc.push(p))
        }
    }
}

/// The partition table after coalescing all adjacent holes.
pub open spec fn coalesce(parts: Seq<Partition>) -> Seq<Partition> {
    coalesce_go(parts, Seq::empty())
}

/// The partition table and process store after the first `n` partitions
/// have been aged: each occupant loses one tick of runtime (floored at
/// zero), and a partition whose occupant has ended becomes free.
pub open spec fn age_prefix(parts: Seq<Partition>, ps: Seq<Process>, n: int) -> (
    Seq<Partition>,
    Seq<Process>,
)
    decreases n,
{
    if n <= 0 {
        (parts, ps)
    } else {
        let (p, a) = age_prefix(parts, ps, n - 1);
        let i = n - 1;
        if 0 <= i < p.len() {
            match p[i].process {
                Some(h) => {
                    if h < a.len() {
                        let aged = ticked(a[h as int]);
                        let p2 = if aged.runtime == 0 {
                            p.update(i, Partition { process: None, ..p[i] })
                        } else {
                            p
                        };
                        (p2, a.update(h as int, aged))
                    } else {
                        (p, a)
                    }
                },
                None => (p, a),
            }
        } else {
            (p, a)
        }
    }
}

/// The partition table and process store after the aging pass.
pub open spec fn age_pass(parts: Seq<Partition>, ps: Seq<Process>) -> (Seq<Partition>, Seq<Process>) {
    age_prefix(parts, ps, parts.len() as int)
}

/// One step of the assignment pass: when the process at store index `h` is
/// unassigned and has arrived by `tick`, and the strategy finds a hole for
/// it, that hole is split in place — the occupied part, then the free
/// remainder if any — and the process is marked assigned; otherwise nothing
/// changes.
#[verifier::opaque]
pub open spec fn assign_one(
    h: usize,
    parts: Seq<Partition>,
    ps: Seq<Process>,
    tick: u32,
    alg: Algorithm,
) -> (Seq<Partition>, Seq<Process>) {
    if h < ps.len() && !ps[h as int].is_assigned && ps[h as int].arrival_time <= tick {
        let req = ps[h as int].memory_required;
        match chosen(parts, req, alg) {
            Some(i) => {
                let (occupied, remainder) = split_parts(parts[i], req, h);
                let ps2 = ps.update(h as int, Process { is_assigned: true, ..ps[h as int] });
                let parts2 = match remainder {
                    Some(r) => parts.update(i, occupied).insert(i + 1, r),
                    None => parts.update(i, occupied),
                };
                (parts2, ps2)
            },
            None => (parts, ps),
        }
    } else {
        (parts, ps)
    }
}

/// The partition table and process store after the first `n` backlog
/// processes have been offered a placement, in backlog order; each sees the
/// table as left by its predecessors.
pub open spec fn assign_prefix(
    backlog: Seq<usize>,
    parts: Seq<Partition>,
    ps: Seq<Process>,
    tick: u32,
    alg: Algorithm,
    n: int,
) -> (Seq<Partition>, Seq<Process>)
    decreases n,
{
    if n <= 0 {
        (parts, ps)
    } else {
        let (p, a) = assign_prefix(backlog, parts, ps, tick, alg, n - 1);
        if n - 1 < backlog.len() {
            assign_one(backlog[n - 1], p, a, tick, alg)
        } else {
            (p, a)
        }
    }
}

/// The partition table and process store after the whole assignment pass.
pub open spec fn assign_pass(
    backlog: Seq<usize>,
    parts: Seq<Partition>,
    ps: Seq<Process>,
    tick: u32,
    alg: Algorithm,
) -> (Seq<Partition>, Seq<Process>) {
    assign_prefix(backlog, parts, ps, tick, alg, backlog.len() as int)
}

/// The backlog after pruning: exactly the processes with runtime left, in
/// their previous order.
pub open spec fn prune(backlog: Seq<usize>, ps: Seq<Process>) -> Seq<usize>
    decreases backlog.len(),
{
    if backlog.len() == 0 {
        Seq::empty()
    } else {
        let rest = prune(backlog.drop_last(), ps);
        if backlog.last() < ps.len() && ps[backlog.last() as int].runtime != 0 {
            rest.push(backlog.last())
        } else {
            rest
        }
    }
}

/// An unchanged table and store satisfy the preservation predicates.
proof fn lemma_preserved_refl(
    parts: Seq<Partition>,
    ps: Seq<Process>,
    tick: u32,
    except: Option<usize>,
)
    ensures
        occupied_preserved(parts, parts),
        occupants_from(parts, parts, except),
        newly_assigned_placed(ps, ps, parts, tick),
{
    reveal(occupied_preserved);
    reveal(occupants_from);
    reveal(newly_assigned_placed);
    assert forall|j: int|
        0 <= j < parts.len() && (#[trigger] parts[j]).process is Some implies exists|j2: int|
        0 <= j2 < parts.len() && parts[j2] == parts[j] by {
        assert(0 <= j < parts.len() && parts[j] == parts[j]);
    }
    assert forall|j2: int|
        0 <= j2 < parts.len() && (#[trigger] parts[j2]).process is Some && parts[j2].process
            != except implies exists|j: int| 0 <= j < parts.len() && parts[j] == parts[j2] by {
        assert(0 <= j2 < parts.len() && parts[j2] == parts[j2]);
    }
}

/// One assignment step preserves the table's shape and the process store's
/// contents: coverage, no adjacent holes, occupant validity and
/// distinctness all carry over; the store changes at most in the assigned
/// flag of `h`; every occupied partition survives unchanged; and when the
/// process is placed, it is placed into a partition of exactly its
/// requirement, at a tick past its arrival.
#[verifier::rlimit(100)]
pub proof fn lemma_assign_one_props(
    h: usize,
    parts: Seq<Partition>,
    ps: Seq<Process>,
    tick: u32,
    alg: Algorithm,
    total: u32,
)
    requires
        parts_contiguous(parts, total),
        occupant_ok(parts, ps),
        occupants_distinct(parts),
        no_adjacent_free(parts),
        h < ps.len(),
    ensures
        ({
            let (p2, a2) = assign_one(h, parts, ps, tick, alg);
            &&& parts_contiguous(p2, total)
            &&& occupant_ok(p2, a2)
            &&& occupants_distinct(p2)
            &&& no_adjacent_free(p2)
            &&& a2.len() == ps.len()
            &&& forall|x: int| 0 <= x < ps.len() && x != h ==> a2[x] == ps[x]
            &&& (a2[h as int] == ps[h as int] || a2[h as int] == (Process {
                is_assigned: true,
                ..ps[h as int]
            }))
            &&& occupied_preserved(parts, p2)
            &&& occupants_from(p2, parts, Some(h))
            &&& newly_assigned_placed(ps, a2, p2, tick)
            &&& (a2[h as int] == ps[h as int] ==> p2 == parts && a2 == ps)
        }),
{
    reveal(assign_one);
    let req = ps[h as int].memory_required;
    if h < ps.len() && !ps[h as int].is_assigned && ps[h as int].arrival_time <= tick {
        lemma_fit_selection(parts, req, alg);
        match chosen(parts, req, alg) {
            Some(i) => {
                let (occupied, remainder) = split_parts(parts[i], req, h);
                let a2 = ps.update(h as int, Process { is_assigned: true, ..ps[h as int] });
                assert(fits(parts[i], req));
                assert(a2[h as int].is_assigned);
                assert(a2[h as int] != ps[h as int]);
                lemma_contiguous_bound(parts, total, i);
                // The fresh occupant is not an occupant already.
                assert forall|j: int|
                    0 <= j < parts.len() implies (#[trigger] parts[j]).process != Some(h) by {
                    if parts[j].process == Some(h) {
                        assert(ps[h as int].is_assigned);
                    }
                }
                match remainder {
                    Some(r) => {
                        let pu = parts.update(i, occupied);
                        let p2 = pu.insert(i + 1, r);
                        pu.insert_ensures(i + 1, r);
                        assert(p2.len() == parts.len() + 1);
                        assert forall|j: int| 0 <= j < p2.len() implies #[trigger] p2[j] == (if j
                            < i {
                            parts[j]
                        } else if j == i {
                            occupied
                        } else if j == i + 1 {
                            r
                        } else {
                            parts[j - 1]
                        }) by {
                            if j < i + 1 {
                                assert(p2[j] == pu[j]);
                            } else if j > i + 1 {
                                assert(p2[j] == pu[j - 1]);
                            }
                        }
                        assert(parts_contiguous(p2, total)) by {
                            assert(occupied.initial_adress == parts[i].initial_adress);
                            assert(r.initial_adress == parts[i].initial_adress + req);
                            assert(r.initial_adress + r.size == parts[i].initial_adress + parts[
                                i].size);
                            assert forall|j: int|
                                1 <= j < p2.len() implies (#[trigger] p2[j]).initial_adress == p2[j
                                - 1].initial_adress + p2[j - 1].size by {
                                if j < i {
                                    assert(parts[j].initial_adress == parts[j - 1].initial_adress
                                        + parts[j - 1].size);
                                } else if j == i + 2 {
                                    assert(parts[i + 1].initial_adress == parts[i].initial_adress
                                        + parts[i].size);
                                } else if j > i + 2 {
                                    assert(parts[j - 1].initial_adress == parts[j
                                        - 2].initial_adress + parts[j - 2].size);
                                }
                            }
                            assert(p2.last() == (if i + 1 == parts.len() {
                                r
                            } else {
                                parts.last()
                            }));
                        }
                        assert(no_adjacent_free(p2)) by {
                            assert forall|j: int|
                                1 <= j < p2.len() implies !((#[trigger] p2[j]).process is None
                                && p2[j - 1].process is None) by {
                                if j == i + 2 {
                                    assert(!(parts[i + 1].process is None && parts[
                                        i].process is None));
                                } else if j > i + 2 {
                                    assert(!(parts[j - 1].process is None && parts[j
                                        - 2].process is None));
                                } else if j < i {
                                    assert(!(parts[j].process is None && parts[j
                                        - 1].process is None));
                                }
                            }
                        }
                        assert(occupant_ok(p2, a2));
                        assert(occupants_distinct(p2)) by {
                            assert forall|x: int, y: int|
                                0 <= x < y < p2.len() && (#[trigger] p2[x]).process is Some implies
                                    p2[x].process != (#[trigger] p2[y]).process by {
                                if x != i && y != i {
                                    let x0 = if x < i {
                                        x
                                    } else {
                                        x - 1
                                    };
                                    let y0 = if y < i {
                                        y
                                    } else {
                                        y - 1
                                    };
                                    if x0 != y0 {
                                        assert(parts[x0].process is Some ==> parts[x0].process
                                            != parts[y0].process);
                                    }
                                }
                            }
                        }
                        assert(occupied_preserved(parts, p2)) by {
                            reveal(occupied_preserved);
                            assert forall|j: int|
                                0 <= j < parts.len() && (#[trigger] parts[j]).process is Some
                                implies exists|j2: int| 0 <= j2 < p2.len() && p2[j2] == parts[j] by {
                                let j2 = if j < i {
                                    j
                                } else {
                                    j + 1
                                };
                                assert(p2[j2] == parts[j]);
                            }
                        }
                        assert(occupants_from(p2, parts, Some(h))) by {
                            reveal(occupants_from);
                            assert forall|j2: int|
                                0 <= j2 < p2.len() && (#[trigger] p2[j2]).process is Some && p2[
                                j2].process != Some(h) implies exists|j: int|
                                0 <= j < parts.len() && parts[j] == p2[j2] by {
                                let j = if j2 < i {
                                    j2
                                } else {
                                    j2 - 1
                                };
                                assert(parts[j] == p2[j2]);
                            }
                        }
                        assert(p2[i].process == Some(h) && p2[i].size == req);
                        assert(newly_assigned_placed(ps, a2, p2, tick)) by {
                            reveal(newly_assigned_placed);
                            assert forall|x: int|
                                0 <= x < ps.len() && #[trigger] a2[x] != ps[x] implies {
                                &&& !ps[x].is_assigned
                                &&& ps[x].arrival_time <= tick
                                &&& a2[x] == (Process { is_assigned: true, ..ps[x] })
                                &&& exists|j2: int|
                                    0 <= j2 < p2.len() && (#[trigger] p2[j2]).process == Some(
                                        x as usize,
                                    ) && p2[j2].size == ps[x].memory_required
                            } by {
                                assert(x == h as int);
                                assert(p2[i].process == Some(x as usize) && p2[i].size == ps[
                                    x].memory_required);
                            }
                        }
                    },
                    None => {
                        let p2 = parts.update(i, occupied);
                        assert(p2.len() == parts.len());
                        assert(parts_contiguous(p2, total)) by {
                            assert(occupied.initial_adress == parts[i].initial_adress);
                            assert(occupied.size == parts[i].size);
                            assert forall|j: int|
                                1 <= j < p2.len() implies (#[trigger] p2[j]).initial_adress == p2[j
                                - 1].initial_adress + p2[j - 1].size by {
                                assert(parts[j].initial_adress == parts[j - 1].initial_adress
                                    + parts[j - 1].size);
                            }
                        }
                        assert(no_adjacent_free(p2)) by {
                            assert forall|j: int|
                                1 <= j < p2.len() implies !((#[trigger] p2[j]).process is None
                                && p2[j - 1].process is None) by {
                                assert(!(parts[j].process is None && parts[j - 1].process is None));
                            }
                        }
                        assert(occupant_ok(p2, a2));
                        assert(occupants_distinct(p2)) by {
                            assert forall|x: int, y: int|
                                0 <= x < y < p2.len() && (#[trigger] p2[x]).process is Some implies
                                    p2[x].process != (#[trigger] p2[y]).process by {
                                if x != i && y != i {
                                    assert(parts[x].process is Some ==> parts[x].process != parts[
                                        y].process);
                                }
                            }
                        }
                        assert(occupied_preserved(parts, p2)) by {
                            reveal(occupied_preserved);
                            assert forall|j: int|
                                0 <= j < parts.len() && (#[trigger] parts[j]).process is Some
                                implies exists|j2: int| 0 <= j2 < p2.len() && p2[j2] == parts[j] by {
                                assert(p2[j] == parts[j]);
                            }
                        }
                        assert(occupants_from(p2, parts, Some(h))) by {
                            reveal(occupants_from);
                            assert forall|j2: int|
                                0 <= j2 < p2.len() && (#[trigger] p2[j2]).process is Some && p2[
                                j2].process != Some(h) implies exists|j: int|
                                0 <= j < parts.len() && parts[j] == p2[j2] by {
                                assert(parts[j2] == p2[j2]);
                            }
                        }
                        assert(p2[i].process == Some(h) && p2[i].size == req);
                        assert(newly_assigned_placed(ps, a2, p2, tick)) by {
                            reveal(newly_assigned_placed);
                            assert forall|x: int|
                                0 <= x < ps.len() && #[trigger] a2[x] != ps[x] implies {
                                &&& !ps[x].is_assigned
                                &&& ps[x].arrival_time <= tick
                                &&& a2[x] == (Process { is_assigned: true, ..ps[x] })
                                &&& exists|j2: int|
                                    0 <= j2 < p2.len() && (#[trigger] p2[j2]).process == Some(
                                        x as usize,
                                    ) && p2[j2].size == ps[x].memory_required
                            } by {
                                assert(x == h as int);
                                assert(p2[i].process == Some(x as usize) && p2[i].size == ps[
                                    x].memory_required);
                            }
                        }
                    },
                }
            },
            None => {
                lemma_preserved_refl(parts, ps, tick, Some(h));
            },
        }
    } else {
        lemma_preserved_refl(parts, ps, tick, Some(h));
    }
}

/// Removing a partition and inserting the pieces of its split at the same
/// position is the in-place splice that one assignment step describes.
proof fn lemma_assign_step_eq(
    h: usize,
    parts: Seq<Partition>,
    ps: Seq<Process>,
    tick: u32,
    alg: Algorithm,
    index: int,
    occ: Partition,
    rem: Option<Partition>,
    newproc: Process,
)
    requires
        h < ps.len(),
        !ps[h as int].is_assigned,
        ps[h as int].arrival_time <= tick,
        chosen(parts, ps[h as int].memory_required, alg) == Some(index),
        0 <= index < parts.len(),
        (occ, rem) == split_parts(parts[index], ps[h as int].memory_required, h),
        newproc == (Process { is_assigned: true, ..ps[h as int] }),
    ensures
        assign_one(h, parts, ps, tick, alg) == (
            match rem {
                Some(r) => parts.remove(index).insert(index, occ).insert(index + 1, r),
                None => parts.remove(index).insert(index, occ),
            },
            ps.update(h as int, newproc),
        ),
{
    reveal(assign_one);
    assert(parts.remove(index).insert(index, occ) =~= parts.update(index, occ));
    match rem {
        Some(r) => {
            assert(parts.remove(index).insert(index, occ).insert(index + 1, r) == parts.update(
                index,
                occ,
            ).insert(index + 1, r));
        },
        None => {
        },
    }
}

/// The aging pass keeps the table's geometry and only ever ticks each
/// occupant once: addresses and sizes are untouched, occupants stay or are
/// cleared exactly when their process ends, processes not occupying a
/// partition are untouched, and validity and distinctness of occupants
/// carry over.
pub proof fn lemma_age_prefix_props(parts: Seq<Partition>, ps: Seq<Process>, n: int)
    requires
        occupant_ok(parts, ps),
        occupants_distinct(parts),
        0 <= n <= parts.len(),
    ensures
        ({
            let (p2, a2) = age_prefix(parts, ps, n);
            &&& p2.len() == parts.len()
            &&& a2.len() == ps.len()
            &&& forall|i: int|
                0 <= i < parts.len() ==> (#[trigger] p2[i]).initial_adress
                    == parts[i].initial_adress && p2[i].size == parts[i].size
            &&& forall|i: int|
                0 <= i < parts.len() ==> (#[trigger] p2[i]).process == parts[i].process || p2[
                i].process is None
            &&& forall|i: int| n <= i < parts.len() ==> #[trigger] p2[i] == parts[i]
            &&& forall|i: int|
                0 <= i < n ==> match (#[trigger] parts[i]).process {
                    Some(h) => a2[h as int] == ticked(ps[h as int]) && p2[i].process == (if ticked(
                        ps[h as int],
                    ).runtime == 0 {
                        None
                    } else {
                        Some(h)
                    }),
                    None => p2[i] == parts[i],
                }
            &&& forall|x: int|
                0 <= x < ps.len() ==> #[trigger] a2[x] == ps[x] || a2[x] == ticked(ps[x])
            &&& forall|x: int|
                0 <= x < ps.len() && (forall|i: int|
                    0 <= i < n ==> (#[trigger] parts[i]).process != Some(x as usize))
                    ==> #[trigger] a2[x] == ps[x]
            &&& occupant_ok(p2, a2)
            &&& occupants_distinct(p2)
        }),
    decreases n,
{
    if n > 0 {
        lemma_age_prefix_props(parts, ps, n - 1);
        let (p1, a1) = age_prefix(parts, ps, n - 1);
        let (p2, a2) = age_prefix(parts, ps, n);
        let i = n - 1;
        assert(p1[i] == parts[i]);
        match parts[i].process {
            Some(h) => {
                // the occupant of partition i was not aged by earlier steps
                assert forall|j: int| 0 <= j < i implies (#[trigger] parts[j]).process != Some(h)
                    by {}
                assert(a1[h as int] == ps[h as int]);
            },
            None => {},
        }
    }
}

/// Coalescing leaves no two adjacent holes: every run of adjacent holes
/// collapses into a single one.
pub proof fn lemma_coalesce_no_adjacent(rest: Seq<Partition>, acc: Seq<Partition>)
    requires
        no_adjacent_free(acc),
    ensures
        no_adjacent_free(coalesce_go(rest, acc)),
    decreases rest.len(),
{
    if rest.len() > 0 {
        let p = rest.first();
        if p.process is None && acc.len() > 0 && acc.last().process is None {
            let merged = Partition { size: (acc.last().size + p.size) as u32, ..acc.last() };
            let acc2 = acc.update(acc.len() - 1, merged);
            assert(no_adjacent_free(acc2)) by {
                assert forall|j: int|
                    1 <= j < acc2.len() implies !((#[trigger] acc2[j]).process is None && acc2[j
                    - 1].process is None) by {
                    if j < acc.len() - 1 {
                        assert(!(acc[j].process is None && acc[j - 1].process is None));
                    } else {
                        assert(!(acc[j - 1].process is None && acc[j].process is None));
                    }
                }
            }
            lemma_coalesce_no_adjacent(rest.drop_first(), acc2);
        } else {
            let acc2 = acc.push(p);
            assert(no_adjacent_free(acc2)) by {
                assert forall|j: int|
                    1 <= j < acc2.len() implies !((#[trigger] acc2[j]).process is None && acc2[j
                    - 1].process is None) by {
                    if j < acc.len() {
                        assert(!(acc[j].process is None && acc[j - 1].process is None));
                    }
                }
            }
            lemma_coalesce_no_adjacent(rest.drop_first(), acc2);
        }
    }
}

/// Index-wise view of one merging step: absorbing the first of `rest` into
/// the accumulator's last entry shifts everything after the merge point
/// down by one.
#[verifier::rlimit(100)]
proof fn lemma_merge_mapping(rest: Seq<Partition>, acc: Seq<Partition>, merged: Partition)
    requires
        rest.len() > 0,
        acc.len() > 0,
    ensures
        ({
            let combined = acc + rest;
            let acc2 = acc.update(acc.len() - 1, merged);
            let combined2 = acc2 + rest.drop_first();
            let i = acc.len() as int;
            &&& combined2.len() == combined.len() - 1
            &&& forall|j: int|
                0 <= j < combined2.len() ==> #[trigger] combined2[j] == (if j == i - 1 {
                    merged
                } else if j < i - 1 {
                    combined[j]
                } else {
                    combined[j + 1]
                })
        }),
{
    let combined = acc + rest;
    let acc2 = acc.update(acc.len() - 1, merged);
    let combined2 = acc2 + rest.drop_first();
    let i = acc.len() as int;
    assert forall|j: int| 0 <= j < combined2.len() implies #[trigger] combined2[j] == (if j == i
        - 1 {
        merged
    } else if j < i - 1 {
        combined[j]
    } else {
        combined[j + 1]
    }) by {
        if j < i {
            assert(combined2[j] == acc2[j]);
        } else {
            assert(combined2[j] == rest.drop_first()[j - i]);
            assert(combined[j + 1] == rest[j + 1 - i]);
        }
    }
}

/// Replacing two adjacent entries by one spanning both keeps the table
/// contiguous; the sequences enter abstractly, through the index mapping.
proof fn lemma_contiguous_after_merge(
    c: Seq<Partition>,
    c2: Seq<Partition>,
    i: int,
    merged: Partition,
    total: u32,
)
    requires
        parts_contiguous(c, total),
        1 <= i < c.len(),
        c2.len() == c.len() - 1,
        merged.initial_adress == c[i - 1].initial_adress,
        merged.initial_adress + merged.size == c[i].initial_adress + c[i].size,
        forall|j: int|
            0 <= j < c2.len() ==> #[trigger] c2[j] == (if j == i - 1 {
                merged
            } else if j < i - 1 {
                c[j]
            } else {
                c[j + 1]
            }),
    ensures
        parts_contiguous(c2, total),
{
    assert forall|j: int|
        1 <= j < c2.len() implies (#[trigger] c2[j]).initial_adress == c2[j - 1].initial_adress
        + c2[j - 1].size by {
        if j < i - 1 {
            assert(c[j].initial_adress == c[j - 1].initial_adress + c[j - 1].size);
        } else if j == i - 1 {
            assert(c[j].initial_adress == c[j - 1].initial_adress + c[j - 1].size);
        } else if j == i {
            assert(c[j + 1].initial_adress == c[j].initial_adress + c[j].size);
        } else {
            assert(c[j + 1].initial_adress == c[j].initial_adress + c[j].size);
        }
    }
    assert(c2[0].initial_adress == 0);
    assert(c2.last() == (if i == c.len() - 1 {
        merged
    } else {
        c.last()
    }));
}

/// One merging step of the coalescing pass: absorbing the next hole into
/// the accumulator's last hole keeps coverage, occupants, and distinctness,
/// and the result maps index-wise onto the input.
#[verifier::rlimit(100)]
#[verifier::spinoff_prover]
proof fn lemma_coalesce_merge_step(rest: Seq<Partition>, acc: Seq<Partition>, total: u32)
    requires
        rest.len() > 0,
        rest.first().process is None,
        acc.len() > 0,
        acc.last().process is None,
        parts_contiguous(acc + rest, total),
        no_adjacent_free(acc),
    ensures
        ({
            let p = rest.first();
            let merged = Partition { size: (acc.last().size + p.size) as u32, ..acc.last() };
            let acc2 = acc.update(acc.len() - 1, merged);
            let combined = acc + rest;
            let combined2 = acc2 + rest.drop_first();
            &&& combined2.len() == combined.len() - 1
            &&& forall|j: int|
                0 <= j < combined2.len() ==> #[trigger] combined2[j] == (if j == acc.len() - 1 {
                    merged
                } else if j < acc.len() - 1 {
                    combined[j]
                } else {
                    combined[j + 1]
                })
            &&& parts_contiguous(combined2, total)
            &&& no_adjacent_free(acc2)
        }),
{
    let combined = acc + rest;
    let p = rest.first();
    let i = acc.len() as int;
    assert(combined[i] == p);
    let merged = Partition { size: (acc.last().size + p.size) as u32, ..acc.last() };
    let acc2 = acc.update(acc.len() - 1, merged);
    let combined2 = acc2 + rest.drop_first();
    assert(combined[i - 1] == acc.last());
    lemma_contiguous_bound(combined, total, i);
    assert(p.initial_adress == acc.last().initial_adress + acc.last().size);
    assert(acc.last().size + p.size <= total);
    assert(merged.initial_adress + merged.size == p.initial_adress + p.size);
    lemma_merge_mapping(rest, acc, merged);
    lemma_contiguous_after_merge(combined, combined2, i, merged, total);
    assert(no_adjacent_free(acc2)) by {
        assert forall|j: int|
            1 <= j < acc2.len() implies !((#[trigger] acc2[j]).process is None && acc2[j
            - 1].process is None) by {
            if j < acc.len() - 1 {
                assert(!(acc[j].process is None && acc[j - 1].process is None));
            } else {
                assert(!(acc[j - 1].process is None && acc[j - 2 + 1].process is None));
            }
        }
    }
}

/// One merging step of the coalescing pass keeps occupant validity and
/// distinctness: only holes are touched.
#[verifier::rlimit(100)]
proof fn lemma_coalesce_merge_step_occ(
    rest: Seq<Partition>,
    acc: Seq<Partition>,
    ps: Seq<Process>,
)
    requires
        rest.len() > 0,
        rest.first().process is None,
        acc.len() > 0,
        acc.last().process is None,
        occupant_ok(acc + rest, ps),
        occupants_distinct(acc + rest),
    ensures
        ({
            let p = rest.first();
            let merged = Partition { size: (acc.last().size + p.size) as u32, ..acc.last() };
            let acc2 = acc.update(acc.len() - 1, merged);
            let combined2 = acc2 + rest.drop_first();
            &&& occupant_ok(combined2, ps)
            &&& occupants_distinct(combined2)
        }),
{
    let combined = acc + rest;
    let p = rest.first();
    let i = acc.len() as int;
    let merged = Partition { size: (acc.last().size + p.size) as u32, ..acc.last() };
    let acc2 = acc.update(acc.len() - 1, merged);
    let combined2 = acc2 + rest.drop_first();
    assert(combined[i] == p);
    assert(combined[i - 1] == acc.last());
    lemma_merge_mapping(rest, acc, merged);
    assert(occupant_ok(combined2, ps)) by {
        assert forall|j: int| 0 <= j < combined2.len() implies match (#[trigger] combined2[
        j]).process {
            Some(h) => h < ps.len() && ps[h as int].is_assigned,
            None => true,
        } by {
            if j != i - 1 {
                let j0 = if j < i - 1 {
                    j
                } else {
                    j + 1
                };
                assert(combined2[j] == combined[j0]);
                assert(match combined[j0].process {
                    Some(h) => h < ps.len() && ps[h as int].is_assigned,
                    None => true,
                });
            }
        }
    }
    assert(occupants_distinct(combined2)) by {
        assert forall|x: int, y: int|
            0 <= x < y < combined2.len() && (#[trigger] combined2[x]).process is Some implies
            combined2[x].process != (#[trigger] combined2[y]).process by {
            if x != i - 1 && y != i - 1 {
                let x0 = if x < i - 1 {
                    x
                } else {
                    x + 1
                };
                let y0 = if y < i - 1 {
                    y
                } else {
                    y + 1
                };
                assert(combined[x0].process is Some ==> combined[x0].process != combined[
                    y0].process);
            }
        }
    }
}

/// Coalescing preserves coverage, occupied partitions and occupant
/// distinctness, and leaves no two adjacent holes.
#[verifier::rlimit(100)]
pub proof fn lemma_coalesce_go_props(
    rest: Seq<Partition>,
    acc: Seq<Partition>,
    ps: Seq<Process>,
    total: u32,
)
    requires
        parts_contiguous(acc + rest, total),
        no_adjacent_free(acc),
        occupant_ok(acc + rest, ps),
        occupants_distinct(acc + rest),
    ensures
        ({
            let r = coalesce_go(rest, acc);
            &&& parts_contiguous(r, total)
            &&& no_adjacent_free(r)
            &&& occupant_ok(r, ps)
            &&& occupants_distinct(r)
            &&& occupied_preserved(acc + rest, r)
            &&& occupants_from(r, acc + rest, None)
        }),
    decreases rest.len(),
{
    let combined = acc + rest;
    if rest.len() == 0 {
        assert(combined =~= acc);
        lemma_preserved_refl(combined, ps, 0, None);
    } else {
        let p = rest.first();
        let i = acc.len() as int;
        assert(combined[i] == p);
        if p.process is None && acc.len() > 0 && acc.last().process is None {
            let merged = Partition { size: (acc.last().size + p.size) as u32, ..acc.last() };
            let acc2 = acc.update(acc.len() - 1, merged);
            let combined2 = acc2 + rest.drop_first();
            lemma_coalesce_merge_step(rest, acc, total);
            lemma_coalesce_merge_step_occ(rest, acc, ps);
            lemma_coalesce_go_props(rest.drop_first(), acc2, ps, total);
            let r = coalesce_go(rest.drop_first(), acc2);
            assert(coalesce_go(rest, acc) == r);
            // occupied partitions of the original combined sequence survive:
            // positions i-1 and i are the two holes being merged
            assert(occupied_preserved(combined, r)) by {
                reveal(occupied_preserved);
                assert forall|j: int|
                    0 <= j < combined.len() && (#[trigger] combined[j]).process is Some implies
                    exists|j2: int| 0 <= j2 < r.len() && r[j2] == combined[j] by {
                    let jm = if j < i - 1 {
                        j
                    } else {
                        j - 1
                    };
                    assert(combined2[jm] == combined[j]);
                    assert(exists|j2: int| 0 <= j2 < r.len() && r[j2] == combined2[jm]);
                }
            }
            assert(occupants_from(r, combined, None)) by {
                reveal(occupants_from);
                assert forall|j2: int|
                    0 <= j2 < r.len() && (#[trigger] r[j2]).process is Some && r[j2].process
                        != None::<usize> implies exists|j: int|
                    0 <= j < combined.len() && combined[j] == r[j2] by {
                    let jm = choose|jm: int|
                        0 <= jm < combined2.len() && #[trigger] combined2[jm] == r[j2];
                    let j0 = if jm < i - 1 {
                        jm
                    } else {
                        jm + 1
                    };
                    assert(combined[j0] == r[j2]);
                }
            }
        } else {
            let acc2 = acc.push(p);
            assert(acc2 + rest.drop_first() =~= combined);
            assert(no_adjacent_free(acc2)) by {
                assert forall|j: int|
                    1 <= j < acc2.len() implies !((#[trigger] acc2[j]).process is None && acc2[j
                    - 1].process is None) by {
                    if j < acc.len() {
                        assert(!(acc[j].process is None && acc[j - 1].process is None));
                    }
                }
            }
            lemma_coalesce_go_props(rest.drop_first(), acc2, ps, total);
        }
    }
}

/// Pruning keeps exactly the backlog entries with runtime left, in order.
pub proof fn lemma_prune_props(backlog: Seq<usize>, ps: Seq<Process>)
    ensures
        ({
            let b2 = prune(backlog, ps);
            &&& b2.len() <= backlog.len()
            &&& forall|k2: int|
                0 <= k2 < b2.len() ==> backlog.contains(#[trigger] b2[k2]) && b2[k2] < ps.len()
                    && ps[b2[k2] as int].runtime != 0
            &&& forall|k: int|
                0 <= k < backlog.len() && (#[trigger] backlog[k]) < ps.len() && ps[backlog[
                    k] as int].runtime != 0 ==> b2.contains(backlog[k])
        }),
    decreases backlog.len(),
{
    if backlog.len() > 0 {
        lemma_prune_props(backlog.drop_last(), ps);
        let b1 = prune(backlog.drop_last(), ps);
        let b2 = prune(backlog, ps);
        assert forall|k2: int| 0 <= k2 < b2.len() implies backlog.contains(#[trigger] b2[k2]) && b2[
            k2] < ps.len() && ps[b2[k2] as int].runtime != 0 by {
            if k2 < b1.len() {
                assert(backlog.drop_last().contains(b1[k2]));
                let k0 = choose|k0: int|
                    0 <= k0 < backlog.drop_last().len() && #[trigger] backlog.drop_last()[k0] == b1[
                    k2];
                assert(backlog[k0] == b2[k2]);
            } else {
                assert(b2[k2] == backlog.last());
                assert(backlog[backlog.len() - 1] == b2[k2]);
            }
        }
        assert forall|k: int|
            0 <= k < backlog.len() && (#[trigger] backlog[k]) < ps.len() && ps[backlog[
                k] as int].runtime != 0 implies b2.contains(backlog[k]) by {
            if k < backlog.len() - 1 {
                assert(backlog.drop_last()[k] == backlog[k]);
                assert(b1.contains(backlog[k]));
                let k1 = choose|k1: int| 0 <= k1 < b1.len() && #[trigger] b1[k1] == backlog[k];
                if backlog.last() < ps.len() && ps[backlog.last() as int].runtime != 0 {
                    assert(b2[k1] == backlog[k]);
                } else {
                    assert(b2[k1] == backlog[k]);
                }
            } else {
                assert(b2[b2.len() - 1] == backlog[k]);
            }
        }
    }
}

/// An assignment step that finds no eligible process or no fitting hole
/// changes nothing.
proof fn lemma_assign_one_noop(h: usize, parts: Seq<Partition>, ps: Seq<Process>, tick: u32, alg: Algorithm)
    requires
        h < ps.len() ==> ps[h as int].is_assigned || ps[h as int].arrival_time > tick || chosen(
            parts,
            ps[h as int].memory_required,
            alg,
        ) is None,
    ensures
        assign_one(h, parts, ps, tick, alg) == (parts, ps),
{
    reveal(assign_one);
}

/// Whether two processes agree on everything but the assigned flag.
pub open spec fn same_but_assigned(a: Process, b: Process) -> bool {
    &&& a.id == b.id
    &&& a.arrival_time == b.arrival_time
    &&& a.memory_required == b.memory_required
    &&& a.runtime == b.runtime
}

/// The assignment pass preserves the table's shape and only ever flips
/// assigned flags in the process store: coverage, no adjacent holes,
/// occupant validity and distinctness carry over; every occupied partition
/// survives unchanged; every occupant was an occupant before or comes from
/// the backlog; and a process the pass assigns had arrived and sits in a
/// partition of exactly its requirement.
#[verifier::rlimit(100)]
pub proof fn lemma_assign_prefix_props(
    backlog: Seq<usize>,
    parts: Seq<Partition>,
    ps: Seq<Process>,
    tick: u32,
    alg: Algorithm,
    total: u32,
    n: int,
)
    requires
        parts_contiguous(parts, total),
        occupant_ok(parts, ps),
        occupants_distinct(parts),
        no_adjacent_free(parts),
        backlog_ok(backlog, ps),
        0 <= n <= backlog.len(),
    ensures
        ({
            let (p2, a2) = assign_prefix(backlog, parts, ps, tick, alg, n);
            &&& parts_contiguous(p2, total)
            &&& occupant_ok(p2, a2)
            &&& occupants_distinct(p2)
            &&& no_adjacent_free(p2)
            &&& a2.len() == ps.len()
            &&& forall|x: int| 0 <= x < ps.len() ==> same_but_assigned(#[trigger] a2[x], ps[x])
            &&& forall|x: int| 0 <= x < ps.len() && ps[x].is_assigned ==> (#[trigger] a2[x]).is_assigned
            &&& occupied_preserved(parts, p2)
            &&& forall|g: usize|
                #[trigger] occ_in(p2, g) ==> occ_in(parts, g) || backlog.take(n).contains(g)
            &&& newly_assigned_placed(ps, a2, p2, tick)
        }),
    decreases n,
{
    if n > 0 {
        lemma_assign_prefix_props(backlog, parts, ps, tick, alg, total, n - 1);
        let (p1, a1) = assign_prefix(backlog, parts, ps, tick, alg, n - 1);
        let h = backlog[n - 1];
        lemma_assign_one_props(h, p1, a1, tick, alg, total);
        let (p2, a2) = assign_one(h, p1, a1, tick, alg);
        assert(backlog.take(n).drop_last() =~= backlog.take(n - 1));
        lemma_occupied_preserved_trans(parts, p1, p2);
        // Every occupant of the result was one before or comes from the backlog.
        assert forall|g: usize| #[trigger] occ_in(p2, g) implies occ_in(parts, g) || backlog.take(
            n,
        ).contains(g) by {
            if !occ_in(parts, g) {
                reveal(occ_in);
                let j2 = choose|j2: int|
                    0 <= j2 < p2.len() && (#[trigger] p2[j2]).process == Some(g);
                if p2[j2].process != Some(h) {
                    reveal(occupants_from);
                    let j1 = choose|j1: int| 0 <= j1 < p1.len() && #[trigger] p1[j1] == p2[j2];
                    assert(occ_in(p1, g));
                    assert(occ_in(parts, g) || backlog.take(n - 1).contains(g));
                    let kk = choose|kk: int|
                        0 <= kk < n - 1 && #[trigger] backlog.take(n - 1)[kk] == g;
                    assert(backlog.take(n)[kk] == g);
                } else {
                    assert(g == h);
                    assert(backlog.take(n)[n - 1] == g);
                }
            }
        }
        // A process the pass has assigned sits in a partition of exactly its
        // requirement.
        assert(newly_assigned_placed(ps, a2, p2, tick)) by {
            reveal(newly_assigned_placed);
            reveal(occupied_preserved);
            assert forall|x: int| 0 <= x < ps.len() && #[trigger] a2[x] != ps[x] implies {
                &&& !ps[x].is_assigned
                &&& ps[x].arrival_time <= tick
                &&& a2[x] == (Process { is_assigned: true, ..ps[x] })
                &&& exists|j2: int|
                    0 <= j2 < p2.len() && (#[trigger] p2[j2]).process == Some(x as usize) && p2[
                    j2].size == ps[x].memory_required
            } by {
                if x != h {
                    assert(a2[x] == a1[x]);
                    assert(a1[x] != ps[x]);
                    let j1 = choose|j1: int|
                        0 <= j1 < p1.len() && (#[trigger] p1[j1]).process == Some(x as usize) && p1[
                        j1].size == ps[x].memory_required;
                    let j2 = choose|j2: int| 0 <= j2 < p2.len() && #[trigger] p2[j2] == p1[j1];
                    assert(p2[j2].process == Some(x as usize) && p2[j2].size == ps[
                        x].memory_required);
                } else {
                    if a1[h as int] != ps[h as int] {
                        // assigned in an earlier step; the nth step leaves it alone
                        assert(a2[h as int] == a1[h as int]);
                        let j1 = choose|j1: int|
                            0 <= j1 < p1.len() && (#[trigger] p1[j1]).process == Some(h) && p1[
                            j1].size == ps[h as int].memory_required;
                        let j2 = choose|j2: int| 0 <= j2 < p2.len() && #[trigger] p2[j2] == p1[j1];
                        assert(p2[j2].process == Some(h) && p2[j2].size == ps[
                            h as int].memory_required);
                    } else {
                        assert(a2[h as int] != a1[h as int]);
                        assert(same_but_assigned(a1[h as int], ps[h as int]));
                        assert(exists|j2: int|
                            0 <= j2 < p2.len() && (#[trigger] p2[j2]).process == Some(h) && p2[
                            j2].size == a1[h as int].memory_required);
                    }
                }
            }
        }
    } else {
        assert(backlog.take(0) =~= Seq::<usize>::empty());
        lemma_preserved_refl(parts, ps, tick, None);
    }
}

/// One tick preserves the simulator's invariant and leaves no two adjacent
/// holes.
#[verifier::rlimit(100)]
proof fn lemma_update_wf(pre: Memory, post: Memory, alg: Algorithm)
    requires
        pre.wf(),
        update_rel(pre, post, alg),
    ensures
        post.wf(),
        no_adjacent_free(post.partitions@),
{
    let parts = pre.partitions@;
    let ps = pre.all_processes@;
    let backlog = pre.processes@;
    let (p1, a1) = age_pass(parts, ps);
    let p2 = coalesce(p1);
    let (p3, a3) = assign_pass(backlog, p2, a1, pre.runtime, alg);
    let b2 = prune(backlog, a3);
    lemma_age_prefix_props(parts, ps, parts.len() as int);
    assert(parts_contiguous(p1, pre.size)) by {
        assert forall|i: int|
            1 <= i < p1.len() implies (#[trigger] p1[i]).initial_adress == p1[i
            - 1].initial_adress + p1[i - 1].size by {
            assert(parts[i].initial_adress == parts[i - 1].initial_adress + parts[i - 1].size);
        }
    }
    assert(Seq::<Partition>::empty() + p1 =~= p1);
    lemma_coalesce_go_props(p1, Seq::empty(), a1, pre.size);
    lemma_assign_prefix_props(backlog, p2, a1, pre.runtime, alg, pre.size, backlog.len() as int);
    lemma_prune_props(backlog, a3);
    lemma_occupied_preserved_trans(p1, p2, p3);
    assert(backlog.take(backlog.len() as int) =~= backlog);
    // an occupant either has ended or survives pruning
    assert forall|i: int| 0 <= i < p3.len() implies match (#[trigger] p3[i]).process {
        Some(h) => a3[h as int].runtime == 0 || b2.contains(h),
        None => true,
    } by {
        match p3[i].process {
            Some(h) => {
                if a3[h as int].runtime != 0 {
                    assert(occ_in(p3, h)) by {
                        reveal(occ_in);
                    }
                    assert(h < a3.len());
                    if !backlog.contains(h) {
                        assert(occ_in(p2, h));
                        reveal(occ_in);
                        let j2 = choose|j2: int|
                            0 <= j2 < p2.len() && (#[trigger] p2[j2]).process == Some(h);
                        reveal(occupants_from);
                        let j1 = choose|j1: int| 0 <= j1 < p1.len() && #[trigger] p1[j1] == p2[j2];
                        assert(p1[j1].process == Some(h));
                        assert(parts[j1].process == Some(h));
                        assert(ticked(ps[h as int]).runtime != 0);
                        assert(ps[h as int].runtime == 0 || backlog.contains(h));
                        assert(false);
                    }
                    let k0 = choose|k0: int|
                        0 <= k0 < backlog.len() && #[trigger] backlog[k0] == h;
                    assert(b2.contains(backlog[k0]));
                }
            },
            None => {},
        }
    }
    // an assigned process still in the backlog has runtime left and a
    // partition of its own
    assert forall|k: int|
        0 <= k < b2.len() && a3[(#[trigger] b2[k]) as int].is_assigned implies a3[b2[
        k] as int].runtime > 0 && occ_in(p3, b2[k]) by {
        let h = b2[k];
        assert(backlog.contains(h) && h < a3.len() && a3[h as int].runtime != 0);
        if a3[h as int] != a1[h as int] {
            reveal(newly_assigned_placed);
            let j2 = choose|j2: int|
                0 <= j2 < p3.len() && (#[trigger] p3[j2]).process == Some(h) && p3[j2].size == a1[
                h as int].memory_required;
            assert(occ_in(p3, h)) by {
                reveal(occ_in);
            }
        } else {
            assert(a1[h as int].is_assigned);
            assert(a1[h as int] == ps[h as int] || a1[h as int] == ticked(ps[h as int]));
            assert(ps[h as int].is_assigned);
            let k0 = choose|k0: int| 0 <= k0 < backlog.len() && #[trigger] backlog[k0] == h;
            assert(ps[h as int].runtime > 0 && occ_in(parts, h));
            reveal(occ_in);
            let j = choose|j: int| 0 <= j < parts.len() && (#[trigger] parts[j]).process == Some(h);
            assert(a1[h as int] == ticked(ps[h as int]));
            assert(same_but_assigned(a3[h as int], a1[h as int]));
            assert(ticked(ps[h as int]).runtime != 0);
            assert(p1[j].process == Some(h));
            reveal(occupied_preserved);
            let jj = choose|jj: int| 0 <= jj < p3.len() && #[trigger] p3[jj] == p1[j];
            assert(occ_in(p3, h)) by {
                reveal(occ_in);
            }
        }
    }
}

/// The textual forms of the partitions, in address order, each preceded by
/// one space.
pub open spec fn parts_repr(parts: Seq<Partition>, ps: Seq<Process>) -> Seq<char>
    decreases parts.len(),
{
    if parts.len() == 0 {
        Seq::empty()
    } else {
        parts_repr(parts.drop_last(), ps) + seq![' '] + part_repr(parts.last(), ps)
    }
}

/// The trace line recorded for a state: the tick count, every partition's
/// textual form, and a closing `Return`.
pub open spec fn trace_of(m: Memory) -> Seq<char> {
    dec_digits(m.runtime as nat) + parts_repr(m.partitions@, m.all_processes@) + " Return"@
}

/// The total of the partition sizes.
pub open spec fn sum_sizes(parts: Seq<Partition>) -> int
    decreases parts.len(),
{
    if parts.len() == 0 {
        0
    } else {
        sum_sizes(parts.drop_last()) + parts.last().size
    }
}

/// The sizes of a contiguous prefix sum to the end of its last partition.
proof fn lemma_sum_prefix(parts: Seq<Partition>, total: u32, n: int)
    requires
        parts_contiguous(parts, total),
        0 <= n <= parts.len(),
    ensures
        sum_sizes(parts.take(n)) == if n == 0 {
            0int
        } else {
            parts[n - 1].initial_adress + parts[n - 1].size
        },
    decreases n,
{
    if n > 0 {
        lemma_sum_prefix(parts, total, n - 1);
        assert(parts.take(n).drop_last() =~= parts.take(n - 1));
        assert(parts.take(n).last() == parts[n - 1]);
        if n > 1 {
            assert(parts[n - 1].initial_adress == parts[n - 2].initial_adress + parts[n - 2].size);
        }
    }
}

/// Coverage: under the structural invariant the partition table's addresses
/// are contiguous and non-overlapping — each partition starts exactly where
/// the previous one ends, within the region — and the sizes sum to the
/// total memory.
pub proof fn lemma_coverage(parts: Seq<Partition>, total: u32)
    requires
        parts_contiguous(parts, total),
    ensures
        sum_sizes(parts) == total,
        forall|i: int|
            0 <= i < parts.len() ==> (#[trigger] parts[i]).initial_adress + parts[i].size <= total,
{
    lemma_sum_prefix(parts, total, parts.len() as int);
    assert(parts.take(parts.len() as int) =~= parts);
    assert forall|i: int|
        0 <= i < parts.len() implies (#[trigger] parts[i]).initial_adress + parts[i].size
        <= total by {
        lemma_contiguous_bound(parts, total, i);
    }
}

/// How one tick transforms the simulator: occupied partitions age and those
/// whose occupant ended become free; adjacent holes coalesce; eligible
/// backlog processes are placed at the current tick count; ended processes
/// leave the backlog; and the tick count moves up by one.
pub open spec fn update_rel(pre: Memory, post: Memory, alg: Algorithm) -> bool {
    let (p1, a1) = age_pass(pre.partitions@, pre.all_processes@);
    let p2 = coalesce(p1);
    let (p3, a3) = assign_pass(pre.processes@, p2, a1, pre.runtime, alg);
    &&& post.partitions@ == p3
    &&& post.all_processes@ == a3
    &&& post.processes@ == prune(pre.processes@, a3)
    &&& post.runtime == pre.runtime + 1
    &&& post.size == pre.size
}

/// One backlog process's contribution to the progress measure: ticks left
/// until its arrival, its remaining runtime, and one unit while it awaits
/// placement.
pub open spec fn process_measure(p: Process, tick: u32) -> int {
    (if p.arrival_time > tick {
        p.arrival_time - tick
    } else {
        0int
    }) + p.runtime + (if p.is_assigned {
        0int
    } else {
        1int
    })
}

/// The progress measure of a backlog: the sum of its processes' measures.
pub open spec fn backlog_measure(backlog: Seq<usize>, ps: Seq<Process>, tick: u32) -> int
    decreases backlog.len(),
{
    if backlog.len() == 0 {
        0
    } else {
        backlog_measure(backlog.drop_last(), ps, tick) + (if backlog.last() < ps.len() {
            process_measure(ps[backlog.last() as int], tick)
        } else {
            0int
        })
    }
}

/// A process measure is never negative.
proof fn lemma_process_measure_nonneg(p: Process, tick: u32)
    ensures
        process_measure(p, tick) >= 0,
{
}

/// Pruning never raises the measure: every surviving entry keeps its term
/// and the dropped terms are nonnegative.
proof fn lemma_measure_prune(backlog: Seq<usize>, ps: Seq<Process>, tick: u32)
    ensures
        backlog_measure(prune(backlog, ps), ps, tick) <= backlog_measure(backlog, ps, tick),
    decreases backlog.len(),
{
    if backlog.len() > 0 {
        lemma_measure_prune(backlog.drop_last(), ps, tick);
        let h = backlog.last();
        if h < ps.len() && ps[h as int].runtime != 0 {
            let kept = prune(backlog.drop_last(), ps);
            assert(prune(backlog, ps) == kept.push(h));
            assert(kept.push(h).drop_last() =~= kept);
            assert(kept.push(h).last() == h);
        } else {
            if h < ps.len() {
                lemma_process_measure_nonneg(ps[h as int], tick);
            }
        }
    }
}

/// When every term falls or stays, and the term at one index strictly
/// falls, the measure strictly falls.
proof fn lemma_measure_pointwise(
    backlog: Seq<usize>,
    ps: Seq<Process>,
    tick: u32,
    a2: Seq<Process>,
    tick2: u32,
    strict: int,
)
    requires
        a2.len() == ps.len(),
        forall|k: int|
            0 <= k < backlog.len() ==> (#[trigger] backlog[k]) < ps.len() && process_measure(
                a2[backlog[k] as int],
                tick2,
            ) <= process_measure(ps[backlog[k] as int], tick),
        0 <= strict < backlog.len(),
        process_measure(a2[backlog[strict] as int], tick2) < process_measure(
            ps[backlog[strict] as int],
            tick,
        ),
    ensures
        backlog_measure(backlog, a2, tick2) < backlog_measure(backlog, ps, tick),
    decreases backlog.len(),
{
    let h = backlog.last();
    assert(backlog[backlog.len() - 1] == h);
    if strict == backlog.len() - 1 {
        lemma_measure_le(backlog.drop_last(), ps, tick, a2, tick2);
    } else {
        lemma_measure_pointwise(backlog.drop_last(), ps, tick, a2, tick2, strict);
        assert(backlog.drop_last()[strict] == backlog[strict]);
    }
}

/// When every term falls or stays, the measure falls or stays.
proof fn lemma_measure_le(
    backlog: Seq<usize>,
    ps: Seq<Process>,
    tick: u32,
    a2: Seq<Process>,
    tick2: u32,
)
    requires
        a2.len() == ps.len(),
        forall|k: int|
            0 <= k < backlog.len() ==> (#[trigger] backlog[k]) < ps.len() && process_measure(
                a2[backlog[k] as int],
                tick2,
            ) <= process_measure(ps[backlog[k] as int], tick),
    ensures
        backlog_measure(backlog, a2, tick2) <= backlog_measure(backlog, ps, tick),
    decreases backlog.len(),
{
    if backlog.len() > 0 {
        lemma_measure_le(backlog.drop_last(), ps, tick, a2, tick2);
        assert(backlog[backlog.len() - 1] == backlog.last());
    }
}

/// Coalescing an all-free contiguous table onto a single starting hole
/// collapses everything into one hole covering the whole region.
proof fn lemma_coalesce_all_free(rest: Seq<Partition>, acc: Seq<Partition>, total: u32)
    requires
        parts_contiguous(acc + rest, total),
        acc.len() == 1,
        acc[0].process is None,
        acc[0].initial_adress == 0,
        forall|i: int| 0 <= i < rest.len() ==> (#[trigger] rest[i]).process is None,
    ensures
        coalesce_go(rest, acc) == seq![
            Partition { initial_adress: 0, size: total, process: None },
        ],
    decreases rest.len(),
{
    let combined = acc + rest;
    if rest.len() == 0 {
        assert(combined =~= acc);
        assert(acc[0].initial_adress + acc[0].size == total);
        assert(acc =~= seq![Partition { initial_adress: 0, size: total, process: None }]);
    } else {
        let p = rest.first();
        assert(combined[1] == p);
        assert(combined[0] == acc[0]);
        lemma_contiguous_bound(combined, total, 1);
        assert(p.initial_adress == acc[0].initial_adress + acc[0].size);
        let merged = Partition { size: (acc[0].size + p.size) as u32, ..acc[0] };
        let acc2 = acc.update(0, merged);
        assert(acc2 =~= seq![merged]);
        assert(parts_contiguous(acc2 + rest.drop_first(), total)) by {
            let c2 = acc2 + rest.drop_first();
            assert forall|j: int| 0 <= j < c2.len() implies #[trigger] c2[j] == (if j == 0 {
                merged
            } else {
                combined[j + 1]
            }) by {
                if j > 0 {
                    assert(c2[j] == rest.drop_first()[j - 1]);
                    assert(combined[j + 1] == rest[j]);
                }
            }
            assert forall|j: int|
                1 <= j < c2.len() implies (#[trigger] c2[j]).initial_adress == c2[j
                - 1].initial_adress + c2[j - 1].size by {
                if j == 1 {
                    assert(combined[2].initial_adress == combined[1].initial_adress
                        + combined[1].size);
                } else {
                    assert(combined[j + 1].initial_adress == combined[j].initial_adress
                        + combined[j].size);
                }
            }
            assert(c2.last() == (if c2.len() == 1 {
                merged
            } else {
                combined.last()
            }));
        }
        lemma_coalesce_all_free(rest.drop_first(), acc2, total);
    }
}

/// Once a step of the assignment pass has marked a process assigned, the
/// rest of the pass keeps it assigned.
proof fn lemma_assign_assigned_stays(
    backlog: Seq<usize>,
    parts: Seq<Partition>,
    ps: Seq<Process>,
    tick: u32,
    alg: Algorithm,
    m: int,
    n: int,
    x: int,
)
    requires
        0 <= m <= n <= backlog.len(),
        0 <= x,
        ({
            let (pm, am) = assign_prefix(backlog, parts, ps, tick, alg, m);
            x < am.len() && am[x].is_assigned
        }),
    ensures
        ({
            let (pn, an) = assign_prefix(backlog, parts, ps, tick, alg, n);
            x < an.len() && an[x].is_assigned
        }),
    decreases n - m,
{
    if n > m {
        lemma_assign_assigned_stays(backlog, parts, ps, tick, alg, m, n - 1, x);
        let (p1, a1) = assign_prefix(backlog, parts, ps, tick, alg, n - 1);
        let h = backlog[n - 1];
        reveal(assign_one);
        let (p2, a2) = assign_one(h, p1, a1, tick, alg);
        assert(a2 == a1 || a2 == a1.update(
            h as int,
            Process { is_assigned: true, ..a1[h as int] },
        ));
    }
}

/// The facts about one tick's composed passes that the progress argument
/// needs: store lengths are stable, aging ticks exactly the occupants, and
/// the assignment pass only ever raises assigned flags.
proof fn lemma_tick_term_facts(pre: Memory, alg: Algorithm)
    requires
        pre.wf(),
    ensures
        ({
            let (p1, a1) = age_pass(pre.partitions@, pre.all_processes@);
            let p2 = coalesce(p1);
            let (p3, a3) = assign_pass(pre.processes@, p2, a1, pre.runtime, alg);
            let ps = pre.all_processes@;
            &&& a1.len() == ps.len()
            &&& a3.len() == ps.len()
            &&& forall|h: int| 0 <= h < ps.len() ==> #[trigger] a1[h] == ps[h] || a1[h] == ticked(ps[h])
            &&& forall|h: int| 0 <= h < ps.len() ==> same_but_assigned(#[trigger] a3[h], a1[h])
            &&& forall|h: int|
                0 <= h < ps.len() && a1[h].is_assigned ==> (#[trigger] a3[h]).is_assigned
            &&& forall|i: int|
                0 <= i < pre.partitions@.len() ==> match (#[trigger] pre.partitions@[i]).process {
                    Some(g) => a1[g as int] == ticked(ps[g as int]),
                    None => true,
                }
        }),
{
    let parts = pre.partitions@;
    let ps = pre.all_processes@;
    let (p1, a1) = age_pass(parts, ps);
    lemma_age_prefix_props(parts, ps, parts.len() as int);
    assert(parts_contiguous(p1, pre.size)) by {
        assert forall|i: int|
            1 <= i < p1.len() implies (#[trigger] p1[i]).initial_adress == p1[i
            - 1].initial_adress + p1[i - 1].size by {
            assert(parts[i].initial_adress == parts[i - 1].initial_adress + parts[i - 1].size);
        }
    }
    assert(Seq::<Partition>::empty() + p1 =~= p1);
    lemma_coalesce_go_props(p1, Seq::empty(), a1, pre.size);
    lemma_assign_prefix_props(
        pre.processes@,
        coalesce(p1),
        a1,
        pre.runtime,
        alg,
        pre.size,
        pre.processes@.len() as int,
    );
}

/// When every backlog process is unassigned, every occupant of the table
/// has ended, so aging frees everything, coalescing leaves one full hole,
/// and the backlog's own store entries are untouched by aging.
proof fn lemma_aging_all_free(
    parts: Seq<Partition>,
    ps: Seq<Process>,
    backlog: Seq<usize>,
    total: u32,
)
    requires
        parts_contiguous(parts, total),
        occupant_ok(parts, ps),
        occupants_distinct(parts),
        backlog_ok(backlog, ps),
        occupant_live(parts, backlog, ps),
        forall|k: int| 0 <= k < backlog.len() ==> !ps[(#[trigger] backlog[k]) as int].is_assigned,
    ensures
        ({
            let (p1, a1) = age_pass(parts, ps);
            &&& a1.len() == ps.len()
            &&& coalesce(p1) == seq![Partition { initial_adress: 0, size: total, process: None }]
            &&& forall|k: int|
                0 <= k < backlog.len() ==> #[trigger] a1[backlog[k] as int] == ps[backlog[
                    k] as int]
        }),
{
    let (p1, a1) = age_pass(parts, ps);
    lemma_age_prefix_props(parts, ps, parts.len() as int);
    assert(parts_contiguous(p1, total)) by {
        assert forall|i: int|
            1 <= i < p1.len() implies (#[trigger] p1[i]).initial_adress == p1[i
            - 1].initial_adress + p1[i - 1].size by {
            assert(parts[i].initial_adress == parts[i - 1].initial_adress + parts[i - 1].size);
        }
    }
    assert forall|i: int| 0 <= i < p1.len() implies (#[trigger] p1[i]).process is None by {
        match parts[i].process {
            Some(g) => {
                assert(ps[g as int].is_assigned);
                assert(ps[g as int].runtime == 0 || backlog.contains(g));
                if backlog.contains(g) {
                    let kg = choose|kg: int| 0 <= kg < backlog.len() && #[trigger] backlog[kg] == g;
                    assert(!ps[g as int].is_assigned);
                }
                assert(ticked(ps[g as int]).runtime == 0);
            },
            None => {},
        }
    }
    assert(p1.len() > 0 && p1[0].initial_adress == 0 && p1[0].process is None);
    assert(seq![p1[0]] + p1.drop_first() =~= p1);
    assert(coalesce_go(p1, Seq::<Partition>::empty()) == coalesce_go(
        p1.drop_first(),
        Seq::<Partition>::empty().push(p1[0]),
    ));
    assert(Seq::<Partition>::empty().push(p1[0]) =~= seq![p1[0]]);
    lemma_coalesce_all_free(p1.drop_first(), seq![p1[0]], total);
    assert forall|k: int|
        0 <= k < backlog.len() implies #[trigger] a1[backlog[k] as int] == ps[backlog[
        k] as int] by {
        let h = backlog[k];
        assert forall|i: int|
            0 <= i < parts.len() implies (#[trigger] parts[i]).process != Some(h) by {
            if parts[i].process == Some(h) {
                assert(ps[h as int].is_assigned);
            }
        }
    }
}

/// With the whole memory one free hole, the assignment pass places the
/// first backlog process when it is unassigned, has arrived, and fits.
proof fn lemma_first_assign(
    backlog: Seq<usize>,
    p2: Seq<Partition>,
    a1: Seq<Process>,
    tick: u32,
    alg: Algorithm,
    total: u32,
)
    requires
        p2 == seq![Partition { initial_adress: 0, size: total, process: None }],
        backlog.len() > 0,
        backlog[0] < a1.len(),
        !a1[backlog[0] as int].is_assigned,
        a1[backlog[0] as int].arrival_time <= tick,
        a1[backlog[0] as int].memory_required <= total,
    ensures
        ({
            let (p3, a3) = assign_pass(backlog, p2, a1, tick, alg);
            backlog[0] < a3.len() && a3[backlog[0] as int].is_assigned
        }),
{
    let h0 = backlog[0];
    let (q1, b1) = assign_prefix(backlog, p2, a1, tick, alg, 1);
    assert(assign_prefix(backlog, p2, a1, tick, alg, 0) == (p2, a1));
    reveal(assign_one);
    assert(fits(p2[0], a1[h0 as int].memory_required));
    lemma_fit_selection(p2, a1[h0 as int].memory_required, alg);
    assert(chosen(p2, a1[h0 as int].memory_required, alg) is Some);
    assert(b1[h0 as int].is_assigned);
    lemma_assign_assigned_stays(backlog, p2, a1, tick, alg, 1, backlog.len() as int, h0 as int);
}

/// Termination: as long as every backlog process could fit into the whole
/// memory, each tick strictly shrinks a finite, nonnegative measure of the
/// backlog — the ticks left until arrivals, the remaining runtimes, and the
/// placements still owed — so after finitely many ticks the backlog drains
/// and `has_processes_waiting` turns false.
#[verifier::rlimit(100)]
pub proof fn lemma_update_progress(pre: Memory, post: Memory, alg: Algorithm)
    requires
        pre.wf(),
        update_rel(pre, post, alg),
        pre.processes@.len() > 0,
        forall|k: int|
            0 <= k < pre.processes@.len() ==> pre.all_processes@[(#[trigger] pre.processes@[
                k]) as int].memory_required <= pre.size,
    ensures
        backlog_measure(post.processes@, post.all_processes@, post.runtime) < backlog_measure(
            pre.processes@,
            pre.all_processes@,
            pre.runtime,
        ),
        backlog_measure(post.processes@, post.all_processes@, post.runtime) >= 0,
{
    let parts = pre.partitions@;
    let ps = pre.all_processes@;
    let backlog = pre.processes@;
    let tick = pre.runtime;
    let (p1, a1) = age_pass(parts, ps);
    let p2 = coalesce(p1);
    let (p3, a3) = assign_pass(backlog, p2, a1, tick, alg);
    lemma_tick_term_facts(pre, alg);
    // every backlog term falls or stays
    assert forall|k: int|
        0 <= k < backlog.len() implies (#[trigger] backlog[k]) < ps.len() && process_measure(
            a3[backlog[k] as int],
            (tick + 1) as u32,
        ) <= process_measure(ps[backlog[k] as int], tick) by {
        let h = backlog[k];
        assert(a1[h as int] == ps[h as int] || a1[h as int] == ticked(ps[h as int]));
        assert(same_but_assigned(a3[h as int], a1[h as int]));
        assert(ps[h as int].is_assigned ==> a1[h as int].is_assigned);
    }
    // find an index whose term strictly falls
    let strict: int = if exists|k: int|
        0 <= k < backlog.len() && ps[(#[trigger] backlog[k]) as int].arrival_time > tick {
        choose|k: int| 0 <= k < backlog.len() && ps[(#[trigger] backlog[k]) as int].arrival_time
            > tick
    } else if exists|k: int| 0 <= k < backlog.len() && ps[(#[trigger] backlog[k]) as int].is_assigned {
        choose|k: int| 0 <= k < backlog.len() && ps[(#[trigger] backlog[k]) as int].is_assigned
    } else {
        0
    };
    let hs = backlog[strict];
    if ps[hs as int].arrival_time > tick {
        // waiting for arrival: the wait shrinks by one
        assert(process_measure(a3[hs as int], (tick + 1) as u32) < process_measure(
            ps[hs as int],
            tick,
        ));
    } else if exists|k: int|
        0 <= k < backlog.len() && ps[(#[trigger] backlog[k]) as int].is_assigned {
        // an assigned backlog process is occupying memory and ages
        assert(ps[hs as int].is_assigned);
        assert(ps[hs as int].runtime > 0 && occ_in(parts, hs));
        reveal(occ_in);
        let j = choose|j: int| 0 <= j < parts.len() && (#[trigger] parts[j]).process == Some(hs);
        assert(a1[hs as int] == ticked(ps[hs as int]));
        assert(a1[hs as int].runtime < ps[hs as int].runtime);
        assert(process_measure(a3[hs as int], (tick + 1) as u32) < process_measure(
            ps[hs as int],
            tick,
        ));
    } else {
        // everyone has arrived and nobody is assigned: every occupant has
        // ended, aging frees the whole table, coalescing makes one hole,
        // and the first backlog process is placed into it
        assert(hs == backlog[0]);
        lemma_aging_all_free(parts, ps, backlog, pre.size);
        lemma_first_assign(backlog, p2, a1, tick, alg, pre.size);
        assert(a3[hs as int].is_assigned);
        assert(process_measure(a3[hs as int], (tick + 1) as u32) < process_measure(
            ps[hs as int],
            tick,
        ));
    }
    lemma_measure_pointwise(backlog, ps, tick, a3, (tick + 1) as u32, strict);
    lemma_measure_prune(backlog, a3, (tick + 1) as u32);
    assert(post.processes@ == prune(backlog, a3));
    lemma_measure_nonneg(post.processes@, a3, (tick + 1) as u32);
}

/// A backlog measure is never negative.
proof fn lemma_measure_nonneg(backlog: Seq<usize>, ps: Seq<Process>, tick: u32)
    ensures
        backlog_measure(backlog, ps, tick) >= 0,
    decreases backlog.len(),
{
    if backlog.len() > 0 {
        lemma_measure_nonneg(backlog.drop_last(), ps, tick);
    }
}

/// Monotone runtime: across one tick a process's remaining runtime never
/// increases, falls by at most one, and stays at zero once there; its
/// identity, arrival time and memory requirement never change, and its
/// assigned flag never falls back.
pub proof fn lemma_runtime_monotonic(pre: Memory, post: Memory, alg: Algorithm, h: int)
    requires
        pre.wf(),
        update_rel(pre, post, alg),
        0 <= h < pre.all_processes@.len(),
    ensures
        post.all_processes@.len() == pre.all_processes@.len(),
        post.all_processes@[h].runtime <= pre.all_processes@[h].runtime,
        pre.all_processes@[h].runtime <= post.all_processes@[h].runtime + 1,
        pre.all_processes@[h].runtime == 0 ==> post.all_processes@[h].runtime == 0,
        post.all_processes@[h].id == pre.all_processes@[h].id,
        post.all_processes@[h].arrival_time == pre.all_processes@[h].arrival_time,
        post.all_processes@[h].memory_required == pre.all_processes@[h].memory_required,
        pre.all_processes@[h].is_assigned ==> post.all_processes@[h].is_assigned,
{
    let parts = pre.partitions@;
    let ps = pre.all_processes@;
    let backlog = pre.processes@;
    let (p1, a1) = age_pass(parts, ps);
    let p2 = coalesce(p1);
    lemma_age_prefix_props(parts, ps, parts.len() as int);
    assert(parts_contiguous(p1, pre.size)) by {
        assert forall|i: int|
            1 <= i < p1.len() implies (#[trigger] p1[i]).initial_adress == p1[i
            - 1].initial_adress + p1[i - 1].size by {
            assert(parts[i].initial_adress == parts[i - 1].initial_adress + parts[i - 1].size);
        }
    }
    assert(Seq::<Partition>::empty() + p1 =~= p1);
    lemma_coalesce_go_props(p1, Seq::empty(), a1, pre.size);
    lemma_assign_prefix_props(backlog, p2, a1, pre.runtime, alg, pre.size, backlog.len() as int);
}

/// Placement eligibility: a process placed during a tick had arrived by
/// that tick's count, and it occupies a partition of exactly its memory
/// requirement afterwards.
pub proof fn lemma_placement_eligibility(pre: Memory, post: Memory, alg: Algorithm, h: int)
    requires
        pre.wf(),
        update_rel(pre, post, alg),
        0 <= h < pre.all_processes@.len(),
        !pre.all_processes@[h].is_assigned,
        post.all_processes@[h].is_assigned,
    ensures
        pre.all_processes@[h].arrival_time <= pre.runtime,
        exists|i: int|
            0 <= i < post.partitions@.len() && (#[trigger] post.partitions@[i]).process == Some(
                h as usize,
            ) && post.partitions@[i].size == pre.all_processes@[h].memory_required,
{
    let parts = pre.partitions@;
    let ps = pre.all_processes@;
    let backlog = pre.processes@;
    let (p1, a1) = age_pass(parts, ps);
    let p2 = coalesce(p1);
    let (p3, a3) = assign_pass(backlog, p2, a1, pre.runtime, alg);
    lemma_age_prefix_props(parts, ps, parts.len() as int);
    assert(parts_contiguous(p1, pre.size)) by {
        assert forall|i: int|
            1 <= i < p1.len() implies (#[trigger] p1[i]).initial_adress == p1[i
            - 1].initial_adress + p1[i - 1].size by {
            assert(parts[i].initial_adress == parts[i - 1].initial_adress + parts[i - 1].size);
        }
    }
    assert(Seq::<Partition>::empty() + p1 =~= p1);
    lemma_coalesce_go_props(p1, Seq::empty(), a1, pre.size);
    lemma_assign_prefix_props(backlog, p2, a1, pre.runtime, alg, pre.size, backlog.len() as int);
    // aging does not assign, so the pass did
    assert(a1[h] == ps[h] || a1[h] == ticked(ps[h]));
    assert(!a1[h].is_assigned);
    assert(a3[h] != a1[h]);
    reveal(newly_assigned_placed);
    assert(a1[h].arrival_time <= pre.runtime);
    assert(a1[h].arrival_time == ps[h].arrival_time && a1[h].memory_required == ps[
        h].memory_required);
    let j2 = choose|j2: int|
        0 <= j2 < p3.len() && (#[trigger] p3[j2]).process == Some(h as usize) && p3[j2].size == a1[
        h].memory_required;
    assert(post.partitions@[j2].process == Some(h as usize));
}

impl Memory {
    /// The simulator's structural invariant.
    pub open spec fn wf(&self) -> bool {
        &&& parts_contiguous(self.partitions@, self.size)
        &&& occupant_ok(self.partitions@, self.all_processes@)
        &&& occupants_distinct(self.partitions@)
        &&& backlog_ok(self.processes@, self.all_processes@)
        &&& occupant_live(self.partitions@, self.processes@, self.all_processes@)
        &&& backlog_assigned_ok(self.partitions@, self.processes@, self.all_processes@)
    }

    /// Builds a simulator from the input text: one process per line, fields
    /// `id arrival_time memory_required runtime`; any malformed line fails
    /// the whole construction.  The memory starts as one hole covering the
    /// whole region.
    pub fn new(content: &str) -> (r: Result<Memory, ParseError>)
        ensures
            r is Ok <==> (forall|k: int|
                0 <= k < lines_of(content@).len() ==> parse_ok(#[trigger] lines_of(content@)[k])),
            r matches Ok(m) ==> {
                &&& m.wf()
                &&& m.size == INITIAL_MEMORY
                &&& m.runtime == 0
                &&& m.all_processes@ == lines_of(content@).map_values(|l: Seq<char>| parsed(l))
                &&& m.processes@ == Seq::new(lines_of(content@).len(), |k: int| k as usize)
                &&& m.partitions@ == seq![
                    Partition { initial_adress: 0, size: INITIAL_MEMORY, process: None },
                ]
            },
            r matches Err(e) ==> exists|k: int|
                0 <= k < lines_of(content@).len() && !parse_ok(#[trigger] lines_of(content@)[k])
                    && (forall|j: int| 0 <= j < k ==> parse_ok(lines_of(content@)[j])) && e
                    == parse_err(lines_of(content@)[k]),
    {
        let cs = crate::text::str_to_chars(content);
        let ghost whole = cs@;
        let mut all: Vec<Process> = Vec::new();
        let mut backlog: Vec<usize> = Vec::new();
        let mut cur: Vec<char> = Vec::new();
        let ghost mut done: Seq<Seq<char>> = Seq::empty();
        let mut i: usize = 0;
        proof {
            assert(whole.skip(0) =~= whole);
            assert(done + lines_go(whole, Seq::empty()) =~= lines_of(content@));
        }
        while i < cs.len()
            invariant
                0 <= i <= whole.len(),
                cs@ == whole,
                lines_of(content@) == done + lines_go(whole.skip(i as int), cur@),
                all@.len() == done.len(),
                backlog@.len() == done.len(),
                forall|k: int| 0 <= k < done.len() ==> parse_ok(#[trigger] done[k]),
                forall|k: int| 0 <= k < done.len() ==> all@[k] == parsed(#[trigger] done[k]),
                forall|k: int| 0 <= k < done.len() ==> #[trigger] backlog@[k] == k,
            decreases whole.len() - i,
        {
            let c = cs[i];
            proof {
                assert(whole.skip(i as int).first() == whole[i as int]);
                assert(whole.skip(i as int).drop_first() =~= whole.skip(i + 1));
            }
            if c == '\n' {
                let ghost old_cur = cur@;
                assert(lines_go(whole.skip(i as int), old_cur) == seq![strip_cr(old_cur)]
                    + lines_go(whole.skip(i + 1), Seq::empty()));
                if cur.len() > 0 && cur[cur.len() - 1] == '\r' {
                    cur.pop();
                }
                assert(cur@ == strip_cr(old_cur));
                match Process::parse_chars(&cur) {
                    Ok(p) => {
                        backlog.push(all.len());
                        all.push(p);
                        proof {
                            done = done.push(strip_cr(old_cur));
                        }
                        cur = Vec::new();
                        proof {
                            assert(cur@ =~= Seq::<char>::empty());
                            assert(done + lines_go(whole.skip(i + 1), Seq::empty())
                                =~= done.drop_last() + (seq![strip_cr(old_cur)] + lines_go(
                                whole.skip(i + 1),
                                Seq::empty(),
                            )));
                        }
                    },
                    Err(e) => {
                        proof {
                            let ls = lines_of(content@);
                            assert(ls[done.len() as int] == strip_cr(old_cur));
                            assert(!parse_ok(ls[done.len() as int]));
                        }
                        return Err(e);
                    },
                }
            } else {
                let ghost old_cur = cur@;
                assert(lines_go(whole.skip(i as int), old_cur) == lines_go(
                    whole.skip(i + 1),
                    old_cur.push(whole[i as int]),
                ));
                cur.push(c);
            }
            i = i + 1;
        }
        proof {
            assert(whole.skip(whole.len() as int) =~= Seq::<char>::empty());
        }
        if cur.len() > 0 {
            let ghost old_cur = cur@;
            assert(lines_go(Seq::<char>::empty(), old_cur) == seq![strip_cr(old_cur)]);
            if cur[cur.len() - 1] == '\r' {
                cur.pop();
            }
            assert(cur@ == strip_cr(old_cur));
            match Process::parse_chars(&cur) {
                Ok(p) => {
                    backlog.push(all.len());
                    all.push(p);
                    proof {
                        done = done.push(strip_cr(old_cur));
                        assert(done =~= lines_of(content@));
                    }
                },
                Err(e) => {
                    proof {
                        let ls = lines_of(content@);
                        assert(ls[done.len() as int] == strip_cr(old_cur));
                        assert(!parse_ok(ls[done.len() as int]));
                    }
                    return Err(e);
                },
            }
        } else {
            proof {
                assert(lines_go(Seq::<char>::empty(), cur@) =~= Seq::<Seq<char>>::empty());
                assert(done =~= lines_of(content@));
            }
        }
        let mut partitions: Vec<Partition> = Vec::new();
        partitions.push(Partition::new_empty(0, INITIAL_MEMORY));
        let m = Memory {
            size: INITIAL_MEMORY,
            processes: backlog,
            all_processes: all,
            partitions,
            runtime: 0,
        };
        proof {
            assert(m.all_processes@ =~= lines_of(content@).map_values(|l: Seq<char>| parsed(l)));
            assert(m.processes@ =~= Seq::new(lines_of(content@).len(), |k: int| k as usize));
            assert(m.partitions@ =~= seq![
                Partition { initial_adress: 0, size: INITIAL_MEMORY, process: None },
            ]);
            assert(m.wf());
        }
        Ok(m)
    }

    /// The index of the free partition the strategy places `process` into:
    /// the smallest (best fit) or largest (worst fit) hole of sufficient
    /// size, the lowest-addressed on ties; `None` when no hole fits.
    pub fn get_partition_position(&self, process: &Process, algorithm: &Algorithm) -> (r: Option<
        usize,
    >)
        ensures
            match r {
                Some(u) => chosen(self.partitions@, process.memory_required, *algorithm) == Some(
                    u as int,
                ),
                None => chosen(self.partitions@, process.memory_required, *algorithm) is None,
            },
    {
        let mut best: Option<usize> = None;
        let mut index: usize = 0;
        while index < self.partitions.len()
            invariant
                0 <= index <= self.partitions@.len(),
                match best {
                    Some(u) => u < index && chosen_upto(
                        self.partitions@,
                        process.memory_required,
                        *algorithm,
                        index as int,
                    ) == Some(u as int),
                    None => chosen_upto(
                        self.partitions@,
                        process.memory_required,
                        *algorithm,
                        index as int,
                    ) is None,
                },
            decreases self.partitions@.len() - index,
        {
            let pt = self.partitions[index];
            let qualifies = if pt.is_free() && pt.get_size() >= process.get_memory_required() {
                match best {
                    None => true,
                    Some(b) => {
                        let best_size = self.partitions[b].get_size();
                        match algorithm {
                            Algorithm::BestFit => pt.get_size() < best_size,
                            Algorithm::WorstFit => pt.get_size() > best_size,
                        }
                    },
                }
            } else {
                false
            };
            if qualifies {
                best = Some(index);
            }
            index = index + 1;
        }
        best
    }

    /// Coalesces every run of adjacent holes into a single hole, in one
    /// left-to-right pass over the partition table.
    pub fn merge_partitions(&mut self)
        requires
            parts_contiguous(old(self).partitions@, old(self).size),
        ensures
            final(self).partitions@ == coalesce(old(self).partitions@),
            no_adjacent_free(final(self).partitions@),
            final(self).processes@ == old(self).processes@,
            final(self).all_processes@ == old(self).all_processes@,
            final(self).runtime == old(self).runtime,
            final(self).size == old(self).size,
    {
        proof {
            lemma_coalesce_no_adjacent(self.partitions@, Seq::empty());
        }
        let ghost parts = self.partitions@;
        let mut result: Vec<Partition> = Vec::new();
        let mut i: usize = 0;
        proof {
            assert(parts.skip(0) =~= parts);
        }
        while i < self.partitions.len()
            invariant
                0 <= i <= parts.len(),
                self.partitions@ == parts,
                parts_contiguous(parts, self.size),
                coalesce(parts) == coalesce_go(parts.skip(i as int), result@),
                result@.len() > 0 && i < parts.len() ==> result@.last().initial_adress
                    + result@.last().size == parts[i as int].initial_adress,
            decreases parts.len() - i,
        {
            let pt = self.partitions[i];
            proof {
                assert(parts.skip(i as int).first() == parts[i as int]);
                assert(parts.skip(i as int).drop_first() =~= parts.skip(i + 1));
                lemma_contiguous_bound(parts, self.size, i as int);
            }
            let n = result.len();
            if pt.is_free() && n > 0 && result[n - 1].is_free() {
                let mut lastp = result[n - 1];
                lastp.merge(pt);
                result[n - 1] = lastp;
            } else {
                result.push(pt);
            }
            i = i + 1;
        }
        proof {
            assert(parts.skip(parts.len() as int) =~= Seq::<Partition>::empty());
        }
        self.partitions = result;
    }

    /// Ages every occupied partition: the occupant loses one tick of
    /// runtime, and partitions whose occupant has ended become free.
    fn age_partitions(&mut self)
        requires
            occupant_ok(old(self).partitions@, old(self).all_processes@),
        ensures
            (final(self).partitions@, final(self).all_processes@) == age_pass(
                old(self).partitions@,
                old(self).all_processes@,
            ),
            final(self).processes@ == old(self).processes@,
            final(self).runtime == old(self).runtime,
            final(self).size == old(self).size,
    {
        let ghost parts = old(self).partitions@;
        let ghost ps = old(self).all_processes@;
        let mut i: usize = 0;
        while i < self.partitions.len()
            invariant
                0 <= i <= parts.len(),
                occupant_ok(parts, ps),
                self.partitions@.len() == parts.len(),
                self.all_processes@.len() == ps.len(),
                forall|j: int| i <= j < parts.len() ==> self.partitions@[j] == parts[j],
                (self.partitions@, self.all_processes@) == age_prefix(parts, ps, i as int),
                self.processes@ == old(self).processes@,
                self.runtime == old(self).runtime,
                self.size == old(self).size,
            decreases parts.len() - i,
        {
            let ghost p_before = self.partitions@;
            let ghost a_before = self.all_processes@;
            let mut pt = self.partitions[i];
            proof {
                assert(pt == parts[i as int]);
                assert(match parts[i as int].process {
                    Some(h) => h < ps.len(),
                    None => true,
                });
            }
            pt.update(&mut self.all_processes);
            self.partitions[i] = pt;
            proof {
                assert(p_before[i as int] == parts[i as int]);
                match p_before[i as int].process {
                    Some(h) => {
                        if ticked(a_before[h as int]).runtime == 0 {
                            assert(self.partitions@ =~= p_before.update(
                                i as int,
                                Partition { process: None, ..p_before[i as int] },
                            ));
                        } else {
                            assert(self.partitions@ =~= p_before);
                        }
                    },
                    None => {
                        assert(self.partitions@ =~= p_before);
                    },
                }
                assert((self.partitions@, self.all_processes@) == age_prefix(parts, ps, i + 1));
            }
            i = i + 1;
        }
    }

    /// Offers the process at store index `h` a placement: when it is
    /// unassigned and has arrived, and the strategy finds a hole, that hole
    /// is split in place and the process is marked assigned.
    #[verifier::rlimit(100)]
    fn assign_step(&mut self, h: usize, algorithm: &Algorithm)
        requires
            h < old(self).all_processes@.len(),
            parts_contiguous(old(self).partitions@, old(self).size),
        ensures
            (final(self).partitions@, final(self).all_processes@) == assign_one(
                h,
                old(self).partitions@,
                old(self).all_processes@,
                old(self).runtime,
                *algorithm,
            ),
            final(self).processes@ == old(self).processes@,
            final(self).runtime == old(self).runtime,
            final(self).size == old(self).size,
    {
        let ghost p_before = self.partitions@;
        let ghost a_before = self.all_processes@;
        let proc = self.all_processes[h];
        if !proc.is_assigned() && proc.get_arrival_time() <= self.runtime {
            let pos = self.get_partition_position(&proc, algorithm);
            if let Some(index) = pos {
                proof {
                    lemma_fit_selection(p_before, proc.memory_required, *algorithm);
                    lemma_contiguous_bound(p_before, self.size, index as int);
                }
                let removed = self.partitions.remove(index);
                let mut proc2 = self.all_processes[h];
                let (part1, part2) = removed.divide(&mut proc2, h);
                self.all_processes[h] = proc2;
                self.partitions.insert(index, part1);
                if let Some(part2v) = part2 {
                    let cur_len = self.partitions.len();
                    assert(index < cur_len);
                    self.partitions.insert(index + 1, part2v);
                }
                proof {
                    lemma_assign_step_eq(
                        h,
                        p_before,
                        a_before,
                        old(self).runtime,
                        *algorithm,
                        index as int,
                        part1,
                        part2,
                        proc2,
                    );
                }
            } else {
                proof {
                    lemma_assign_one_noop(h, p_before, a_before, old(self).runtime, *algorithm);
                }
            }
        } else {
            proof {
                lemma_assign_one_noop(h, p_before, a_before, old(self).runtime, *algorithm);
            }
        }
    }

    /// Offers every eligible backlog process a placement, in backlog order:
    /// an unassigned process that has arrived is placed into the hole the
    /// strategy selects, splitting it in place; a process no hole fits is
    /// left untouched.  Later processes see the table as split by earlier
    /// ones.
    pub fn partition_assignment(&mut self, algorithm: Algorithm)
        requires
            parts_contiguous(old(self).partitions@, old(self).size),
            occupant_ok(old(self).partitions@, old(self).all_processes@),
            occupants_distinct(old(self).partitions@),
            no_adjacent_free(old(self).partitions@),
            backlog_ok(old(self).processes@, old(self).all_processes@),
        ensures
            (final(self).partitions@, final(self).all_processes@) == assign_pass(
                old(self).processes@,
                old(self).partitions@,
                old(self).all_processes@,
                old(self).runtime,
                algorithm,
            ),
            final(self).processes@ == old(self).processes@,
            final(self).runtime == old(self).runtime,
            final(self).size == old(self).size,
    {
        let ghost backlog0 = self.processes@;
        let ghost parts0 = self.partitions@;
        let ghost ps0 = self.all_processes@;
        let mut k: usize = 0;
        while k < self.processes.len()
            invariant
                0 <= k <= backlog0.len(),
                self.processes@ == backlog0,
                self.runtime == old(self).runtime,
                self.size == old(self).size,
                backlog_ok(backlog0, ps0),
                parts_contiguous(parts0, self.size),
                occupant_ok(parts0, ps0),
                occupants_distinct(parts0),
                no_adjacent_free(parts0),
                (self.partitions@, self.all_processes@) == assign_prefix(
                    backlog0,
                    parts0,
                    ps0,
                    old(self).runtime,
                    algorithm,
                    k as int,
                ),
            decreases backlog0.len() - k,
        {
            proof {
                lemma_assign_prefix_props(
                    backlog0,
                    parts0,
                    ps0,
                    old(self).runtime,
                    algorithm,
                    self.size,
                    k as int,
                );
            }
            let h = self.processes[k];
            self.assign_step(h, &algorithm);
            k = k + 1;
        }
    }

    /// Removes every ended process from the backlog, keeping the order of
    /// the rest.
    fn prune_processes(&mut self)
        ensures
            final(self).processes@ == prune(old(self).processes@, old(self).all_processes@),
            final(self).all_processes@ == old(self).all_processes@,
            final(self).partitions@ == old(self).partitions@,
            final(self).runtime == old(self).runtime,
            final(self).size == old(self).size,
    {
        let ghost backlog0 = self.processes@;
        let mut kept: Vec<usize> = Vec::new();
        let mut k: usize = 0;
        proof {
            assert(backlog0.take(0) =~= Seq::<usize>::empty());
        }
        while k < self.processes.len()
            invariant
                0 <= k <= backlog0.len(),
                self.processes@ == backlog0,
                self.all_processes@ == old(self).all_processes@,
                kept@ == prune(backlog0.take(k as int), self.all_processes@),
            decreases backlog0.len() - k,
        {
            let h = self.processes[k];
            proof {
                assert(backlog0.take(k + 1).drop_last() =~= backlog0.take(k as int));
                assert(backlog0.take(k + 1).last() == h);
            }
            if h < self.all_processes.len() && !self.all_processes[h].has_ended() {
                kept.push(h);
            }
            k = k + 1;
        }
        proof {
            assert(backlog0.take(backlog0.len() as int) =~= backlog0);
        }
        self.processes = kept;
    }

    /// Drives one simulation tick: ages every occupied partition and frees
    /// those whose occupant ended, coalesces adjacent holes, places every
    /// eligible backlog process by the given strategy, removes ended
    /// processes from the backlog, and moves the tick count up by one.
    pub fn update(&mut self, algorithm: Algorithm)
        requires
            old(self).wf(),
            old(self).runtime < u32::MAX,
        ensures
            final(self).wf(),
            no_adjacent_free(final(self).partitions@),
            update_rel(*old(self), *final(self), algorithm),
    {
        let ghost pre = *old(self);
        proof {
            lemma_age_prefix_props(pre.partitions@, pre.all_processes@, pre.partitions@.len() as int);
        }
        self.age_partitions();
        let ghost p1 = self.partitions@;
        let ghost a1 = self.all_processes@;
        proof {
            assert(parts_contiguous(p1, self.size)) by {
                assert forall|i: int|
                    1 <= i < p1.len() implies (#[trigger] p1[i]).initial_adress == p1[i
                    - 1].initial_adress + p1[i - 1].size by {
                    assert(pre.partitions@[i].initial_adress == pre.partitions@[i
                        - 1].initial_adress + pre.partitions@[i - 1].size);
                }
            }
        }
        self.merge_partitions();
        proof {
            assert(Seq::<Partition>::empty() + p1 =~= p1);
            lemma_coalesce_go_props(p1, Seq::empty(), a1, self.size);
        }
        self.partition_assignment(algorithm);
        self.prune_processes();
        self.runtime = self.runtime + 1;
        proof {
            lemma_update_wf(pre, *self, algorithm);
        }
    }

    /// Whether any process, placed or not, has yet to finish.
    pub fn has_processes_waiting(&self) -> (r: bool)
        ensures
            r == (self.processes@.len() > 0),
    {
        !self.processes.is_empty()
    }

    /// The trace line for the current state, as appended to the record
    /// after each tick: the tick count, every partition's textual form, and
    /// a closing `Return`.
    pub fn trace_line(&self) -> (r: String)
        requires
            occupant_ok(self.partitions@, self.all_processes@),
        ensures
            r@ == trace_of(*self),
    {
        let mut r = String::new();
        push_decimal(&mut r, self.runtime);
        proof {
            assert(r@ =~= dec_digits(self.runtime as nat) + parts_repr(
                self.partitions@.take(0),
                self.all_processes@,
            ));
        }
        let mut i: usize = 0;
        while i < self.partitions.len()
            invariant
                0 <= i <= self.partitions@.len(),
                occupant_ok(self.partitions@, self.all_processes@),
                r@ == dec_digits(self.runtime as nat) + parts_repr(
                    self.partitions@.take(i as int),
                    self.all_processes@,
                ),
            decreases self.partitions@.len() - i,
        {
            push_char(&mut r, ' ');
            let pr = self.partitions[i].repr(&self.all_processes);
            r.append(pr.as_str());
            proof {
                assert(self.partitions@.take(i + 1).drop_last() =~= self.partitions@.take(
                    i as int,
                ));
                assert(self.partitions@.take(i + 1).last() == self.partitions@[i as int]);
                assert(r@ =~= dec_digits(self.runtime as nat) + parts_repr(
                    self.partitions@.take(i + 1),
                    self.all_processes@,
                ));
            }
            i = i + 1;
        }
        proof {
            assert(self.partitions@.take(self.partitions@.len() as int) =~= self.partitions@);
        }
        r.append(" Return");
        proof {
            assert(r@ =~= trace_of(*self));
        }
        r
    }

    /// A read-only snapshot of the partition table, in address order.
    pub fn get_partitions(&self) -> (r: Vec<Partition>)
        ensures
            r@ == self.partitions@,
    {
        let mut r: Vec<Partition> = Vec::new();
        let mut i: usize = 0;
        while i < self.partitions.len()
            invariant
                0 <= i <= self.partitions@.len(),
                r@ == self.partitions@.take(i as int),
            decreases self.partitions@.len() - i,
        {
            r.push(self.partitions[i]);
            proof {
                assert(self.partitions@.take(i + 1) =~= self.partitions@.take(i as int).push(
                    self.partitions@[i as int],
                ));
            }
            i = i + 1;
        }
        proof {
            assert(self.partitions@.take(self.partitions@.len() as int) =~= self.partitions@);
        }
        r
    }
}

} // verus!
