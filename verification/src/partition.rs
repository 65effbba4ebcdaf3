//! Partitions: contiguous spans of the simulated memory region, each free
//! (a hole) or occupied by exactly one process.

use vstd::prelude::*;
use vstd::string::StringExecFns;
use crate::process::Process;
use crate::process::ticked;
use crate::text::dec_digits;
use crate::text::push_char;
use crate::text::push_decimal;

verus! {

/// A memory partition.  `process` holds the occupant as an index into the
/// simulator's process store, or `None` for a hole.
#[derive(Clone, Copy, Debug)]
pub struct Partition {
    pub initial_adress: u32,
    pub size: u32,
    pub process: Option<usize>,
}

/// The partitions produced by placing process `handle`, requiring `req`
/// units, into a partition `pt` with `req <= pt.size`: an occupied partition
/// of exactly `req` units at the same address and, only when `req < pt.size`,
/// a free remainder right after it.
pub open spec fn split_parts(pt: Partition, req: u32, handle: usize) -> (
    Partition,
    Option<Partition>,
) {
    let occupied = Partition { initial_adress: pt.initial_adress, size: req, process: Some(handle) };
    if req == pt.size {
        (occupied, None)
    } else {
        (
            occupied,
            Some(
                Partition {
                    initial_adress: (pt.initial_adress + req) as u32,
                    size: (pt.size - req) as u32,
                    process: None,
                },
            ),
        )
    }
}

/// The textual form of a partition as persisted in the trace:
/// `[<address> Hole <size>]` when free, `[<address> P<id> <size>]` when
/// occupied.
pub open spec fn part_repr(pt: Partition, ps: Seq<Process>) -> Seq<char> {
    seq!['['] + dec_digits(pt.initial_adress as nat) + seq![' '] + (match pt.process {
        None => "Hole"@,
        Some(h) => seq!['P'] + dec_digits(ps[h as int].id as nat),
    }) + seq![' '] + dec_digits(pt.size as nat) + seq![']']
}

impl Partition {
    /// A hole of `size` units at `initial_adress`.
    pub fn new_empty(initial_adress: u32, size: u32) -> (r: Self)
        ensures
            r == (Partition { initial_adress, size, process: None }),
    {
        Self { initial_adress, size, process: None }
    }

    /// Splits this free partition for a fitting process: the occupied part
    /// takes exactly what the process requires, at the same address; a free
    /// remainder follows iff something is left.  The process is marked
    /// assigned.
    pub fn divide(self, process: &mut Process, handle: usize) -> (r: (Self, Option<Self>))
        requires
            self.process is None,
            old(process).memory_required <= self.size,
            self.initial_adress + self.size <= u32::MAX,
        ensures
            *final(process) == (Process { is_assigned: true, ..*old(process) }),
            r == split_parts(self, old(process).memory_required, handle),
    {
        let memory_required = process.get_memory_required();
        process.assign();
        if memory_required == self.size {
            (
                Self {
                    initial_adress: self.initial_adress,
                    size: memory_required,
                    process: Some(handle),
                },
                None,
            )
        } else {
            (
                Self {
                    initial_adress: self.initial_adress,
                    size: memory_required,
                    process: Some(handle),
                },
                Some(
                    Self {
                        initial_adress: self.initial_adress + memory_required,
                        size: self.size - memory_required,
                        process: None,
                    },
                ),
            )
        }
    }

    /// Ages the occupant, if any, by one tick in the process store; a
    /// partition whose occupant has ended becomes free.
    pub fn update(&mut self, processes: &mut Vec<Process>)
        requires
            old(self).process matches Some(h) ==> h < old(processes)@.len(),
        ensures
            old(self).process is None ==> *final(self) == *old(self) && final(processes)@ == old(
                processes,
            )@,
            old(self).process matches Some(h) ==> final(processes)@ == old(processes)@.update(
                h as int,
                ticked(old(processes)@[h as int]),
            ) && *final(self) == (Partition {
                process: if ticked(old(processes)@[h as int]).runtime == 0 {
                    None
                } else {
                    Some(h)
                },
                ..*old(self)
            }),
    {
        if let Some(h) = self.process {
            let mut p = processes[h];
            p.update();
            let ended = p.has_ended();
            processes[h] = p;
            if ended {
                self.process = None;
            }
        }
    }

    /// Whether the partition is a hole.
    pub fn is_free(&self) -> (r: bool)
        ensures
            r == (self.process is None),
    {
        self.process.is_none()
    }

    /// Absorbs the size of `other` when both partitions are free; otherwise
    /// leaves this partition unchanged.  The caller is responsible for only
    /// merging address-adjacent neighbors, in address order.
    pub fn merge(&mut self, other: Self)
        requires
            old(self).size + other.size <= u32::MAX,
        ensures
            old(self).process is None && other.process is None ==> *final(self) == (Partition {
                size: (old(self).size + other.size) as u32,
                ..*old(self)
            }),
            !(old(self).process is None && other.process is None) ==> *final(self) == *old(self),
    {
        if self.is_free() && other.is_free() {
            self.size = self.size + other.size;
        }
    }

    pub fn get_size(&self) -> (r: u32)
        ensures
            r == self.size,
    {
        self.size
    }

    pub fn get_initial_adress(&self) -> (r: u32)
        ensures
            r == self.initial_adress,
    {
        self.initial_adress
    }

    /// The textual form of the partition; `processes` is the simulator's
    /// process store.
    pub fn repr(&self, processes: &Vec<Process>) -> (r: String)
        requires
            self.process matches Some(h) ==> h < processes@.len(),
        ensures
            r@ == part_repr(*self, processes@),
    {
        let mut r = String::new();
        push_char(&mut r, '[');
        push_decimal(&mut r, self.initial_adress);
        push_char(&mut r, ' ');
        match self.process {
            None => {
                r.append("Hole");
            },
            Some(h) => {
                push_char(&mut r, 'P');
                push_decimal(&mut r, processes[h].id);
            },
        }
        push_char(&mut r, ' ');
        push_decimal(&mut r, self.size);
        push_char(&mut r, ']');
        assert(r@ =~= part_repr(*self, processes@));
        r
    }
}

} // verus!
