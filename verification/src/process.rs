//! Processes: units of memory demand read from the input, one per line.

use vstd::prelude::*;
use crate::text::digits_val;
use crate::text::is_digits;
use crate::text::parse_u32;
use crate::text::str_to_chars;
use crate::text::tokenize;
use crate::text::tokens_of;
use crate::text::views_of;

verus! {

/// A process: demands `memory_required` units of memory from tick
/// `arrival_time` on, for `runtime` ticks.
#[derive(Clone, Copy, Debug, PartialEq, Eq, Structural)]
pub struct Process {
    pub id: u32,
    pub arrival_time: u32,
    pub memory_required: u32,
    pub runtime: u32,
    pub is_assigned: bool,
}

/// Why an input line was rejected.
#[derive(Clone, Copy, Debug, PartialEq, Eq, Structural)]
pub enum ParseError {
    /// Fewer than four whitespace-separated fields.
    MissingField,
    /// A field among the first four is not an unsigned decimal number
    /// that fits a `u32`.
    InvalidNumber,
}

/// A token acceptable as one field: decimal digits only, value within `u32`.
pub open spec fn numeric_ok(t: Seq<char>) -> bool {
    is_digits(t) && digits_val(t) <= u32::MAX
}

/// Whether a line parses: at least four fields, the first four numeric.
/// Fields beyond the fourth are ignored.
pub open spec fn parse_ok(line: Seq<char>) -> bool {
    let ts = tokens_of(line);
    ts.len() >= 4 && forall|k: int| 0 <= k < 4 ==> numeric_ok(#[trigger] ts[k])
}

/// The process described by a well-formed line: the fields are
/// `id arrival_time memory_required runtime`, in that order.
pub open spec fn parsed(line: Seq<char>) -> Process {
    let ts = tokens_of(line);
    Process {
        id: digits_val(ts[0]) as u32,
        arrival_time: digits_val(ts[1]) as u32,
        memory_required: digits_val(ts[2]) as u32,
        runtime: digits_val(ts[3]) as u32,
        is_assigned: false,
    }
}

/// The error a malformed line is rejected with.
pub open spec fn parse_err(line: Seq<char>) -> ParseError {
    let ts = tokens_of(line);
    if exists|k: int| 0 <= k < 4 && k < ts.len() && !numeric_ok(#[trigger] ts[k]) {
        ParseError::InvalidNumber
    } else {
        ParseError::MissingField
    }
}

/// A process one tick later: runtime one lower, floored at zero.
pub open spec fn ticked(p: Process) -> Process {
    Process { runtime: if p.runtime > 0 { (p.runtime - 1) as u32 } else { 0u32 }, ..p }
}

impl Process {
    /// Reads the fields `id arrival_time memory_required runtime` from a
    /// line already split into characters.
    pub fn parse_chars(line: &Vec<char>) -> (r: Result<Process, ParseError>)
        ensures
            r is Ok <==> parse_ok(line@),
            r matches Ok(p) ==> p == parsed(line@),
            r matches Err(e) ==> e == parse_err(line@),
    {
        let ts = tokenize(line);
        let ghost tsv = tokens_of(line@);
        let n = ts.len();
        let mut vals: Vec<u32> = Vec::new();
        let mut k: usize = 0;
        while k < 4 && k < n
            invariant
                views_of(ts@) == tsv,
                tsv == tokens_of(line@),
                n == ts@.len(),
                0 <= k <= 4,
                k <= n,
                vals@.len() == k,
                forall|j: int| 0 <= j < k ==> numeric_ok(#[trigger] tsv[j]),
                forall|j: int| 0 <= j < k ==> #[trigger] vals@[j] == digits_val(tsv[j]),
            decreases 4 - k,
        {
            assert(ts@[k as int]@ == tsv[k as int]);
            match parse_u32(&ts[k]) {
                Some(v) => {
                    vals.push(v);
                },
                None => {
                    proof {
                        let ts2 = tokens_of(line@);
                        assert(!numeric_ok(ts2[k as int]));
                        assert(0 <= k < 4 && (k as int) < ts2.len());
                        assert(parse_err(line@) == ParseError::InvalidNumber);
                        assert(!parse_ok(line@));
                    }
                    return Err(ParseError::InvalidNumber);
                },
            }
            k = k + 1;
        }
        if n < 4 {
            return Err(ParseError::MissingField);
        }
        Ok(
            Process {
                id: vals[0],
                arrival_time: vals[1],
                memory_required: vals[2],
                runtime: vals[3],
                is_assigned: false,
            },
        )
    }

    /// Reads a process from one input line.
    pub fn parse(line: &str) -> (r: Result<Process, ParseError>)
        ensures
            r is Ok <==> parse_ok(line@),
            r matches Ok(p) ==> p == parsed(line@),
            r matches Err(e) ==> e == parse_err(line@),
    {
        let cs = str_to_chars(line);
        Self::parse_chars(&cs)
    }

    /// Reads a process from a line known to be well-formed.
    pub fn from(value: &str) -> (p: Process)
        requires
            parse_ok(value@),
        ensures
            p == parsed(value@),
    {
        match Self::parse(value) {
            Ok(p) => p,
            Err(_) => vstd::pervasive::unreached(),
        }
    }

    /// Ages the process by one tick; the runtime floors at zero.
    pub fn update(&mut self)
        ensures
            *final(self) == ticked(*old(self)),
    {
        if self.runtime > 0 {
            self.runtime = self.runtime - 1;
        }
    }

    /// Whether the process has used up its runtime.
    pub fn has_ended(&self) -> (r: bool)
        ensures
            r == (self.runtime == 0),
    {
        self.runtime == 0
    }

    pub fn get_arrival_time(&self) -> (r: u32)
        ensures
            r == self.arrival_time,
    {
        self.arrival_time
    }

    pub fn get_memory_required(&self) -> (r: u32)
        ensures
            r == self.memory_required,
    {
        self.memory_required
    }

    /// Records that the process has been placed into a partition.
    pub fn assign(&mut self)
        ensures
            *final(self) == (Process { is_assigned: true, ..*old(self) }),
    {
        self.is_assigned = true;
    }

    pub fn is_assigned(&self) -> (r: bool)
        ensures
            r == self.is_assigned,
    {
        self.is_assigned
    }
}

} // verus!
