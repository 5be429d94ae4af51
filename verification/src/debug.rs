//! What a replica looks like from the inside.

use vstd::prelude::*;
use vstd::string::StringExecFns;

use crate::backlog::BackLog;
use crate::clocks::{InsertionClock, LamportClock};
use crate::edit_run::EditRun;
use crate::maps::{DeletionMap, VersionMap};
use crate::replica_id::ReplicaId;
use crate::run_indices::RunIndices;
use crate::run_tree::RunTree;

verus! {

/// The parts of a replica, with the text in a form of its own.
#[derive(Debug)]
pub struct Replica<'a, T> {
    pub id: ReplicaId,
    pub run_tree: T,
    pub run_indices: &'a RunIndices,
    pub lamport_clock: LamportClock,
    pub insertion_clock: InsertionClock,
    pub version_map: &'a VersionMap,
    pub deletion_map: &'a DeletionMap,
    pub backlog: &'a BackLog,
}

/// The runs of a text in order.
#[derive(Debug)]
pub struct RunsInOrder {
    pub runs: Vec<EditRun>,
}

/// Shows the runs of a replica by their names.
pub type DebugAsSelf<'a> = Replica<'a, &'a RunTree>;

/// Shows the runs of a replica in the order of the text.
pub type DebugAsBtree<'a> = Replica<'a, RunsInOrder>;

impl RunTree {
    /// The runs in the order of the text.
    pub fn in_order(&self) -> (res: RunsInOrder)
        requires
            self.shaped(),
        ensures
            res.runs@ == self.runs(),
    {
        let mut runs: Vec<EditRun> = Vec::new();
        let mut p: usize = 0;
        while p < self.order.len()
            invariant
                self.shaped(),
                p <= self.order@.len(),
                runs@ == self.runs().take(p as int),
            decreases self.order@.len() - p,
        {
            runs.push(self.run_at(p));
            p = p + 1;
            assert(runs@ =~= self.runs().take(p as int));
        }
        assert(runs@ =~= self.runs());
        RunsInOrder { runs }
    }
}

/// A digit in base 16.
pub open spec fn hex_digit(d: int) -> char {
    if d < 10 {
        (d + 48) as char
    } else {
        (d + 87) as char
    }
}

/// A number in base 16.
pub open spec fn hex(n: nat) -> Seq<char>
    decreases n,
{
    if n < 16 {
        seq![hex_digit(n as int)]
    } else {
        hex(n / 16).push(hex_digit((n % 16) as int))
    }
}

/// The value of a digit in base 16.
pub open spec fn digit_value(c: char) -> int {
    if '0' <= c <= '9' {
        c as int - '0' as int
    } else {
        c as int - 'a' as int + 10
    }
}

/// The number that digits in base 16 stand for.
pub open spec fn hex_value(digits: Seq<char>) -> int
    decreases digits.len(),
{
    if digits.len() == 0 {
        0
    } else {
        hex_value(digits.drop_last()) * 16 + digit_value(digits.last())
    }
}

/// A number that has been written in base 16 is read back. It is written with the digits from `0`
/// to `9` and from `a` to `f`, and does not start with a `0`, unless it is 0.
pub proof fn law_hex_stands_for_its_number(n: nat)
    ensures
        hex_value(hex(n)) == n,
        hex(n).len() > 0,
        n > 0 ==> hex(n)[0] != '0',
        forall|i: int|
            0 <= i < hex(n).len() ==> '0' <= #[trigger] hex(n)[i] <= '9' || 'a' <= hex(n)[i]
                <= 'f',
    decreases n,
{
    if n < 16 {
        let digits = hex(n);
        assert(digits =~= seq![hex_digit(n as int)]);
        assert(digits.drop_last() =~= Seq::<char>::empty());
        assert(hex_value(digits.drop_last()) == 0);
    } else {
        law_hex_stands_for_its_number(n / 16);
        assert(hex(n).drop_last() =~= hex(n / 16));
        assert(hex(n)[0] == hex(n / 16)[0]);
        assert forall|i: int| 0 <= i < hex(n).len() implies '0' <= #[trigger] hex(n)[i] <= '9'
            || 'a' <= hex(n)[i] <= 'f' by {
            if i < hex(n / 16).len() {
                assert(hex(n)[i] == hex(n / 16)[i]);
            }
        }
    }
}

fn digit(d: u64) -> (s: &'static str)
    requires
        d < 16,
    ensures
        s@ == seq![hex_digit(d as int)],
{
    proof {
        reveal_strlit("0");
        reveal_strlit("1");
        reveal_strlit("2");
        reveal_strlit("3");
        reveal_strlit("4");
        reveal_strlit("5");
        reveal_strlit("6");
        reveal_strlit("7");
        reveal_strlit("8");
        reveal_strlit("9");
        reveal_strlit("a");
        reveal_strlit("b");
        reveal_strlit("c");
        reveal_strlit("d");
        reveal_strlit("e");
        reveal_strlit("f");
    }
    let s = match d {
        0 => "0",
        1 => "1",
        2 => "2",
        3 => "3",
        4 => "4",
        5 => "5",
        6 => "6",
        7 => "7",
        8 => "8",
        9 => "9",
        10 => "a",
        11 => "b",
        12 => "c",
        13 => "d",
        14 => "e",
        _ => "f",
    };
    assert(s@ =~= seq![hex_digit(d as int)]);
    s
}

/// Writes a number in base 16 at the end of a text.
pub fn append_hex(out: &mut String, n: u64)
    ensures
        final(out)@ == old(out)@ + hex(n as nat),
    decreases n,
{
    if n >= 16 {
        append_hex(out, n / 16);
    }
    out.append(digit(n % 16));
    assert(out@ =~= old(out)@ + hex(n as nat));
}

} // verus!
