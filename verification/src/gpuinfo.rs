//! The report on a loaded module: which kernels of the set it does not resolve.
use crate::ops::{COUNT, NAMES};
use crate::text::usize_string;
use vstd::prelude::*;

verus! {

/// What is said of the kernels of the set that did not resolve, among the first
/// `count`.
pub open spec fn unresolved(faults: Seq<Option<String>>, count: nat) -> Seq<Seq<char>>
    decreases count,
{
    if count == 0 {
        Seq::empty()
    } else {
        let front = unresolved(faults, (count - 1) as nat);
        match crate::text::optional(faults[count - 1]) {
            Some(why) => front.push(NAMES[count - 1]@ + ": "@ + why),
            None => front,
        }
    }
}

/// Lines, each but the first on a new line and set in.
pub open spec fn indented(lines: Seq<Seq<char>>) -> Seq<char>
    decreases lines.len(),
{
    if lines.len() == 0 {
        Seq::empty()
    } else if lines.len() == 1 {
        lines[0]
    } else {
        indented(lines.drop_last()) + "\n  "@ + lines.last()
    }
}

/// The report on kernels that did not resolve.
pub open spec fn report(lines: Seq<Seq<char>>) -> Seq<char> {
    crate::text::decimal(lines.len()) + " of "@ + crate::text::decimal(COUNT as nat)
        + " kernels did not resolve:\n  "@ + indented(lines)
}

/// Did every kernel of the set resolve? `faults` holds, for each name of the set,
/// what was said where it did not.
pub fn check_resolved(faults: &Vec<Option<String>>) -> (r: Result<(), String>)
    requires
        faults@.len() == COUNT,
    ensures
        match r {
            Ok(_) => forall|i: int| 0 <= i < COUNT ==> (#[trigger] faults@[i]) is None,
            Err(e) => unresolved(faults@, COUNT as nat).len() > 0 && e@ == report(
                unresolved(faults@, COUNT as nat),
            ),
        },
{
    let mut list = String::new();
    let mut missing: usize = 0;
    let mut i: usize = 0;
    while i < COUNT
        invariant
            i <= COUNT,
            missing <= i,
            faults@.len() == COUNT,
            missing == unresolved(faults@, i as nat).len(),
            list@ == indented(unresolved(faults@, i as nat)),
            missing == 0 ==> forall|j: int| 0 <= j < i ==> (#[trigger] faults@[j]) is None,
        decreases COUNT - i,
    {
        let ghost before = unresolved(faults@, i as nat);
        if let Some(why) = &faults[i] {
            let ghost text = NAMES[i as int]@ + ": "@ + why@;
            let mut line = NAMES[i].to_owned();
            line.append(": ");
            line.append(why.as_str());
            assert(before.push(text).drop_last() =~= before);
            if missing > 0 {
                list.append("\n  ");
                list.append(line.as_str());
            } else {
                list.append(line.as_str());
                assert(list@ =~= text);
            }
            missing += 1;
        }
        i += 1;
    }
    if missing == 0 {
        return Ok(());
    }
    let mut e = usize_string(missing);
    e.append(" of ");
    let all = usize_string(COUNT);
    e.append(all.as_str());
    e.append(" kernels did not resolve:\n  ");
    e.append(list.as_str());
    Err(e)
}

/// The list names every kernel that did not resolve, with what was said of it, in the
/// order of the set, and no other.
pub proof fn every_fault_is_listed(faults: Seq<Option<String>>, count: nat) -> (of: Seq<int>)
    ensures
        of.len() == unresolved(faults, count).len(),
        forall|k: int|
            0 <= k < of.len() ==> 0 <= #[trigger] of[k] < count && faults[of[k]] is Some
                && unresolved(faults, count)[k] == NAMES[of[k]]@ + ": "@ + faults[of[k]].unwrap()@,
        forall|k: int, l: int| 0 <= k < l < of.len() ==> #[trigger] of[k] < #[trigger] of[l],
        forall|i: int| 0 <= i < count && (#[trigger] faults[i]) is Some ==> of.contains(i),
    decreases count,
{
    if count == 0 {
        Seq::empty()
    } else {
        let last = count - 1;
        let front = every_fault_is_listed(faults, last as nat);
        if faults[last] is Some {
            let of = front.push(last);
            assert forall|i: int| 0 <= i < count && (#[trigger] faults[i]) is Some implies of.contains(
                i,
            ) by {
                if i < last {
                    let k = choose|k: int| 0 <= k < front.len() && front[k] == i;
                    assert(of[k] == i);
                } else {
                    assert(of[front.len() as int] == i);
                }
            }
            of
        } else {
            front
        }
    }
}

/// A report counts what it lists, and says how many kernels there are.
pub proof fn reports_count_their_lines(lines: Seq<Seq<char>>, line: Seq<char>)
    ensures
        report(lines) == crate::text::decimal(lines.len()) + " of "@ + crate::text::decimal(47)
            + " kernels did not resolve:\n  "@ + indented(lines),
        indented(seq![line]) == line,
        lines.len() > 0 ==> indented(lines.push(line)) == indented(lines) + "\n  "@ + line,
{
    assert(lines.push(line).drop_last() =~= lines);
}

} // verus!
