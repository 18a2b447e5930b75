use vstd::prelude::*;

use crate::game::GameMessage;
use crate::turn::{awaited, Expect};

verus! {

/// Scan the inbound messages from `start` for the first one that matches
/// what is awaited; everything skipped on the way matched nothing awaited.
/// The position returned lets the caller resume the scan after the match.
pub fn take_one(items: &Vec<GameMessage>, start: usize, expect: Expect) -> (r: Result<
    (GameMessage, usize),
    &'static str,
>)
    ensures
        match r {
            Ok(p) => start <= p.1 < items@.len() && p.0 == items@[p.1 as int] && awaited(
                expect,
                p.0,
            ) && (forall|j: int| start <= j < p.1 ==> !awaited(expect, #[trigger] items@[j])),
            Err(e) => e@ == "no items in iterator"@ && (forall|j: int|
                start <= j < items@.len() ==> !awaited(expect, #[trigger] items@[j])),
        },
{
    let mut i = start;
    while i < items.len()
        invariant
            start <= i,
            i <= items@.len() || i == start,
            forall|j: int| start <= j < i ==> !awaited(expect, #[trigger] items@[j]),
        decreases items@.len() - i,
    {
        let m = items[i];
        if crate::turn::wants(expect, &m) {
            return Ok((m, i));
        }
        i += 1;
    }
    Err("no items in iterator")
}

} // verus!
