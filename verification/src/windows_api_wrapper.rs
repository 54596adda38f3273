//! Adding and removing several font resources at once.
//!
//! The caller makes one system call per path and hands over what each
//! returned (zero for a failure); these functions decide the outcome.

use vstd::prelude::*;

use crate::text::{decimal, push_decimal, push_str};

verus! {

/// How many of the calls succeeded.
pub open spec fn successes(results: Seq<i32>) -> nat
    decreases results.len(),
{
    if results.len() == 0 {
        0
    } else {
        successes(results.drop_last()) + if results.last() != 0 { 1nat } else { 0nat }
    }
}

fn count_successes(results: &[i32]) -> (r: usize)
    ensures
        r == successes(results@),
{
    let mut count: usize = 0;
    let mut i: usize = 0;
    proof {
        assert(results@.take(0) =~= Seq::<i32>::empty());
    }
    while i < results.len()
        invariant
            i <= results@.len(),
            count == successes(results@.take(i as int)),
            count <= i,
        decreases results.len() - i,
    {
        proof {
            assert(results@.take(i + 1).drop_last() =~= results@.take(i as int));
        }
        if results[i] != 0 {
            count += 1;
        }
        i += 1;
    }
    proof {
        assert(results@.take(results@.len() as int) =~= results@);
    }
    count
}

fn none_message(verb: &str, n: usize) -> (r: String)
    ensures
        r@ == "Failed to "@ + verb@ + " any font resources from "@ + decimal(n as nat) + " path(s)"@,
{
    let mut r = String::new();
    push_str(&mut r, "Failed to ");
    push_str(&mut r, verb);
    push_str(&mut r, " any font resources from ");
    push_decimal(&mut r, n as u64);
    push_str(&mut r, " path(s)");
    proof {
        assert(r@ =~= "Failed to "@ + verb@ + " any font resources from "@ + decimal(n as nat)
            + " path(s)"@);
    }
    r
}

/// The outcome of adding one font resource per path, given what each
/// addition returned: how many succeeded, or an error when none did.
pub fn add_font_resources(results: &[i32]) -> (r: Result<usize, String>)
    ensures
        successes(results@) > 0 ==> r == Ok::<usize, String>(successes(results@) as usize),
        successes(results@) == 0 ==> r is Err && r->Err_0@ == "Failed to "@ + "add"@
            + " any font resources from "@ + decimal(results@.len()) + " path(s)"@,
{
    let loaded = count_successes(results);
    if loaded == 0 {
        return Err(none_message("add", results.len()));
    }
    Ok(loaded)
}

/// The outcome of removing one font resource per path, given what each
/// removal returned: how many succeeded, or an error when none did.
pub fn remove_font_resources(results: &[i32]) -> (r: Result<usize, String>)
    ensures
        successes(results@) > 0 ==> r == Ok::<usize, String>(successes(results@) as usize),
        successes(results@) == 0 ==> r is Err && r->Err_0@ == "Failed to "@ + "remove"@
            + " any font resources from "@ + decimal(results@.len()) + " path(s)"@,
{
    let removed = count_successes(results);
    if removed == 0 {
        return Err(none_message("remove", results.len()));
    }
    Ok(removed)
}

} // verus!
