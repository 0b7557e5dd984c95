//! Which session directories `session clean` removes, and when it refuses.

use vstd::prelude::*;

use crate::error::{diagnostic_of, kind_of, owned, AppError, Diagnostic, ErrorKind};
use crate::login::error_is;
use crate::witness::{verdict_of, Ground, Verdict};

verus! {

/// Whether this run was unable to place itself while judging some directory.
pub open spec fn any_unplaced(grounds: Seq<Ground>) -> bool {
    exists|i: int| 0 <= i < grounds.len() && grounds[i] == Ground::Unplaced
}

/// The positions of the directories a clean removes: every one this run
/// cannot prove is live, in order.
pub open spec fn collectable_positions(grounds: Seq<Ground>) -> Seq<usize>
    decreases grounds.len(),
{
    if grounds.len() == 0 {
        Seq::empty()
    } else {
        let before = collectable_positions(grounds.drop_last());
        if verdict_of(grounds.last()) != Verdict::Live {
            before.push((grounds.len() - 1) as usize)
        } else {
            before
        }
    }
}

/// Plans a clean: refuses when this run could not name its own place, since
/// every directory would then read as unaccounted for; otherwise names every
/// directory whose agent is not proven live.
pub fn clean_plan(grounds: &Vec<Ground>) -> (r: Result<Vec<usize>, AppError>)
    ensures
        any_unplaced(grounds@) ==> (r matches Err(e) && error_is(
            e,
            ErrorKind::Unavailable,
            "session clean cannot judge this tree"@,
            "the namespace of this run"@,
            "this run cannot name the namespace its own session directories are scoped by"@,
            "see what each session is judged as with: session-wrapper session list"@,
        )),
        !any_unplaced(grounds@) ==> (r matches Ok(p) && p@ == collectable_positions(grounds@)),
{
    let mut i: usize = 0;
    while i < grounds.len()
        invariant
            i <= grounds@.len(),
            forall|k: int| 0 <= k < i ==> grounds@[k] != Ground::Unplaced,
        decreases grounds.len() - i,
    {
        match grounds[i] {
            Ground::Unplaced => {
                return Err(AppError::new(
                    ErrorKind::Unavailable,
                    Diagnostic::new(
                        owned("session clean cannot judge this tree"),
                        owned("the namespace of this run"),
                        owned("this run cannot name the namespace its own session directories are scoped by"),
                        owned("see what each session is judged as with: session-wrapper session list"),
                    ),
                ));
            },
            _ => {},
        }
        i = i + 1;
    }
    let mut positions: Vec<usize> = Vec::new();
    let mut k: usize = 0;
    while k < grounds.len()
        invariant
            k <= grounds@.len(),
            positions@ == collectable_positions(grounds@.take(k as int)),
        decreases grounds.len() - k,
    {
        proof {
            assert(grounds@.take(k + 1).drop_last() =~= grounds@.take(k as int));
        }
        if grounds[k].verdict().collectable() {
            positions.push(k);
        }
        k = k + 1;
    }
    proof {
        assert(grounds@.take(grounds@.len() as int) =~= grounds@);
    }
    Ok(positions)
}

/// A clean confirmed on no terminal cannot be confirmed at all.
pub fn clean_confirmation_unavailable(why: String) -> (r: AppError)
    ensures
        error_is(
            r,
            ErrorKind::Unavailable,
            "session clean needs a controlling terminal to confirm"@,
            "/dev/tty"@,
            why@,
            "pass --yes to collect without confirming"@,
        ),
{
    AppError::new(
        ErrorKind::Unavailable,
        Diagnostic::new(
            owned("session clean needs a controlling terminal to confirm"),
            owned("/dev/tty"),
            why,
            owned("pass --yes to collect without confirming"),
        ),
    )
}

/// Every position a clean names holds a directory whose agent is not proven
/// live, so a running agent's directory is never removed.
pub proof fn law_clean_never_names_a_live_session(grounds: Seq<Ground>)
    requires
        grounds.len() <= usize::MAX,
    ensures
        forall|i: int| 0 <= i < collectable_positions(grounds).len() ==> {
            let p = #[trigger] collectable_positions(grounds)[i] as int;
            0 <= p < grounds.len() && verdict_of(grounds[p]) != Verdict::Live
        },
    decreases grounds.len(),
{
    if grounds.len() > 0 {
        law_clean_never_names_a_live_session(grounds.drop_last());
        let before = collectable_positions(grounds.drop_last());
        assert forall|i: int| 0 <= i < before.len() implies {
            let p = #[trigger] before[i] as int;
            0 <= p < grounds.len() && verdict_of(grounds[p]) != Verdict::Live
        } by {
            let p = before[i] as int;
            assert(grounds.drop_last()[p] == grounds[p]);
        }
        let all = collectable_positions(grounds);
        assert forall|i: int| 0 <= i < all.len() implies {
            let p = #[trigger] all[i] as int;
            0 <= p < grounds.len() && verdict_of(grounds[p]) != Verdict::Live
        } by {
            if i < before.len() {
                assert(all[i] == before[i]);
            }
        }
    }
}

} // verus!
