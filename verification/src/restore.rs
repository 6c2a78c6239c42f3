//! The restore planner: from the session's change ledger alone, compute
//! which variables to unset and which to restore to a previous value so
//! that the environment returns to its baseline.

use vstd::prelude::*;
use crate::session::{Session, TrackedChange, ChangeView};
use crate::text::lex_lt;

verus! {

/// Names the plan removes: variables the tool introduced, with no prior
/// value to go back to.
pub open spec fn plan_unset_names(s: Seq<(Seq<char>, ChangeView)>) -> Seq<Seq<char>>
    decreases s.len(),
{
    if s.len() == 0 {
        Seq::empty()
    } else {
        plan_unset_names(s.drop_last()) + (match s.last().1 {
            ChangeView::Assign { previous: None, .. } => seq![s.last().0],
            _ => Seq::empty(),
        })
    }
}

/// Pairs the plan restores: overwritten variables back to their prior
/// value, and removed variables back to the value they held.
pub open spec fn plan_restore_pairs(s: Seq<(Seq<char>, ChangeView)>) -> Seq<
    (Seq<char>, Seq<char>),
>
    decreases s.len(),
{
    if s.len() == 0 {
        Seq::empty()
    } else {
        plan_restore_pairs(s.drop_last()) + (match s.last().1 {
            ChangeView::Assign { previous: Some(p), .. } => seq![(s.last().0, p)],
            ChangeView::Assign { previous: None, .. } => Seq::empty(),
            ChangeView::Unset { previous } => seq![(s.last().0, previous)],
        })
    }
}

proof fn lemma_plan_unset_member(s: Seq<(Seq<char>, ChangeView)>, i: int)
    requires
        0 <= i < plan_unset_names(s).len(),
    ensures
        exists|k: int| 0 <= k < s.len() && plan_unset_names(s)[i] == (#[trigger] s[k]).0,
    decreases s.len(),
{
    let dl = s.drop_last();
    if i < plan_unset_names(dl).len() {
        lemma_plan_unset_member(dl, i);
        let k = choose|k: int| 0 <= k < dl.len() && plan_unset_names(dl)[i] == (#[trigger] dl[k]).0;
        assert(dl[k] == s[k]);
    } else {
        assert(s.last() == s[s.len() - 1]);
        assert(plan_unset_names(s)[i] == s[s.len() - 1].0);
    }
}

proof fn lemma_plan_restore_member(s: Seq<(Seq<char>, ChangeView)>, i: int)
    requires
        0 <= i < plan_restore_pairs(s).len(),
    ensures
        exists|k: int| 0 <= k < s.len() && plan_restore_pairs(s)[i].0 == (#[trigger] s[k]).0,
    decreases s.len(),
{
    let dl = s.drop_last();
    if i < plan_restore_pairs(dl).len() {
        lemma_plan_restore_member(dl, i);
        let k = choose|k: int|
            0 <= k < dl.len() && plan_restore_pairs(dl)[i].0 == (#[trigger] dl[k]).0;
        assert(dl[k] == s[k]);
    } else {
        assert(s.last() == s[s.len() - 1]);
        assert(plan_restore_pairs(s)[i].0 == s[s.len() - 1].0);
    }
}

/// A ledger in strictly increasing name order yields a plan in strictly
/// increasing name order: both output lists come out lexicographic, so a
/// restore plan always displays and replays deterministically.
pub proof fn lemma_plan_ordered(s: Seq<(Seq<char>, ChangeView)>)
    requires
        forall|i: int, j: int|
            #![trigger s[i], s[j]]
            0 <= i < j < s.len() ==> lex_lt(s[i].0, s[j].0),
    ensures
        forall|i: int, j: int|
            0 <= i < j < plan_unset_names(s).len() ==> lex_lt(
                #[trigger] plan_unset_names(s)[i],
                #[trigger] plan_unset_names(s)[j],
            ),
        forall|i: int, j: int|
            0 <= i < j < plan_restore_pairs(s).len() ==> lex_lt(
                (#[trigger] plan_restore_pairs(s)[i]).0,
                (#[trigger] plan_restore_pairs(s)[j]).0,
            ),
    decreases s.len(),
{
    if s.len() > 0 {
        let dl = s.drop_last();
        assert forall|i: int, j: int|
            #![trigger dl[i], dl[j]]
            0 <= i < j < dl.len() implies lex_lt(dl[i].0, dl[j].0) by {
            assert(dl[i] == s[i]);
            assert(dl[j] == s[j]);
        }
        lemma_plan_ordered(dl);
        assert(s.last() == s[s.len() - 1]);
        assert forall|i: int, j: int|
            0 <= i < j < plan_unset_names(s).len() implies lex_lt(
            #[trigger] plan_unset_names(s)[i],
            #[trigger] plan_unset_names(s)[j],
        ) by {
            if j < plan_unset_names(dl).len() {
                assert(plan_unset_names(s)[i] == plan_unset_names(dl)[i]);
                assert(plan_unset_names(s)[j] == plan_unset_names(dl)[j]);
            } else {
                assert(plan_unset_names(s)[j] == s[s.len() - 1].0);
                assert(plan_unset_names(s)[i] == plan_unset_names(dl)[i]);
                lemma_plan_unset_member(dl, i);
                let k = choose|k: int|
                    0 <= k < dl.len() && plan_unset_names(dl)[i] == (#[trigger] dl[k]).0;
                assert(dl[k] == s[k]);
                assert(lex_lt(s[k].0, s[s.len() - 1].0));
            }
        }
        assert forall|i: int, j: int|
            0 <= i < j < plan_restore_pairs(s).len() implies lex_lt(
            (#[trigger] plan_restore_pairs(s)[i]).0,
            (#[trigger] plan_restore_pairs(s)[j]).0,
        ) by {
            if j < plan_restore_pairs(dl).len() {
                assert(plan_restore_pairs(s)[i] == plan_restore_pairs(dl)[i]);
                assert(plan_restore_pairs(s)[j] == plan_restore_pairs(dl)[j]);
            } else {
                assert(plan_restore_pairs(s)[j].0 == s[s.len() - 1].0);
                assert(plan_restore_pairs(s)[i] == plan_restore_pairs(dl)[i]);
                lemma_plan_restore_member(dl, i);
                let k = choose|k: int|
                    0 <= k < dl.len() && plan_restore_pairs(dl)[i].0 == (#[trigger] dl[k]).0;
                assert(dl[k] == s[k]);
                assert(lex_lt(s[k].0, s[s.len() - 1].0));
            }
        }
    }
}

/// Split the ledger into variables to unset and variables to restore.
/// The ledger is stored in name order, so both lists come out in
/// lexicographic order by name.
pub fn preview_changes(session: &Session) -> (r: (Vec<String>, Vec<(String, String)>))
    requires
        session.wf(),
    ensures
        r.0@.map_values(|s: String| s@) == plan_unset_names(session.ledger.kvs()),
        r.1@.map_values(|p: (String, String)| (p.0@, p.1@)) == plan_restore_pairs(
            session.ledger.kvs(),
        ),
        forall|i: int, j: int|
            0 <= i < j < r.0@.len() ==> lex_lt((#[trigger] r.0@[i])@, (#[trigger] r.0@[j])@),
        forall|i: int, j: int|
            0 <= i < j < r.1@.len() ==> lex_lt(
                (#[trigger] r.1@[i]).0@,
                (#[trigger] r.1@[j]).0@,
            ),
{
    let mut to_unset: Vec<String> = Vec::new();
    let mut to_restore: Vec<(String, String)> = Vec::new();
    let n = session.ledger.entries.len();
    let mut i: usize = 0;
    proof {
        assert(session.ledger.kvs().take(0) =~= Seq::<(Seq<char>, ChangeView)>::empty());
        assert(to_unset@.map_values(|s: String| s@) =~= Seq::<Seq<char>>::empty());
        assert(to_restore@.map_values(|p: (String, String)| (p.0@, p.1@)) =~= Seq::<
            (Seq<char>, Seq<char>),
        >::empty());
    }
    while i < n
        invariant
            n == session.ledger.entries@.len(),
            i <= n,
            to_unset@.map_values(|s: String| s@) == plan_unset_names(
                session.ledger.kvs().take(i as int),
            ),
            to_restore@.map_values(|p: (String, String)| (p.0@, p.1@)) == plan_restore_pairs(
                session.ledger.kvs().take(i as int),
            ),
        decreases n - i,
    {
        let e = &session.ledger.entries[i];
        let ghost pre_u = to_unset@;
        let ghost pre_r = to_restore@;
        match &e.1 {
            TrackedChange::Assign { previous, .. } => match previous {
                Some(p) => {
                    to_restore.push((e.0.clone(), p.clone()));
                },
                None => {
                    to_unset.push(e.0.clone());
                },
            },
            TrackedChange::Unset { previous } => {
                to_restore.push((e.0.clone(), previous.clone()));
            },
        }
        proof {
            let kv = session.ledger.kvs();
            assert(kv[i as int] == (session.ledger.entries@[i as int].0@,
                session.ledger.entries@[i as int].1@));
            assert(kv.take(i as int + 1).drop_last() =~= kv.take(i as int));
            assert(kv.take(i as int + 1).last() == kv[i as int]);
            assert(to_unset@.map_values(|s: String| s@) =~= plan_unset_names(
                kv.take(i as int + 1),
            ));
            assert(to_restore@.map_values(|p: (String, String)| (p.0@, p.1@))
                =~= plan_restore_pairs(kv.take(i as int + 1)));
        }
        i += 1;
    }
    proof {
        assert(session.ledger.kvs().take(n as int) =~= session.ledger.kvs());
        let kv = session.ledger.kvs();
        assert forall|p: int, q: int|
            #![trigger kv[p], kv[q]]
            0 <= p < q < kv.len() implies lex_lt(kv[p].0, kv[q].0) by {
            assert(kv[p] == (session.ledger.entries@[p].0@, session.ledger.entries@[p].1@));
            assert(kv[q] == (session.ledger.entries@[q].0@, session.ledger.entries@[q].1@));
        }
        lemma_plan_ordered(kv);
        assert forall|i: int, j: int|
            0 <= i < j < to_unset@.len() implies lex_lt(
            (#[trigger] to_unset@[i])@,
            (#[trigger] to_unset@[j])@,
        ) by {
            assert(to_unset@.map_values(|s: String| s@)[i] == to_unset@[i]@);
            assert(to_unset@.map_values(|s: String| s@)[j] == to_unset@[j]@);
        }
        assert forall|i: int, j: int|
            0 <= i < j < to_restore@.len() implies lex_lt(
            (#[trigger] to_restore@[i]).0@,
            (#[trigger] to_restore@[j]).0@,
        ) by {
            assert(to_restore@.map_values(|p: (String, String)| (p.0@, p.1@))[i]
                == (to_restore@[i].0@, to_restore@[i].1@));
            assert(to_restore@.map_values(|p: (String, String)| (p.0@, p.1@))[j]
                == (to_restore@[j].0@, to_restore@[j].1@));
        }
    }
    (to_unset, to_restore)
}

} // verus!
