//! The snapshot diff engine used when applying a profile script: compare
//! two full environment snapshots and list what was added, changed or
//! removed, filtering out subshell noise and the tool's own variables.
//! Also the rules on profile file names.

use vstd::prelude::*;
use vstd::string::{StrSliceExecFns, StringExecFns};
use crate::session::EnvMap;
use crate::text::{str_eq, str_ends_with, spec_ends_with};

verus! {

/// One difference between two environment snapshots.
pub enum EnvChange {
    Assign(String, String),
    Unset(String),
}

pub enum EnvChangeView {
    Assign(Seq<char>, Seq<char>),
    Unset(Seq<char>),
}

impl View for EnvChange {
    type V = EnvChangeView;

    open spec fn view(&self) -> EnvChangeView {
        match self {
            EnvChange::Assign(k, v) => EnvChangeView::Assign(k@, v@),
            EnvChange::Unset(k) => EnvChangeView::Unset(k@),
        }
    }
}

/// Variables that inherently differ between a parent shell and a clean
/// subshell, or that the tool manages itself: no real intent behind a
/// difference in them.
pub open spec fn is_noise_name(k: Seq<char>) -> bool {
    ||| k == "_"@
    ||| k == "SHLVL"@
    ||| k == "BASH_EXECUTION_STRING"@
    ||| k == "ENVISION_SESSION"@
    ||| k == "ENVISION_PROFILE"@
    ||| k == "ENVISION_PROFILE_CHECKSUM"@
}

/// The views of a change list.
pub open spec fn change_views(v: Seq<EnvChange>) -> Seq<EnvChangeView> {
    v.map_values(|c: EnvChange| c@)
}

proof fn lemma_change_views_push(v: Seq<EnvChange>, x: EnvChange)
    ensures
        change_views(v.push(x)) == change_views(v).push(x@),
{
    assert(change_views(v.push(x)) =~= change_views(v).push(x@));
}

/// Whether a variable is excluded from snapshot diffs.
pub fn should_skip(var: &str) -> (r: bool)
    ensures
        r == is_noise_name(var@),
{
    str_eq(var, "_") || str_eq(var, "SHLVL") || str_eq(var, "BASH_EXECUTION_STRING") || str_eq(
        var,
        "ENVISION_SESSION",
    ) || str_eq(var, "ENVISION_PROFILE") || str_eq(var, "ENVISION_PROFILE_CHECKSUM")
}

/// The additions and changes: variables of the after snapshot, not noise,
/// absent from before or carrying a different value there.
pub open spec fn assign_changes(
    s: Seq<(Seq<char>, Seq<char>)>,
    before: Map<Seq<char>, Seq<char>>,
) -> Seq<EnvChangeView>
    decreases s.len(),
{
    if s.len() == 0 {
        Seq::empty()
    } else {
        assign_changes(s.drop_last(), before) + (if !is_noise_name(s.last().0) && (
        !before.contains_key(s.last().0) || before[s.last().0] != s.last().1) {
            seq![EnvChangeView::Assign(s.last().0, s.last().1)]
        } else {
            Seq::empty()
        })
    }
}

/// The removals: variables of the before snapshot, not noise, absent
/// from after.
pub open spec fn unset_changes(
    s: Seq<(Seq<char>, Seq<char>)>,
    after: Map<Seq<char>, Seq<char>>,
) -> Seq<EnvChangeView>
    decreases s.len(),
{
    if s.len() == 0 {
        Seq::empty()
    } else {
        unset_changes(s.drop_last(), after) + (if !is_noise_name(s.last().0)
            && !after.contains_key(s.last().0) {
            seq![EnvChangeView::Unset(s.last().0)]
        } else {
            Seq::empty()
        })
    }
}

/// Diff two environment snapshots: assignments for what appeared or
/// changed, then removals for what vanished, noise filtered throughout,
/// unchanged variables omitted.
pub fn compute_diff(before: &EnvMap, after: &EnvMap) -> (r: Vec<EnvChange>)
    requires
        before.wf(),
        after.wf(),
    ensures
        change_views(r@) == assign_changes(after.kvs(), before@) + unset_changes(
            before.kvs(),
            after@,
        ),
{
    let mut changes: Vec<EnvChange> = Vec::new();
    let an = after.entries.len();
    let mut i: usize = 0;
    proof {
        assert(after.kvs().take(0) =~= Seq::<(Seq<char>, Seq<char>)>::empty());
        assert(change_views(changes@) =~= Seq::<EnvChangeView>::empty());
    }
    while i < an
        invariant
            before.wf(),
            after.wf(),
            an == after.entries@.len(),
            i <= an,
            change_views(changes@) == assign_changes(after.kvs().take(i as int), before@),
        decreases an - i,
    {
        let e = &after.entries[i];
        let ghost pre = changes@;
        proof {
            let kv = after.kvs();
            assert(kv[i as int] == (after.entries@[i as int].0@, after.entries@[i as int].1@));
            assert(kv.take(i as int + 1).drop_last() =~= kv.take(i as int));
            assert(kv.take(i as int + 1).last() == kv[i as int]);
        }
        if !should_skip(e.0.as_str()) {
            let differs = match before.get(e.0.as_str()) {
                Some(old_val) => !str_eq(old_val.as_str(), e.1.as_str()),
                None => true,
            };
            if differs {
                let ch = EnvChange::Assign(e.0.clone(), e.1.clone());
                proof {
                    lemma_change_views_push(changes@, ch);
                }
                changes.push(ch);
                proof {
                    assert(change_views(changes@) =~= assign_changes(
                        after.kvs().take(i as int + 1),
                        before@,
                    ));
                }
            } else {
                proof {
                    assert(change_views(changes@) =~= assign_changes(
                        after.kvs().take(i as int + 1),
                        before@,
                    ));
                }
            }
        } else {
            proof {
                assert(change_views(changes@) =~= assign_changes(
                    after.kvs().take(i as int + 1),
                    before@,
                ));
            }
        }
        i += 1;
    }
    proof {
        assert(after.kvs().take(an as int) =~= after.kvs());
        assert(before.kvs().take(0) =~= Seq::<(Seq<char>, Seq<char>)>::empty());
        assert(change_views(changes@) =~= assign_changes(after.kvs(), before@) + unset_changes(
            before.kvs().take(0),
            after@,
        ));
    }
    let bn = before.entries.len();
    let mut j: usize = 0;
    while j < bn
        invariant
            before.wf(),
            after.wf(),
            bn == before.entries@.len(),
            j <= bn,
            change_views(changes@) == assign_changes(after.kvs(), before@) + unset_changes(
                before.kvs().take(j as int),
                after@,
            ),
        decreases bn - j,
    {
        let e = &before.entries[j];
        proof {
            let kv = before.kvs();
            assert(kv[j as int] == (before.entries@[j as int].0@, before.entries@[j as int].1@));
            assert(kv.take(j as int + 1).drop_last() =~= kv.take(j as int));
            assert(kv.take(j as int + 1).last() == kv[j as int]);
        }
        if !should_skip(e.0.as_str()) && !after.contains_key(e.0.as_str()) {
            let ch = EnvChange::Unset(e.0.clone());
            proof {
                lemma_change_views_push(changes@, ch);
            }
            changes.push(ch);
            proof {
                assert(change_views(changes@) =~= assign_changes(after.kvs(), before@)
                    + unset_changes(before.kvs().take(j as int + 1), after@));
            }
        } else {
            proof {
                assert(change_views(changes@) =~= assign_changes(after.kvs(), before@)
                    + unset_changes(before.kvs().take(j as int + 1), after@));
            }
        }
        j += 1;
    }
    proof {
        assert(before.kvs().take(bn as int) =~= before.kvs());
    }
    changes
}

/// A profile file must end in `.profile.sh` or `.envision`.
pub fn validate_extension(path: &str) -> (r: Result<(), String>)
    ensures
        r is Ok <==> (spec_ends_with(path@, ".profile.sh"@) || spec_ends_with(
            path@,
            ".envision"@,
        )),
{
    if str_ends_with(path, ".profile.sh") || str_ends_with(path, ".envision") {
        Ok(())
    } else {
        let mut msg = String::from_str("Invalid profile extension: '");
        msg.append(path);
        msg.append("'. Must be .profile.sh or .envision");
        Err(msg)
    }
}

/// The profile's display name: the file name with its recognised
/// extension removed, and unchanged when neither extension fits.
pub fn strip_profile_suffix(name: &str) -> (r: String)
    ensures
        spec_ends_with(name@, ".profile.sh"@) ==> r@ == name@.take(name@.len() - 11),
        !spec_ends_with(name@, ".profile.sh"@) && spec_ends_with(name@, ".envision"@) ==> r@
            == name@.take(name@.len() - 9),
        !spec_ends_with(name@, ".profile.sh"@) && !spec_ends_with(name@, ".envision"@) ==> r@
            == name@,
{
    let n = name.unicode_len();
    if str_ends_with(name, ".profile.sh") {
        proof {
            reveal_strlit(".profile.sh");
        }
        let stem = name.substring_char(0, n - 11);
        proof {
            assert(name@.subrange(0, n - 11) =~= name@.take(n - 11));
        }
        stem.to_owned()
    } else if str_ends_with(name, ".envision") {
        proof {
            reveal_strlit(".envision");
        }
        let stem = name.substring_char(0, n - 9);
        proof {
            assert(name@.subrange(0, n - 9) =~= name@.take(n - 9));
        }
        stem.to_owned()
    } else {
        name.to_owned()
    }
}

} // verus!
