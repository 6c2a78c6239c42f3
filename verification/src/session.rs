//! The session model: a baseline of fingerprints captured at session
//! creation, plus a ledger of recorded changes, with the classification
//! rules for set and unset operations.

use vstd::prelude::*;
use crate::fingerprint::{fingerprint, hash_value, generate_session_id, spec_session_id};
use crate::vars::{VarMap, lemma_entries_map_contains, lemma_entries_map_value};
use crate::text::{str_eq, push_char};
use vstd::string::{StrSliceExecFns, StringExecFns};

verus! {

/// The reserved environment variable that carries the encoded session.
pub const SESSION_VAR: &'static str = "ENVISION_SESSION";

/// A live environment, as handed to the library by its caller.
pub type EnvMap = VarMap<String>;

/// A change made through the tool, recorded with enough detail to be
/// reversed.
#[derive(Debug, PartialEq)]
pub enum TrackedChange {
    Assign { value: String, previous: Option<String> },
    Unset { previous: String },
}

/// The mathematical shape of a recorded change.
pub enum ChangeView {
    Assign { value: Seq<char>, previous: Option<Seq<char>> },
    Unset { previous: Seq<char> },
}

/// The view of an optional owned string.
pub open spec fn opt_view(o: Option<String>) -> Option<Seq<char>> {
    match o {
        Some(s) => Some(s@),
        None => None,
    }
}

impl View for TrackedChange {
    type V = ChangeView;

    open spec fn view(&self) -> ChangeView {
        match self {
            TrackedChange::Assign { value, previous } => ChangeView::Assign {
                value: value@,
                previous: opt_view(*previous),
            },
            TrackedChange::Unset { previous } => ChangeView::Unset { previous: previous@ },
        }
    }
}

impl Clone for TrackedChange {
    fn clone(&self) -> (r: Self)
        ensures
            r == *self,
    {
        match self {
            TrackedChange::Assign { value, previous } => TrackedChange::Assign {
                value: value.clone(),
                previous: match previous {
                    Some(p) => Some(p.clone()),
                    None => None,
                },
            },
            TrackedChange::Unset { previous } => TrackedChange::Unset {
                previous: previous.clone(),
            },
        }
    }
}

impl Clone for VarMap<u64> {
    fn clone(&self) -> (r: Self)
        ensures
            r.entries@ == self.entries@,
    {
        let mut entries: Vec<(String, u64)> = Vec::new();
        let n = self.entries.len();
        let mut i: usize = 0;
        while i < n
            invariant
                n == self.entries@.len(),
                i <= n,
                entries@ =~= self.entries@.take(i as int),
            decreases n - i,
        {
            let e = &self.entries[i];
            entries.push((e.0.clone(), e.1));
            proof {
                assert(entries@ =~= self.entries@.take(i as int + 1));
            }
            i += 1;
        }
        proof {
            assert(entries@ =~= self.entries@);
        }
        VarMap { entries }
    }
}

impl Clone for VarMap<TrackedChange> {
    fn clone(&self) -> (r: Self)
        ensures
            r.entries@ == self.entries@,
    {
        let mut entries: Vec<(String, TrackedChange)> = Vec::new();
        let n = self.entries.len();
        let mut i: usize = 0;
        while i < n
            invariant
                n == self.entries@.len(),
                i <= n,
                entries@ =~= self.entries@.take(i as int),
            decreases n - i,
        {
            let e = &self.entries[i];
            entries.push((e.0.clone(), e.1.clone()));
            proof {
                assert(entries@ =~= self.entries@.take(i as int + 1));
            }
            i += 1;
        }
        proof {
            assert(entries@ =~= self.entries@);
        }
        VarMap { entries }
    }
}

/// One session of recorded environment changes.
pub struct Session {
    /// Short display identifier, derived from process id and creation time.
    pub id: String,
    /// Seconds since the epoch at baseline capture.
    pub created_at: u64,
    /// Variable name to fingerprint of its value at session creation.
    pub baseline: VarMap<u64>,
    /// Variable name to its latest recorded change.
    pub ledger: VarMap<TrackedChange>,
}

impl Clone for Session {
    fn clone(&self) -> (r: Self)
        ensures
            r.id == self.id,
            r.created_at == self.created_at,
            r.baseline.entries@ == self.baseline.entries@,
            r.ledger.entries@ == self.ledger.entries@,
    {
        Session {
            id: self.id.clone(),
            created_at: self.created_at,
            baseline: self.baseline.clone(),
            ledger: self.ledger.clone(),
        }
    }
}

pub struct SessionView {
    pub id: Seq<char>,
    pub created_at: u64,
    pub baseline: Map<Seq<char>, u64>,
    pub ledger: Map<Seq<char>, ChangeView>,
}

impl View for Session {
    type V = SessionView;

    open spec fn view(&self) -> SessionView {
        SessionView {
            id: self.id@,
            created_at: self.created_at,
            baseline: self.baseline@,
            ledger: self.ledger@,
        }
    }
}

impl Session {
    /// Both maps sorted, and the reserved session variable never a
    /// baseline key.
    pub open spec fn wf(&self) -> bool {
        &&& self.baseline.wf()
        &&& self.ledger.wf()
        &&& !self.baseline@.contains_key(SESSION_VAR@)
    }

    /// Create a new session from the current environment: the baseline
    /// keeps a fingerprint of every variable except the reserved one, and
    /// the change ledger starts empty.
    pub fn new(env: &EnvMap, pid: u32, now: u64) -> (r: Session)
        requires
            env.wf(),
        ensures
            r.wf(),
            r.id@ == spec_session_id(pid, now),
            r.created_at == now,
            r.ledger@ == Map::<Seq<char>, ChangeView>::empty(),
            r.ledger.entries@.len() == 0,
            forall|k: Seq<char>|
                #[trigger] r.baseline@.contains_key(k) <==> (env@.contains_key(k) && k
                    != SESSION_VAR@),
            forall|k: Seq<char>| #[trigger]
                r.baseline@.contains_key(k) ==> r.baseline@[k] == fingerprint(env@[k]),
    {
        let id = generate_session_id(pid, now);
        let mut baseline: VarMap<u64> = VarMap::new();
        let n = env.entries.len();
        let mut i: usize = 0;
        while i < n
            invariant
                env.wf(),
                n == env.entries@.len(),
                i <= n,
                baseline.wf(),
                forall|k: Seq<char>|
                    #[trigger] baseline@.contains_key(k) <==> ((exists|j: int|
                        0 <= j < i && (#[trigger] env.entries@[j]).0@ == k) && k != SESSION_VAR@),
                forall|k: Seq<char>| #[trigger]
                    baseline@.contains_key(k) ==> baseline@[k] == fingerprint(env@[k]),
            decreases n - i,
        {
            let e = &env.entries[i];
            if !str_eq(e.0.as_str(), SESSION_VAR) {
                let h = hash_value(e.1.as_str());
                let ghost pre = baseline@;
                baseline.insert(e.0.clone(), h);
                proof {
                    env.lemma_keys_distinct();
                    lemma_entries_map_value(env.entries@, i as int);
                    assert(env@[env.entries@[i as int].0@] == env.entries@[i as int].1@);
                    assert forall|k: Seq<char>| #[trigger] baseline@.contains_key(k) implies ((
                    exists|j: int| 0 <= j < i + 1 && (#[trigger] env.entries@[j]).0@ == k) && k
                        != SESSION_VAR@) by {
                        if k == env.entries@[i as int].0@ {
                            assert(0 <= i < i + 1 && env.entries@[i as int].0@ == k);
                        } else {
                            assert(pre.contains_key(k));
                        }
                    }
                }
            } else {
                proof {
                    assert forall|k: Seq<char>|
                        ((exists|j: int| 0 <= j < i + 1 && (#[trigger] env.entries@[j]).0@ == k)
                            && k != SESSION_VAR@) implies #[trigger] baseline@.contains_key(
                        k,
                    ) by {
                        let j = choose|j: int|
                            0 <= j < i + 1 && (#[trigger] env.entries@[j]).0@ == k;
                        assert(j < i);
                    }
                }
            }
            i += 1;
        }
        proof {
            assert forall|k: Seq<char>|
                #[trigger] baseline@.contains_key(k) <==> (env@.contains_key(k) && k
                    != SESSION_VAR@) by {
                lemma_entries_map_contains(env.entries@, k);
            }
        }
        Session { id, created_at: now, baseline, ledger: VarMap::new() }
    }

    /// The last value the tool itself recorded for `var`: the `value` of a
    /// recorded assignment, and nothing otherwise.  Baseline values are
    /// stored only as fingerprints and can never be recovered as text.
    pub open spec fn spec_tracked_value(
        ledger: Map<Seq<char>, ChangeView>,
        var: Seq<char>,
    ) -> Option<Seq<char>> {
        if ledger.contains_key(var) {
            match ledger[var] {
                ChangeView::Assign { value, .. } => Some(value),
                ChangeView::Unset { .. } => None,
            }
        } else {
            None
        }
    }

    /// Look up the tool-visible prior value of `var`.
    pub fn tracked_value(&self, var: &str) -> (r: Option<String>)
        requires
            self.ledger.wf(),
        ensures
            opt_view(r) == Self::spec_tracked_value(self.ledger@, var@),
    {
        match self.ledger.get(var) {
            Some(change) => match change {
                TrackedChange::Assign { value, .. } => Some(value.clone()),
                TrackedChange::Unset { .. } => None,
            },
            None => None,
        }
    }

    /// Record a set operation, classifying what it overwrote, and return
    /// the prior tool-visible value.
    pub fn track_set(&mut self, var: &str, value: &str) -> (r: SetResult)
        requires
            old(self).wf(),
        ensures
            final(self).wf(),
            final(self).id == old(self).id,
            final(self).created_at == old(self).created_at,
            final(self).baseline == old(self).baseline,
            final(self).ledger@ == old(self).ledger@.insert(
                var@,
                ChangeView::Assign {
                    value: value@,
                    previous: Self::spec_tracked_value(old(self).ledger@, var@),
                },
            ),
            opt_view(r.previous) == Self::spec_tracked_value(old(self).ledger@, var@),
            r.overwrite_kind == (if old(self).ledger@.contains_key(var@) {
                Some(OverwriteKind::Recorded)
            } else if Self::spec_tracked_value(old(self).ledger@, var@) is Some {
                Some(OverwriteKind::Untracked)
            } else {
                None
            }),
    {
        let previous = self.tracked_value(var);
        let overwrite_kind = if self.ledger.contains_key(var) {
            Some(OverwriteKind::Recorded)
        } else if previous.is_some() {
            Some(OverwriteKind::Untracked)
        } else {
            None
        };
        let stored = match &previous {
            Some(p) => Some(p.clone()),
            None => None,
        };
        self.ledger.insert(
            var.to_owned(),
            TrackedChange::Assign { value: value.to_owned(), previous: stored },
        );
        SetResult { previous, overwrite_kind }
    }

    /// Record an unset operation.  When no tool-visible prior value exists
    /// the ledger is left unchanged: there would be nothing to restore.
    pub fn track_unset(&mut self, var: &str) -> (r: UnsetResult)
        requires
            old(self).wf(),
        ensures
            final(self).wf(),
            final(self).id == old(self).id,
            final(self).created_at == old(self).created_at,
            final(self).baseline == old(self).baseline,
            final(self).ledger@ == (match Self::spec_tracked_value(old(self).ledger@, var@) {
                Some(p) => old(self).ledger@.insert(var@, ChangeView::Unset { previous: p }),
                None => old(self).ledger@,
            }),
            opt_view(r.previous) == Self::spec_tracked_value(old(self).ledger@, var@),
            r.previous_kind == (if old(self).ledger@.contains_key(var@) {
                PreviousKind::Recorded
            } else if old(self).baseline@.contains_key(var@) {
                PreviousKind::Original
            } else {
                PreviousKind::Untracked
            }),
    {
        let previous = self.tracked_value(var);
        let previous_kind = if self.ledger.contains_key(var) {
            PreviousKind::Recorded
        } else if self.baseline.contains_key(var) {
            PreviousKind::Original
        } else {
            PreviousKind::Untracked
        };
        if let Some(prev) = &previous {
            self.ledger.insert(
                var.to_owned(),
                TrackedChange::Unset { previous: prev.clone() },
            );
        }
        UnsetResult { previous, previous_kind }
    }

    /// Whether `var` existed when the baseline was captured.
    pub fn in_baseline(&self, var: &str) -> (r: bool)
        ensures
            r == self.baseline@.contains_key(var@),
    {
        self.baseline.contains_key(var)
    }

    /// Whether a baseline variable's value has drifted: its current
    /// fingerprint no longer matches the stored one.  Variables outside
    /// the baseline never count as changed.
    pub fn baseline_changed(&self, var: &str, current_value: &str) -> (r: bool)
        requires
            self.baseline.wf(),
        ensures
            r == (self.baseline@.contains_key(var@) && fingerprint(current_value@)
                != self.baseline@[var@]),
    {
        match self.baseline.get(var) {
            Some(h) => hash_value(current_value) != *h,
            None => false,
        }
    }
}

/// Variables managed by the tool itself: they differ between invocations
/// by design and never count as drift.
pub open spec fn is_reserved_name(k: Seq<char>) -> bool {
    ||| k == "ENVISION_SESSION"@
    ||| k == "ENVISION_PROFILE"@
    ||| k == "ENVISION_PROFILE_CHECKSUM"@
    ||| k == "ENVISION_SESSION_ID"@
    ||| k == "ENVISION_TRACKED"@
    ||| k == "ENVISION_DIRTY"@
}

pub fn is_reserved_var(name: &str) -> (r: bool)
    ensures
        r == is_reserved_name(name@),
{
    str_eq(name, "ENVISION_SESSION") || str_eq(name, "ENVISION_PROFILE") || str_eq(
        name,
        "ENVISION_PROFILE_CHECKSUM",
    ) || str_eq(name, "ENVISION_SESSION_ID") || str_eq(name, "ENVISION_TRACKED") || str_eq(
        name,
        "ENVISION_DIRTY",
    )
}

/// Baseline variables that drifted without being recorded: gone from the
/// live environment, or present with a value whose fingerprint no longer
/// matches, and in either case not explained by the ledger.
pub open spec fn drift_names(
    baseline: Map<Seq<char>, u64>,
    ledger_dom: Set<Seq<char>>,
    env: Map<Seq<char>, Seq<char>>,
) -> Set<Seq<char>> {
    baseline.dom().filter(
        |k: Seq<char>|
            !ledger_dom.contains(k) && (!env.contains_key(k) || fingerprint(env[k])
                != baseline[k]),
    )
}

/// Variables that appeared without the tool's involvement: in the live
/// environment but in neither the baseline, nor the ledger, nor the
/// tool's own reserved set.
pub open spec fn fresh_names(
    baseline: Map<Seq<char>, u64>,
    ledger_dom: Set<Seq<char>>,
    env: Map<Seq<char>, Seq<char>>,
) -> Set<Seq<char>> {
    env.dom().filter(
        |k: Seq<char>|
            !is_reserved_name(k) && !baseline.contains_key(k) && !ledger_dom.contains(k),
    )
}

/// The number of environment differences not explained by the ledger.
pub open spec fn untracked_count(s: SessionView, env: Map<Seq<char>, Seq<char>>) -> nat {
    drift_names(s.baseline, s.ledger.dom(), env).len() + fresh_names(
        s.baseline,
        s.ledger.dom(),
        env,
    ).len()
}

/// Count environment changes not recorded by the session: baseline
/// variables whose value drifted or disappeared, plus variables that
/// appeared out of nowhere.  Variables in the ledger are never counted,
/// whatever their live value: once recorded, the ledger is authoritative.
pub fn count_untracked(session: &Session, current_env: &EnvMap) -> (n: usize)
    requires
        session.wf(),
        current_env.wf(),
        session.baseline.entries@.len() + current_env.entries@.len() <= usize::MAX,
    ensures
        n == untracked_count(session@, current_env@),
{
    let ghost dset = drift_names(session@.baseline, session@.ledger.dom(), current_env@);
    let ghost fset = fresh_names(session@.baseline, session@.ledger.dom(), current_env@);
    proof {
        session.baseline.lemma_len();
        current_env.lemma_len();
        session.baseline@.dom().lemma_len_filter(
            |k: Seq<char>|
                !session@.ledger.dom().contains(k) && (!current_env@.contains_key(k)
                    || fingerprint(current_env@[k]) != session@.baseline[k]),
        );
        current_env@.dom().lemma_len_filter(
            |k: Seq<char>|
                !is_reserved_name(k) && !session@.baseline.contains_key(k)
                    && !session@.ledger.dom().contains(k),
        );
    }
    let bn = session.baseline.entries.len();
    let mut count: usize = 0;
    let mut i: usize = 0;
    let ghost mut seen = Set::<Seq<char>>::empty();
    proof {
        assert(dset.intersect(seen) =~= Set::<Seq<char>>::empty());
        broadcast use vstd::set::axiom_set_empty_len;
        assert(Set::<Seq<char>>::empty().len() == 0);
    }
    while i < bn
        invariant
            session.wf(),
            current_env.wf(),
            bn == session.baseline.entries@.len(),
            i <= bn,
            dset == drift_names(session@.baseline, session@.ledger.dom(), current_env@),
            dset.finite(),
            seen.finite(),
            forall|k: Seq<char>| #[trigger]
                seen.contains(k) <==> (exists|j: int|
                    0 <= j < i && (#[trigger] session.baseline.entries@[j]).0@ == k),
            count == dset.intersect(seen).len(),
            count <= i,
        decreases bn - i,
    {
        let e = &session.baseline.entries[i];
        let ghost ki = e.0@;
        proof {
            session.baseline.lemma_keys_distinct();
            lemma_entries_map_value(session.baseline.entries@, i as int);
            assert(!seen.contains(ki));
        }
        let mut hit = false;
        if !session.ledger.contains_key(e.0.as_str()) {
            match current_env.get(e.0.as_str()) {
                Some(v) => {
                    if hash_value(v.as_str()) != e.1 {
                        hit = true;
                    }
                },
                None => {
                    hit = true;
                },
            }
        }
        proof {
            assert(session@.baseline.dom().contains(ki));
            assert(session@.baseline[ki] == session.baseline.entries@[i as int].1);
            assert(hit == dset.contains(ki));
        }
        if hit {
            count += 1;
        }
        proof {
            let seen2 = seen.insert(ki);
            if dset.contains(ki) {
                assert(dset.intersect(seen2) =~= dset.intersect(seen).insert(ki));
                assert(!dset.intersect(seen).contains(ki));
            } else {
                assert(dset.intersect(seen2) =~= dset.intersect(seen));
            }
            seen = seen2;
            assert forall|k: Seq<char>| #[trigger]
                seen.contains(k) <==> (exists|j: int|
                    0 <= j < i + 1 && (#[trigger] session.baseline.entries@[j]).0@ == k) by {
                if seen.contains(k) {
                    if k == ki {
                        assert(session.baseline.entries@[i as int].0@ == k);
                    }
                }
                if exists|j: int|
                    0 <= j < i + 1 && (#[trigger] session.baseline.entries@[j]).0@ == k {
                    let j = choose|j: int|
                        0 <= j < i + 1 && (#[trigger] session.baseline.entries@[j]).0@ == k;
                    if j == i {
                        assert(k == ki);
                    }
                }
            }
        }
        i += 1;
    }
    proof {
        assert(dset.intersect(seen) =~= dset) by {
            assert forall|k: Seq<char>| dset.contains(k) implies seen.contains(k) by {
                lemma_entries_map_contains(session.baseline.entries@, k);
            }
        }
        assert(count == dset.len());
    }
    let en = current_env.entries.len();
    let mut count2: usize = 0;
    let mut j: usize = 0;
    let ghost mut seen2 = Set::<Seq<char>>::empty();
    proof {
        assert(fset.intersect(seen2) =~= Set::<Seq<char>>::empty());
        broadcast use vstd::set::axiom_set_empty_len;
        assert(Set::<Seq<char>>::empty().len() == 0);
    }
    while j < en
        invariant
            session.wf(),
            current_env.wf(),
            en == current_env.entries@.len(),
            j <= en,
            fset == fresh_names(session@.baseline, session@.ledger.dom(), current_env@),
            fset.finite(),
            seen2.finite(),
            forall|k: Seq<char>| #[trigger]
                seen2.contains(k) <==> (exists|p: int|
                    0 <= p < j && (#[trigger] current_env.entries@[p]).0@ == k),
            count2 == fset.intersect(seen2).len(),
            count2 <= j,
        decreases en - j,
    {
        let e = &current_env.entries[j];
        let ghost kj = e.0@;
        proof {
            current_env.lemma_keys_distinct();
            lemma_entries_map_value(current_env.entries@, j as int);
            assert(!seen2.contains(kj));
        }
        let hit = !is_reserved_var(e.0.as_str()) && !session.baseline.contains_key(e.0.as_str())
            && !session.ledger.contains_key(e.0.as_str());
        proof {
            assert(current_env@.dom().contains(kj));
            assert(hit == fset.contains(kj));
        }
        if hit {
            count2 += 1;
        }
        proof {
            let snew = seen2.insert(kj);
            if fset.contains(kj) {
                assert(fset.intersect(snew) =~= fset.intersect(seen2).insert(kj));
                assert(!fset.intersect(seen2).contains(kj));
            } else {
                assert(fset.intersect(snew) =~= fset.intersect(seen2));
            }
            seen2 = snew;
            assert forall|k: Seq<char>| #[trigger]
                seen2.contains(k) <==> (exists|p: int|
                    0 <= p < j + 1 && (#[trigger] current_env.entries@[p]).0@ == k) by {
                if seen2.contains(k) {
                    if k == kj {
                        assert(current_env.entries@[j as int].0@ == k);
                    }
                }
                if exists|p: int|
                    0 <= p < j + 1 && (#[trigger] current_env.entries@[p]).0@ == k {
                    let p = choose|p: int|
                        0 <= p < j + 1 && (#[trigger] current_env.entries@[p]).0@ == k;
                    if p == j {
                        assert(k == kj);
                    }
                }
            }
        }
        j += 1;
    }
    proof {
        assert(fset.intersect(seen2) =~= fset) by {
            assert forall|k: Seq<char>| fset.contains(k) implies seen2.contains(k) by {
                lemma_entries_map_contains(current_env.entries@, k);
            }
        }
        assert(count2 == fset.len());
    }
    count + count2
}

/// A session is dirty exactly when some difference is unexplained.
pub fn is_dirty(session: &Session, current_env: &EnvMap) -> (r: bool)
    requires
        session.wf(),
        current_env.wf(),
        session.baseline.entries@.len() + current_env.entries@.len() <= usize::MAX,
    ensures
        r == (untracked_count(session@, current_env@) > 0),
{
    count_untracked(session, current_env) > 0
}

/// Two live environments that agree on every variable outside the
/// ledger's domain carry the same untracked count: once a variable is
/// recorded in the ledger, its live value — or its very presence — no
/// longer matters to drift detection.
pub proof fn lemma_drift_ignores_ledger(
    s: SessionView,
    env1: Map<Seq<char>, Seq<char>>,
    env2: Map<Seq<char>, Seq<char>>,
)
    requires
        forall|k: Seq<char>|
            #![trigger env1.contains_key(k)]
            #![trigger env2.contains_key(k)]
            !s.ledger.contains_key(k) ==> (env1.contains_key(k) <==> env2.contains_key(k)),
        forall|k: Seq<char>|
            #![trigger env1[k]]
            #![trigger env2[k]]
            !s.ledger.contains_key(k) && env1.contains_key(k) ==> env1[k] == env2[k],
    ensures
        untracked_count(s, env1) == untracked_count(s, env2),
{
    assert(drift_names(s.baseline, s.ledger.dom(), env1) =~= drift_names(
        s.baseline,
        s.ledger.dom(),
        env2,
    ));
    assert(fresh_names(s.baseline, s.ledger.dom(), env1) =~= fresh_names(
        s.baseline,
        s.ledger.dom(),
        env2,
    ));
}

/// A character that may open a POSIX variable name: a letter or an
/// underscore.
pub open spec fn is_name_start(c: char) -> bool {
    let u = c as u32;
    (97 <= u && u <= 122) || (65 <= u && u <= 90) || u == 95
}

/// A character that may continue a POSIX variable name: a letter, a
/// digit or an underscore.
pub open spec fn is_name_char(c: char) -> bool {
    is_name_start(c) || (48 <= c as u32 && c as u32 <= 57)
}

/// The POSIX rule for variable names.
pub open spec fn is_valid_var_name(s: Seq<char>) -> bool {
    &&& s.len() > 0
    &&& is_name_start(s[0])
    &&& forall|i: int| 1 <= i < s.len() ==> is_name_char(#[trigger] s[i])
}

/// Accept exactly the names that POSIX identifier rules allow.
pub fn validate_var_name(name: &str) -> (r: Result<(), String>)
    ensures
        r is Ok <==> is_valid_var_name(name@),
{
    let n = name.unicode_len();
    if n == 0 {
        return Err(String::from_str("Variable name cannot be empty"));
    }
    let first = name.get_char(0);
    let fu = first as u32;
    if !((97 <= fu && fu <= 122) || (65 <= fu && fu <= 90) || fu == 95) {
        let mut msg = String::from_str("Invalid variable name '");
        msg.append(name);
        msg.append("': must start with a letter or underscore");
        return Err(msg);
    }
    let mut i: usize = 1;
    while i < n
        invariant
            n == name@.len(),
            1 <= i <= n,
            is_name_start(name@[0]),
            forall|j: int| 1 <= j < i ==> is_name_char(#[trigger] name@[j]),
        decreases n - i,
    {
        let c = name.get_char(i);
        let u = c as u32;
        if !((97 <= u && u <= 122) || (65 <= u && u <= 90) || u == 95 || (48 <= u && u <= 57)) {
            let mut msg = String::from_str("Invalid variable name '");
            msg.append(name);
            msg.append("': contains invalid character '");
            push_char(&mut msg, c);
            msg.append("'");
            return Err(msg);
        }
        i += 1;
    }
    Ok(())
}

/// System-critical variables that warrant a warning before modification.
pub open spec fn is_critical_name(s: Seq<char>) -> bool {
    ||| s == "PATH"@
    ||| s == "HOME"@
    ||| s == "USER"@
    ||| s == "SHELL"@
    ||| s == "TERM"@
    ||| s == "LANG"@
    ||| s == "PWD"@
    ||| s == "OLDPWD"@
    ||| s == "LD_LIBRARY_PATH"@
    ||| s == "LD_PRELOAD"@
}

pub fn is_critical_var(name: &str) -> (r: bool)
    ensures
        r == is_critical_name(name@),
{
    str_eq(name, "PATH") || str_eq(name, "HOME") || str_eq(name, "USER") || str_eq(name, "SHELL")
        || str_eq(name, "TERM") || str_eq(name, "LANG") || str_eq(name, "PWD") || str_eq(
        name,
        "OLDPWD",
    ) || str_eq(name, "LD_LIBRARY_PATH") || str_eq(name, "LD_PRELOAD")
}

/// What a set operation reports back for display.
pub struct SetResult {
    pub previous: Option<String>,
    pub overwrite_kind: Option<OverwriteKind>,
}

#[derive(PartialEq, Eq, Structural)]
pub enum OverwriteKind {
    Recorded,
    Untracked,
}

/// What an unset operation reports back for display.
pub struct UnsetResult {
    pub previous: Option<String>,
    pub previous_kind: PreviousKind,
}

#[derive(PartialEq, Eq, Structural)]
pub enum PreviousKind {
    Recorded,
    Original,
    Untracked,
}

} // verus!
