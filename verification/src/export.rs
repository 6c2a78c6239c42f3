//! The export protocol: every effect on the caller's shell is queued as a
//! plain shell statement — `export NAME='value'` with single quotes
//! escaped, or `unset NAME` — for an external wrapper to evaluate.
//! Nothing here touches the process's own environment.

use vstd::prelude::*;
use vstd::string::{StringExecFns, StrSliceExecFns};
use crate::session::{Session, EnvMap, count_untracked, untracked_count};
use crate::text::push_char;
use crate::codec::{b64_encoding, spec_ser_session};
use crate::timefmt::{u64_to_dec, dec_pad};

verus! {

/// A value escaped for single quotes: each `'` becomes `'\''`.
pub open spec fn escape_sq(s: Seq<char>) -> Seq<char>
    decreases s.len(),
{
    if s.len() == 0 {
        Seq::empty()
    } else {
        escape_sq(s.drop_last()) + (if s.last() == '\'' {
            seq!['\'', '\\', '\'', '\'']
        } else {
            seq![s.last()]
        })
    }
}

/// The exact statement that sets a variable.
pub open spec fn spec_export_stmt(var: Seq<char>, value: Seq<char>) -> Seq<char> {
    "export "@ + var + "='"@ + escape_sq(value) + "'"@
}

/// The exact statement that unsets a variable.
pub open spec fn spec_unset_stmt(var: Seq<char>) -> Seq<char> {
    "unset "@ + var
}

fn escape_value(value: &str) -> (r: String)
    ensures
        r@ == escape_sq(value@),
{
    let n = value.unicode_len();
    let mut out = String::new();
    let mut i: usize = 0;
    proof {
        assert(value@.take(0) =~= Seq::<char>::empty());
    }
    while i < n
        invariant
            n == value@.len(),
            i <= n,
            out@ == escape_sq(value@.take(i as int)),
        decreases n - i,
    {
        let c = value.get_char(i);
        if c == '\'' {
            push_char(&mut out, '\'');
            push_char(&mut out, '\\');
            push_char(&mut out, '\'');
            push_char(&mut out, '\'');
        } else {
            push_char(&mut out, c);
        }
        proof {
            assert(value@.take(i as int + 1).drop_last() =~= value@.take(i as int));
            assert(value@.take(i as int + 1).last() == value@[i as int]);
            assert(out@ =~= escape_sq(value@.take(i as int + 1)));
        }
        i += 1;
    }
    proof {
        assert(value@.take(n as int) =~= value@);
    }
    out
}

/// Collects the shell statements a command intends, in order.  The whole
/// effect of a command is this list; an external wrapper evaluates it in
/// the parent shell.
pub struct Exports {
    pub statements: Vec<String>,
    /// The session saved last, so a later status computation can use it
    /// without re-reading a stale environment copy.
    pub last_session: Option<Session>,
}

/// The statement texts queued so far.
pub open spec fn stmt_views(v: Seq<String>) -> Seq<Seq<char>> {
    v.map_values(|s: String| s@)
}

impl Exports {
    pub open spec fn wf(&self) -> bool {
        match self.last_session {
            Some(s) => s.wf(),
            None => true,
        }
    }

    pub fn new() -> (r: Exports)
        ensures
            r.wf(),
            r.statements@.len() == 0,
            r.last_session is None,
    {
        Exports { statements: Vec::new(), last_session: None }
    }

    /// Queue `export VAR='value'`, escaping single quotes in the value.
    pub fn set_var(&mut self, var: &str, value: &str)
        ensures
            final(self).wf() == old(self).wf(),
            final(self).last_session == old(self).last_session,
            stmt_views(final(self).statements@) == stmt_views(old(self).statements@).push(
                spec_export_stmt(var@, value@),
            ),
    {
        let mut stmt = String::from_str("export ");
        stmt.append(var);
        stmt.append("='");
        let escaped = escape_value(value);
        stmt.append(escaped.as_str());
        stmt.append("'");
        self.statements.push(stmt);
        proof {
            assert(stmt_views(self.statements@) =~= stmt_views(old(self).statements@).push(
                spec_export_stmt(var@, value@),
            ));
        }
    }

    /// Queue `unset VAR`.
    pub fn unset_var(&mut self, var: &str)
        ensures
            final(self).wf() == old(self).wf(),
            final(self).last_session == old(self).last_session,
            stmt_views(final(self).statements@) == stmt_views(old(self).statements@).push(
                spec_unset_stmt(var@),
            ),
    {
        let mut stmt = String::from_str("unset ");
        stmt.append(var);
        self.statements.push(stmt);
        proof {
            assert(stmt_views(self.statements@) =~= stmt_views(old(self).statements@).push(
                spec_unset_stmt(var@),
            ));
        }
    }

    /// Queue the statement that persists the session, and remember the
    /// session for later status computations.
    pub fn save_session(&mut self, session: &Session) -> (r: Result<(), String>)
        requires
            session.wf(),
        ensures
            r is Ok,
            final(self).wf(),
            stmt_views(final(self).statements@) == stmt_views(old(self).statements@).push(
                "export ENVISION_SESSION='"@ + b64_encoding(spec_ser_session(session.data()))
                    + "'"@,
            ),
            final(self).last_session matches Some(s) && s.data() == session.data() && s.id
                == session.id && s.created_at == session.created_at,
    {
        let stmt = match session.export_statement() {
            Ok(s) => s,
            Err(e) => {
                return Err(e);
            },
        };
        self.statements.push(stmt);
        self.last_session = Some(session.clone());
        proof {
            assert(stmt_views(self.statements@) =~= stmt_views(old(self).statements@).push(
                "export ENVISION_SESSION='"@ + b64_encoding(spec_ser_session(session.data()))
                    + "'"@,
            ));
        }
        Ok(())
    }

    /// Queue the three banner state variables — session identifier,
    /// recorded-change count, dirty flag — for the given session and live
    /// environment, or clear all three when no session is active.
    pub fn update_banner_vars(&mut self, session: Option<&Session>, current_env: &EnvMap)
        requires
            current_env.wf(),
            (match session {
                Some(s) => s.wf() && s.baseline.entries@.len() + current_env.entries@.len()
                    <= usize::MAX,
                None => true,
            }),
        ensures
            final(self).wf() == old(self).wf(),
            final(self).last_session == old(self).last_session,
            (match session {
                Some(s) => stmt_views(final(self).statements@) == stmt_views(
                    old(self).statements@,
                ).push(spec_export_stmt("ENVISION_SESSION_ID"@, s.id@)).push(
                    spec_export_stmt(
                        "ENVISION_TRACKED"@,
                        dec_pad(s.ledger.entries@.len() as nat, 1),
                    ),
                ).push(
                    spec_export_stmt(
                        "ENVISION_DIRTY"@,
                        (if untracked_count(s@, current_env@) > 0 {
                            "1"@
                        } else {
                            "0"@
                        }),
                    ),
                ),
                None => stmt_views(final(self).statements@) == stmt_views(
                    old(self).statements@,
                ).push(spec_unset_stmt("ENVISION_SESSION_ID"@)).push(
                    spec_unset_stmt("ENVISION_TRACKED"@),
                ).push(spec_unset_stmt("ENVISION_DIRTY"@)),
            }),
    {
        match session {
            Some(s) => {
                self.set_var("ENVISION_SESSION_ID", s.id.as_str());
                let count = u64_to_dec(s.ledger.len() as u64);
                self.set_var("ENVISION_TRACKED", count.as_str());
                let untracked = count_untracked(s, current_env);
                if untracked > 0 {
                    self.set_var("ENVISION_DIRTY", "1");
                } else {
                    self.set_var("ENVISION_DIRTY", "0");
                }
            },
            None => {
                self.unset_var("ENVISION_SESSION_ID");
                self.unset_var("ENVISION_TRACKED");
                self.unset_var("ENVISION_DIRTY");
            },
        }
    }
}

} // verus!
