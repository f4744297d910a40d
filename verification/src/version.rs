//! The version manager: the authoritative, multi-version record of which
//! row groups and delete vectors are live per table. Each commit folds a
//! whole changeset into the next epoch atomically: a changeset that is
//! inconsistent with the current epoch is rejected and the epoch stands.
//!
//! An `Epoch` is an immutable snapshot value: once handed out it shares no
//! state with the manager, so no later commit is ever visible through it.

use vstd::prelude::*;
use crate::keys::{RowSetKey, DvKey};
use crate::live_set::{RowSetSet, DvSet};

verus! {

/// One operation of a changeset. The opened unit a change refers to is
/// carried by the caller, keyed by the same identifier; the manager tracks
/// identity, not file handles.
#[derive(Clone, Copy, PartialEq, Eq, Structural, Debug)]
pub enum EpochOp {
    AddRowSet(RowSetKey),
    DeleteRowSet(RowSetKey),
    AddDV(DvKey),
    DeleteDV(DvKey),
}

/// A changeset referenced a unit inconsistently with the current epoch.
/// The commit was rejected as a whole; the prior epoch is still current.
#[derive(Clone, Copy, PartialEq, Eq, Structural, Debug)]
pub enum CommitError {
    RowSetAlreadyLive(RowSetKey),
    RowSetNotLive(RowSetKey),
    DeleteVectorAlreadyLive(DvKey),
    DeleteVectorNotLive(DvKey),
}

/// How one operation moves the live-unit sets, or why it is inconsistent.
pub open spec fn apply_epoch_op(rs: Set<RowSetKey>, dvs: Set<DvKey>, op: EpochOp) -> Result<
    (Set<RowSetKey>, Set<DvKey>),
    CommitError,
> {
    match op {
        EpochOp::AddRowSet(k) => if rs.contains(k) {
            Err(CommitError::RowSetAlreadyLive(k))
        } else {
            Ok((rs.insert(k), dvs))
        },
        EpochOp::DeleteRowSet(k) => if !rs.contains(k) {
            Err(CommitError::RowSetNotLive(k))
        } else {
            Ok((rs.remove(k), dvs))
        },
        EpochOp::AddDV(k) => if dvs.contains(k) {
            Err(CommitError::DeleteVectorAlreadyLive(k))
        } else {
            Ok((rs, dvs.insert(k)))
        },
        EpochOp::DeleteDV(k) => if !dvs.contains(k) {
            Err(CommitError::DeleteVectorNotLive(k))
        } else {
            Ok((rs, dvs.remove(k)))
        },
    }
}

/// A whole changeset folded in order over the live-unit sets: every
/// operation applied, or the first inconsistency.
pub open spec fn apply_changeset(
    rs: Set<RowSetKey>,
    dvs: Set<DvKey>,
    ops: Seq<EpochOp>,
) -> Result<(Set<RowSetKey>, Set<DvKey>), CommitError>
    decreases ops.len(),
{
    if ops.len() == 0 {
        Ok((rs, dvs))
    } else {
        match apply_changeset(rs, dvs, ops.drop_last()) {
            Ok(p) => apply_epoch_op(p.0, p.1, ops.last()),
            Err(e) => Err(e),
        }
    }
}

proof fn lemma_apply_changeset_err(
    rs: Set<RowSetKey>,
    dvs: Set<DvKey>,
    ops: Seq<EpochOp>,
    i: int,
)
    requires
        0 <= i <= ops.len(),
        apply_changeset(rs, dvs, ops.take(i)) is Err,
    ensures
        apply_changeset(rs, dvs, ops) == apply_changeset(rs, dvs, ops.take(i)),
    decreases ops.len(),
{
    if i == ops.len() {
        assert(ops.take(i) =~= ops);
    } else {
        assert(ops.drop_last().take(i) =~= ops.take(i));
        lemma_apply_changeset_err(rs, dvs, ops.drop_last(), i);
    }
}

/// An immutable snapshot: which row groups and delete vectors are live, at
/// the point in time named by `seq`.
#[derive(Debug)]
pub struct Epoch {
    pub seq: u64,
    pub live_rowsets: RowSetSet,
    pub live_dvs: DvSet,
}

impl Epoch {
    pub open spec fn wf(&self) -> bool {
        self.live_rowsets.wf() && self.live_dvs.wf()
    }
}

/// Owns the current epoch and serializes commits; epochs it has handed out
/// are unaffected by anything it later does.
#[derive(Debug)]
pub struct VersionManager {
    current: Epoch,
}

impl VersionManager {
    pub closed spec fn current_seq(&self) -> u64 {
        self.current.seq
    }

    pub closed spec fn live_rowsets(&self) -> Set<RowSetKey> {
        self.current.live_rowsets@
    }

    pub closed spec fn live_dvs(&self) -> Set<DvKey> {
        self.current.live_dvs@
    }

    pub closed spec fn wf(&self) -> bool {
        self.current.wf()
    }

    /// Epoch 0 is built directly from the live-unit set that bootstrap
    /// replayed — not from an empty epoch plus a changeset.
    pub fn bootstrap(live_rowsets: RowSetSet, live_dvs: DvSet) -> (r: Self)
        requires
            live_rowsets.wf(),
            live_dvs.wf(),
        ensures
            r.wf(),
            r.current_seq() == 0,
            r.live_rowsets() == live_rowsets@,
            r.live_dvs() == live_dvs@,
    {
        VersionManager { current: Epoch { seq: 0, live_rowsets, live_dvs } }
    }

    /// The current epoch, as an owned snapshot; never blocks and never
    /// fails. Later commits leave the returned value untouched.
    pub fn current_snapshot(&self) -> (r: Epoch)
        requires
            self.wf(),
        ensures
            r.wf(),
            r.seq == self.current_seq(),
            r.live_rowsets@ == self.live_rowsets(),
            r.live_dvs@ == self.live_dvs(),
    {
        Epoch {
            seq: self.current.seq,
            live_rowsets: self.current.live_rowsets.duplicate(),
            live_dvs: self.current.live_dvs.duplicate(),
        }
    }

    /// Folds a changeset into the next epoch. All of it takes effect and
    /// the sequence number moves up by one, or — on the first operation
    /// inconsistent with the current epoch — none of it does and the
    /// current epoch stands unchanged.
    pub fn commit_changes(&mut self, changeset: &Vec<EpochOp>) -> (r: Result<Epoch, CommitError>)
        requires
            old(self).wf(),
            old(self).current_seq() < u64::MAX,
        ensures
            final(self).wf(),
            (match apply_changeset(old(self).live_rowsets(), old(self).live_dvs(), changeset@) {
                Ok(p) => r matches Ok(ep) && final(self).current_seq() == old(self).current_seq()
                    + 1 && final(self).live_rowsets() == p.0 && final(self).live_dvs() == p.1
                    && ep.wf() && ep.seq == final(self).current_seq() && ep.live_rowsets@ == p.0
                    && ep.live_dvs@ == p.1,
                Err(e) => r == Err::<Epoch, CommitError>(e) && *final(self) == *old(self),
            }),
    {
        let mut rs = self.current.live_rowsets.duplicate();
        let mut dvs = self.current.live_dvs.duplicate();
        let n = changeset.len();
        let mut i: usize = 0;
        while i < n
            invariant
                i <= n,
                n == changeset@.len(),
                *self == *old(self),
                self.wf(),
                rs.wf(),
                dvs.wf(),
                apply_changeset(
                    old(self).live_rowsets(),
                    old(self).live_dvs(),
                    changeset@.take(i as int),
                ) == Ok::<(Set<RowSetKey>, Set<DvKey>), CommitError>((rs@, dvs@)),
            decreases n - i,
        {
            proof {
                assert(changeset@.take(i as int + 1).drop_last() =~= changeset@.take(i as int));
                assert(changeset@.take(i as int + 1).last() == changeset@[i as int]);
            }
            let op = changeset[i];
            match op {
                EpochOp::AddRowSet(k) => {
                    if rs.contains(k) {
                        proof {
                            lemma_apply_changeset_err(
                                old(self).live_rowsets(),
                                old(self).live_dvs(),
                                changeset@,
                                i as int + 1,
                            );
                        }
                        return Err(CommitError::RowSetAlreadyLive(k));
                    }
                    rs.insert(k);
                },
                EpochOp::DeleteRowSet(k) => {
                    if !rs.contains(k) {
                        proof {
                            lemma_apply_changeset_err(
                                old(self).live_rowsets(),
                                old(self).live_dvs(),
                                changeset@,
                                i as int + 1,
                            );
                        }
                        return Err(CommitError::RowSetNotLive(k));
                    }
                    rs.remove(k);
                },
                EpochOp::AddDV(k) => {
                    if dvs.contains(k) {
                        proof {
                            lemma_apply_changeset_err(
                                old(self).live_rowsets(),
                                old(self).live_dvs(),
                                changeset@,
                                i as int + 1,
                            );
                        }
                        return Err(CommitError::DeleteVectorAlreadyLive(k));
                    }
                    dvs.insert(k);
                },
                EpochOp::DeleteDV(k) => {
                    if !dvs.contains(k) {
                        proof {
                            lemma_apply_changeset_err(
                                old(self).live_rowsets(),
                                old(self).live_dvs(),
                                changeset@,
                                i as int + 1,
                            );
                        }
                        return Err(CommitError::DeleteVectorNotLive(k));
                    }
                    dvs.remove(k);
                },
            }
            i += 1;
        }
        proof {
            assert(changeset@.take(n as int) =~= changeset@);
        }
        self.current.seq = self.current.seq + 1;
        self.current.live_rowsets = rs;
        self.current.live_dvs = dvs;
        Ok(self.current_snapshot())
    }
}

} // verus!
