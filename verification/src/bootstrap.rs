//! Recovery: folding replayed structural-log entries into the catalog, the
//! live-unit sets and the identifier allocators, and assembling the store's
//! initial epoch from them.
//!
//! The caller reads the log's bytes and, after `Store::bootstrap` returns,
//! opens every unit the initial epoch lists; only when every open has
//! succeeded may the store serve operations.

use vstd::prelude::*;
use crate::catalog::{Catalog, clone_columns};
use crate::ids::IdAllocators;
use crate::keys::{RowSetKey, DvKey};
use crate::live_set::{RowSetSet, DvSet};
use crate::manifest::{ManifestOperation, OpView, CorruptionError, ops_view, spec_replay, replay};
use crate::version::VersionManager;

verus! {

/// The mathematical recovery state: what a log prefix has established.
pub struct ReplayModel {
    pub tables: Map<u32, Seq<u32>>,
    pub live_rowsets: Set<RowSetKey>,
    pub live_dvs: Set<DvKey>,
    pub next_rowset_id: u32,
    pub next_dv_id: u64,
}

pub open spec fn init_model() -> ReplayModel {
    ReplayModel {
        tables: Map::empty(),
        live_rowsets: Set::empty(),
        live_dvs: Set::empty(),
        next_rowset_id: 0,
        next_dv_id: 0,
    }
}

/// How one replayed entry moves the recovery state. Later entries always
/// win: a `Delete*` removes a prior `Add*`'s unit. Allocators advance past
/// every identifier an `Add*` names, whether or not the unit survives.
pub open spec fn apply_entry(m: ReplayModel, op: OpView) -> Result<ReplayModel, CorruptionError> {
    match op {
        OpView::CreateTable { table_id, columns } => if m.tables.dom().contains(table_id) {
            Err(CorruptionError::DuplicateTable(table_id))
        } else {
            Ok(ReplayModel { tables: m.tables.insert(table_id, columns), ..m })
        },
        OpView::DropTable { table_id } => if !m.tables.dom().contains(table_id) {
            Err(CorruptionError::UnknownTable(table_id))
        } else {
            Ok(ReplayModel { tables: m.tables.remove(table_id), ..m })
        },
        OpView::AddRowSet(k) => if k.rowset_id == u32::MAX {
            Err(CorruptionError::IdentifierOverflow)
        } else {
            Ok(
                ReplayModel {
                    live_rowsets: m.live_rowsets.insert(k),
                    next_rowset_id: if k.rowset_id >= m.next_rowset_id {
                        (k.rowset_id + 1) as u32
                    } else {
                        m.next_rowset_id
                    },
                    ..m
                },
            )
        },
        OpView::DeleteRowSet(k) => Ok(ReplayModel { live_rowsets: m.live_rowsets.remove(k), ..m }),
        OpView::AddDV(k) => if k.dv_id == u64::MAX {
            Err(CorruptionError::IdentifierOverflow)
        } else {
            Ok(
                ReplayModel {
                    live_dvs: m.live_dvs.insert(k),
                    next_dv_id: if k.dv_id >= m.next_dv_id {
                        (k.dv_id + 1) as u64
                    } else {
                        m.next_dv_id
                    },
                    ..m
                },
            )
        },
        OpView::DeleteDV(k) => Ok(ReplayModel { live_dvs: m.live_dvs.remove(k), ..m }),
        OpView::Begin => Ok(m),
        OpView::End => Ok(m),
    }
}

/// The recovery state a whole entry sequence establishes, folded in log
/// order from the empty store, or the first inconsistency met.
pub open spec fn replay_model(ops: Seq<OpView>) -> Result<ReplayModel, CorruptionError>
    decreases ops.len(),
{
    if ops.len() == 0 {
        Ok(init_model())
    } else {
        match replay_model(ops.drop_last()) {
            Ok(m) => apply_entry(m, ops.last()),
            Err(e) => Err(e),
        }
    }
}

proof fn lemma_replay_model_err(ops: Seq<OpView>, i: int)
    requires
        0 <= i <= ops.len(),
        replay_model(ops.take(i)) is Err,
    ensures
        replay_model(ops) == replay_model(ops.take(i)),
    decreases ops.len(),
{
    if i == ops.len() {
        assert(ops.take(i) =~= ops);
    } else {
        assert(ops.drop_last().take(i) =~= ops.take(i));
        lemma_replay_model_err(ops.drop_last(), i);
    }
}

/// The recovery state in executable form.
#[derive(Debug)]
pub struct ReplayState {
    pub catalog: Catalog,
    pub live_rowsets: RowSetSet,
    pub live_dvs: DvSet,
    pub allocators: IdAllocators,
}

impl ReplayState {
    pub open spec fn wf(&self) -> bool {
        self.catalog.wf() && self.live_rowsets.wf() && self.live_dvs.wf()
    }
}

impl View for ReplayState {
    type V = ReplayModel;

    open spec fn view(&self) -> ReplayModel {
        ReplayModel {
            tables: self.catalog@,
            live_rowsets: self.live_rowsets@,
            live_dvs: self.live_dvs@,
            next_rowset_id: self.allocators.next_rowset_id,
            next_dv_id: self.allocators.next_dv_id,
        }
    }
}

/// Folds replayed entries, in strict log order, into catalog mutations,
/// the live-unit sets, and the identifier allocators.
pub fn replay_fold(ops: &Vec<ManifestOperation>) -> (r: Result<ReplayState, CorruptionError>)
    ensures
        replay_model(ops_view(ops@)) matches Ok(m) ==> (r matches Ok(st) && st.wf() && st@ == m),
        replay_model(ops_view(ops@)) matches Err(e) ==> r == Err::<ReplayState, CorruptionError>(
            e,
        ),
{
    let mut st = ReplayState {
        catalog: Catalog::new(),
        live_rowsets: RowSetSet::new(),
        live_dvs: DvSet::new(),
        allocators: IdAllocators::new(0, 0),
    };
    let n = ops.len();
    let mut i: usize = 0;
    proof {
        assert(ops_view(ops@).take(0) =~= Seq::<OpView>::empty());
    }
    while i < n
        invariant
            i <= n,
            n == ops@.len(),
            st.wf(),
            replay_model(ops_view(ops@).take(i as int)) == Ok::<ReplayModel, CorruptionError>(st@),
        decreases n - i,
    {
        proof {
            assert(ops_view(ops@).take(i as int + 1).drop_last() =~= ops_view(ops@).take(i as int));
            assert(ops_view(ops@).take(i as int + 1).last() == ops_view(ops@)[i as int]);
            assert(ops_view(ops@)[i as int] == ops@[i as int]@);
        }
        let ghost prefix = ops_view(ops@).take(i as int + 1);
        match &ops[i] {
            ManifestOperation::CreateTable(e) => {
                let cols = clone_columns(&e.columns);
                match st.catalog.create_table(e.table_id, cols) {
                    Ok(()) => {},
                    Err(er) => {
                        proof {
                            lemma_replay_model_err(ops_view(ops@), i as int + 1);
                        }
                        return Err(er);
                    },
                }
            },
            ManifestOperation::DropTable(e) => {
                match st.catalog.drop_table(e.table_id) {
                    Ok(()) => {},
                    Err(er) => {
                        proof {
                            lemma_replay_model_err(ops_view(ops@), i as int + 1);
                        }
                        return Err(er);
                    },
                }
            },
            ManifestOperation::AddRowSet(k) => {
                if k.rowset_id == u32::MAX {
                    proof {
                        lemma_replay_model_err(ops_view(ops@), i as int + 1);
                    }
                    return Err(CorruptionError::IdentifierOverflow);
                }
                st.live_rowsets.insert(*k);
                if k.rowset_id >= st.allocators.next_rowset_id {
                    st.allocators.next_rowset_id = k.rowset_id + 1;
                }
            },
            ManifestOperation::DeleteRowSet(k) => {
                st.live_rowsets.remove(*k);
            },
            ManifestOperation::AddDV(k) => {
                if k.dv_id == u64::MAX {
                    proof {
                        lemma_replay_model_err(ops_view(ops@), i as int + 1);
                    }
                    return Err(CorruptionError::IdentifierOverflow);
                }
                st.live_dvs.insert(*k);
                if k.dv_id >= st.allocators.next_dv_id {
                    st.allocators.next_dv_id = k.dv_id + 1;
                }
            },
            ManifestOperation::DeleteDV(k) => {
                st.live_dvs.remove(*k);
            },
            ManifestOperation::Begin => {},
            ManifestOperation::End => {},
        }
        proof {
            assert(replay_model(prefix) == Ok::<ReplayModel, CorruptionError>(st@));
        }
        i += 1;
    }
    proof {
        assert(ops_view(ops@).take(n as int) =~= ops_view(ops@));
    }
    Ok(st)
}

/// Every live unit belongs to a table the catalog knows; a violation is a
/// dangling reference, a corruption error rather than something silently
/// dropped.
pub open spec fn model_consistent(m: ReplayModel) -> bool {
    (forall|k: RowSetKey| m.live_rowsets.contains(k) ==> m.tables.dom().contains(k.table_id))
        && (forall|d: DvKey| m.live_dvs.contains(d) ==> m.tables.dom().contains(d.table_id))
}

/// What recovering from a log's bytes establishes: replay, then the fold.
pub open spec fn spec_bootstrap_model(b: Seq<u8>) -> Result<ReplayModel, CorruptionError> {
    match spec_replay(b) {
        Ok(ops) => replay_model(ops),
        Err(e) => Err(e),
    }
}

/// The recovered store: catalog, allocators, and the version manager
/// holding epoch 0. The units epoch 0 lists are the ones the caller must
/// open before serving.
#[derive(Debug)]
pub struct Store {
    pub catalog: Catalog,
    pub allocators: IdAllocators,
    pub version: VersionManager,
}

impl Store {
    pub open spec fn wf(&self) -> bool {
        self.catalog.wf() && self.version.wf()
    }

    /// Replays the structural log's bytes and reconstructs the store:
    /// catalog and allocators from the fold, epoch 0 directly from the
    /// surviving live-unit set. Fails on the log's first inconsistency,
    /// and on any surviving unit whose table is gone.
    pub fn bootstrap(log_bytes: &Vec<u8>) -> (r: Result<Store, CorruptionError>)
        ensures
            (match spec_bootstrap_model(log_bytes@) {
                Ok(m) => if model_consistent(m) {
                    r matches Ok(st) && st.wf() && st.catalog@ == m.tables
                        && st.allocators.next_rowset_id == m.next_rowset_id
                        && st.allocators.next_dv_id == m.next_dv_id && st.version.current_seq()
                        == 0 && st.version.live_rowsets() == m.live_rowsets
                        && st.version.live_dvs() == m.live_dvs
                } else {
                    r matches Err(e) && (match e {
                        CorruptionError::DanglingRowSet(k) => m.live_rowsets.contains(k)
                            && !m.tables.dom().contains(k.table_id),
                        CorruptionError::DanglingDeleteVector(d) => m.live_dvs.contains(d)
                            && !m.tables.dom().contains(d.table_id),
                        _ => false,
                    })
                },
                Err(e) => r == Err::<Store, CorruptionError>(e),
            }),
    {
        let ops = match replay(log_bytes) {
            Ok(v) => v,
            Err(e) => {
                return Err(e);
            },
        };
        let st = match replay_fold(&ops) {
            Ok(s) => s,
            Err(e) => {
                return Err(e);
            },
        };
        let rs_items = st.live_rowsets.as_vec();
        let nr = rs_items.len();
        let mut i: usize = 0;
        while i < nr
            invariant
                i <= nr,
                nr == rs_items@.len(),
                st.wf(),
                spec_bootstrap_model(log_bytes@) == Ok::<ReplayModel, CorruptionError>(st@),
                rs_items@.to_set() == st.live_rowsets@,
                forall|j: int|
                    0 <= j < i ==> st.catalog@.dom().contains(
                        (#[trigger] rs_items@[j]).table_id,
                    ),
            decreases nr - i,
        {
            let k = rs_items[i];
            if !st.catalog.contains_table(k.table_id) {
                proof {
                    assert(rs_items@.contains(k));
                }
                return Err(CorruptionError::DanglingRowSet(k));
            }
            i += 1;
        }
        let dv_items = st.live_dvs.as_vec();
        let nd = dv_items.len();
        let mut h: usize = 0;
        while h < nd
            invariant
                h <= nd,
                nd == dv_items@.len(),
                st.wf(),
                spec_bootstrap_model(log_bytes@) == Ok::<ReplayModel, CorruptionError>(st@),
                dv_items@.to_set() == st.live_dvs@,
                forall|j: int|
                    0 <= j < h ==> st.catalog@.dom().contains(
                        (#[trigger] dv_items@[j]).table_id,
                    ),
            decreases nd - h,
        {
            let d = dv_items[h];
            if !st.catalog.contains_table(d.table_id) {
                proof {
                    assert(dv_items@.contains(d));
                }
                return Err(CorruptionError::DanglingDeleteVector(d));
            }
            h += 1;
        }
        proof {
            assert forall|k: RowSetKey| st.live_rowsets@.contains(k) implies
                st.catalog@.dom().contains(k.table_id) by {
                let j = choose|j: int| 0 <= j < rs_items@.len() && rs_items@[j] == k;
                assert(rs_items@[j].table_id == k.table_id);
            }
            assert forall|d: DvKey| st.live_dvs@.contains(d) implies st.catalog@.dom().contains(
                d.table_id,
            ) by {
                let j = choose|j: int| 0 <= j < dv_items@.len() && dv_items@[j] == d;
                assert(dv_items@[j].table_id == d.table_id);
            }
        }
        let ReplayState { catalog, live_rowsets, live_dvs, allocators } = st;
        let version = VersionManager::bootstrap(live_rowsets, live_dvs);
        Ok(Store { catalog, allocators, version })
    }
}


/// Whether, in `ops`, some `AddRowSet` for `k` survives: no later
/// `DeleteRowSet` for the same key undoes it.
pub open spec fn surviving_add_rowset(ops: Seq<OpView>, k: RowSetKey) -> bool {
    exists|i: int|
        0 <= i < ops.len() && #[trigger] ops[i] == OpView::AddRowSet(k) && (forall|j: int|
            i < j < ops.len() ==> #[trigger] ops[j] != OpView::DeleteRowSet(k))
}

/// Whether, in `ops`, some `AddDV` for `d` survives.
pub open spec fn surviving_add_dv(ops: Seq<OpView>, d: DvKey) -> bool {
    exists|i: int|
        0 <= i < ops.len() && #[trigger] ops[i] == OpView::AddDV(d) && (forall|j: int|
            i < j < ops.len() ==> #[trigger] ops[j] != OpView::DeleteDV(d))
}

proof fn lemma_surviving_rowset_extend(pre: Seq<OpView>, last: OpView, k: RowSetKey)
    ensures
        surviving_add_rowset(pre.push(last), k) == (last == OpView::AddRowSet(k) || (
        surviving_add_rowset(pre, k) && last != OpView::DeleteRowSet(k))),
{
    let full = pre.push(last);
    let n = pre.len() as int;
    assert(full[n] == last);
    assert(forall|j: int| 0 <= j < n ==> #[trigger] full[j] == pre[j]);
    if last == OpView::AddRowSet(k) {
        assert(full[n] == OpView::AddRowSet(k) && (forall|j: int|
            n < j < full.len() ==> #[trigger] full[j] != OpView::DeleteRowSet(k)));
        assert(surviving_add_rowset(full, k));
    } else if last == OpView::DeleteRowSet(k) {
        assert forall|i: int|
            0 <= i < full.len() && #[trigger] full[i] == OpView::AddRowSet(k) implies !(forall|
        j: int|
            i < j < full.len() ==> #[trigger] full[j] != OpView::DeleteRowSet(k)) by {
            assert(i < n);
            assert(full[n] == OpView::DeleteRowSet(k));
        }
        assert(!surviving_add_rowset(full, k));
    } else {
        if surviving_add_rowset(pre, k) {
            let i = choose|i: int|
                0 <= i < pre.len() && #[trigger] pre[i] == OpView::AddRowSet(k) && (forall|j: int|
                    i < j < pre.len() ==> #[trigger] pre[j] != OpView::DeleteRowSet(k));
            assert(full[i] == OpView::AddRowSet(k));
            assert forall|j: int| i < j < full.len() implies #[trigger] full[j]
                != OpView::DeleteRowSet(k) by {
                if j < n {
                    assert(pre[j] != OpView::DeleteRowSet(k));
                }
            }
            assert(surviving_add_rowset(full, k));
        }
        if surviving_add_rowset(full, k) {
            let i = choose|i: int|
                0 <= i < full.len() && #[trigger] full[i] == OpView::AddRowSet(k) && (forall|
                j: int|
                    i < j < full.len() ==> #[trigger] full[j] != OpView::DeleteRowSet(k));
            assert(i != n);
            assert(pre[i] == OpView::AddRowSet(k));
            assert forall|j: int| i < j < pre.len() implies #[trigger] pre[j]
                != OpView::DeleteRowSet(k) by {
                assert(full[j] == pre[j]);
                assert(full[j] != OpView::DeleteRowSet(k));
            }
            assert(surviving_add_rowset(pre, k));
        }
    }
}

proof fn lemma_surviving_dv_extend(pre: Seq<OpView>, last: OpView, d: DvKey)
    ensures
        surviving_add_dv(pre.push(last), d) == (last == OpView::AddDV(d) || (surviving_add_dv(
            pre,
            d,
        ) && last != OpView::DeleteDV(d))),
{
    let full = pre.push(last);
    let n = pre.len() as int;
    assert(full[n] == last);
    assert(forall|j: int| 0 <= j < n ==> #[trigger] full[j] == pre[j]);
    if last == OpView::AddDV(d) {
        assert(full[n] == OpView::AddDV(d) && (forall|j: int|
            n < j < full.len() ==> #[trigger] full[j] != OpView::DeleteDV(d)));
        assert(surviving_add_dv(full, d));
    } else if last == OpView::DeleteDV(d) {
        assert forall|i: int|
            0 <= i < full.len() && #[trigger] full[i] == OpView::AddDV(d) implies !(forall|j: int|
            i < j < full.len() ==> #[trigger] full[j] != OpView::DeleteDV(d)) by {
            assert(i < n);
            assert(full[n] == OpView::DeleteDV(d));
        }
        assert(!surviving_add_dv(full, d));
    } else {
        if surviving_add_dv(pre, d) {
            let i = choose|i: int|
                0 <= i < pre.len() && #[trigger] pre[i] == OpView::AddDV(d) && (forall|j: int|
                    i < j < pre.len() ==> #[trigger] pre[j] != OpView::DeleteDV(d));
            assert(full[i] == OpView::AddDV(d));
            assert forall|j: int| i < j < full.len() implies #[trigger] full[j] != OpView::DeleteDV(
                d,
            ) by {
                if j < n {
                    assert(pre[j] != OpView::DeleteDV(d));
                }
            }
            assert(surviving_add_dv(full, d));
        }
        if surviving_add_dv(full, d) {
            let i = choose|i: int|
                0 <= i < full.len() && #[trigger] full[i] == OpView::AddDV(d) && (forall|j: int|
                    i < j < full.len() ==> #[trigger] full[j] != OpView::DeleteDV(d));
            assert(i != n);
            assert(pre[i] == OpView::AddDV(d));
            assert forall|j: int| i < j < pre.len() implies #[trigger] pre[j] != OpView::DeleteDV(
                d,
            ) by {
                assert(full[j] == pre[j]);
                assert(full[j] != OpView::DeleteDV(d));
            }
            assert(surviving_add_dv(pre, d));
        }
    }
}

/// The live-unit sets replay reconstructs are exactly the set difference
/// of adds minus later deletes, key by key and in log order — however
/// entries of different tables and row groups interleave.
pub proof fn lemma_live_set_from_log(ops: Seq<OpView>, m: ReplayModel, k: RowSetKey, d: DvKey)
    requires
        replay_model(ops) == Ok::<ReplayModel, CorruptionError>(m),
    ensures
        m.live_rowsets.contains(k) == surviving_add_rowset(ops, k),
        m.live_dvs.contains(d) == surviving_add_dv(ops, d),
    decreases ops.len(),
{
    if ops.len() == 0 {
        assert(!surviving_add_rowset(ops, k));
        assert(!surviving_add_dv(ops, d));
    } else {
        let pre = ops.drop_last();
        let last = ops.last();
        let m0 = match replay_model(pre) {
            Ok(m0) => m0,
            Err(e) => proof_from_false(),
        };
        lemma_live_set_from_log(pre, m0, k, d);
        assert(pre.push(last) =~= ops);
        lemma_surviving_rowset_extend(pre, last, k);
        lemma_surviving_dv_extend(pre, last, d);
    }
}

/// Replay depends on the log's bytes alone: recovering twice from the
/// same log — a crash with no new writes between — yields identical
/// catalog state, live-unit sets and allocator values.
pub proof fn lemma_replay_idempotent(b: Seq<u8>, m1: ReplayModel, m2: ReplayModel)
    requires
        spec_bootstrap_model(b) == Ok::<ReplayModel, CorruptionError>(m1),
        spec_bootstrap_model(b) == Ok::<ReplayModel, CorruptionError>(m2),
    ensures
        m1 == m2,
{
}

/// Each allocator's next value is strictly greater than every identifier
/// any `Add*` entry ever named — also ones whose unit a later `Delete*`
/// removed — so no identifier is reused, even across restarts.
pub proof fn lemma_allocator_monotonic(ops: Seq<OpView>, m: ReplayModel)
    requires
        replay_model(ops) == Ok::<ReplayModel, CorruptionError>(m),
    ensures
        forall|i: int|
            0 <= i < ops.len() ==> ((#[trigger] ops[i]) matches OpView::AddRowSet(k)
                ==> k.rowset_id < m.next_rowset_id),
        forall|i: int|
            0 <= i < ops.len() ==> ((#[trigger] ops[i]) matches OpView::AddDV(d) ==> d.dv_id
                < m.next_dv_id),
    decreases ops.len(),
{
    if ops.len() > 0 {
        let pre = ops.drop_last();
        let last = ops.last();
        let m0 = match replay_model(pre) {
            Ok(m0) => m0,
            Err(e) => proof_from_false(),
        };
        lemma_allocator_monotonic(pre, m0);
        assert(m.next_rowset_id >= m0.next_rowset_id);
        assert(m.next_dv_id >= m0.next_dv_id);
        assert(forall|j: int| 0 <= j < pre.len() ==> #[trigger] ops[j] == pre[j]);
    }
}

} // verus!
