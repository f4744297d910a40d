//! The catalog: the in-memory map from table identity to schema, built from
//! `CreateTable` / `DropTable` entries in replay order and mutated by the
//! same entries after bootstrap (each appended to the log first).

use vstd::prelude::*;
use vstd::map::*;
use crate::manifest::CorruptionError;

verus! {

/// A registered table: its stable numeric identifier and its schema as the
/// ordered sequence of numeric column identifiers.
#[derive(PartialEq, Eq, Debug)]
pub struct TableHandle {
    pub table_id: u32,
    pub columns: Vec<u32>,
}

/// Element-by-element copy of a schema.
pub fn clone_columns(v: &Vec<u32>) -> (r: Vec<u32>)
    ensures
        r@ == v@,
{
    let n = v.len();
    let mut out: Vec<u32> = Vec::new();
    let mut i: usize = 0;
    while i < n
        invariant
            i <= n,
            n == v@.len(),
            out@ == v@.take(i as int),
        decreases n - i,
    {
        out.push(v[i]);
        proof {
            assert(out@ =~= v@.take(i as int + 1));
        }
        i += 1;
    }
    proof {
        assert(out@ =~= v@);
    }
    out
}

/// The map a sequence of handles stands for, later entries shadowing
/// earlier ones; with distinct identifiers nothing is shadowed.
pub open spec fn tables_map(s: Seq<TableHandle>) -> Map<u32, Seq<u32>>
    decreases s.len(),
{
    if s.len() == 0 {
        Map::empty()
    } else {
        tables_map(s.drop_last()).insert(s.last().table_id, s.last().columns@)
    }
}

pub open spec fn distinct_ids(s: Seq<TableHandle>) -> bool {
    forall|i: int, j: int|
        0 <= i < s.len() && 0 <= j < s.len() && i != j ==> s[i].table_id != s[j].table_id
}

proof fn lemma_tables_map_char(s: Seq<TableHandle>)
    requires
        distinct_ids(s),
    ensures
        forall|t: u32|
            tables_map(s).dom().contains(t) <==> (exists|i: int|
                0 <= i < s.len() && s[i].table_id == t),
        forall|i: int|
            0 <= i < s.len() ==> tables_map(s)[#[trigger] s[i].table_id] == s[i].columns@,
        tables_map(s).dom().len() == s.len(),
        tables_map(s).dom().finite(),
    decreases s.len(),
{
    if s.len() > 0 {
        lemma_tables_map_char(s.drop_last());
        assert forall|t: u32| tables_map(s).dom().contains(t) implies (exists|i: int|
            0 <= i < s.len() && s[i].table_id == t) by {
            if t == s.last().table_id {
                assert(s[s.len() - 1].table_id == t);
            } else {
                let i = choose|i: int| 0 <= i < s.len() - 1 && s.drop_last()[i].table_id == t;
                assert(s[i].table_id == t);
            }
        }
        assert forall|t: u32| (exists|i: int| 0 <= i < s.len() && s[i].table_id == t) implies
            tables_map(s).dom().contains(t) by {
            let i = choose|i: int| 0 <= i < s.len() && s[i].table_id == t;
            if i < s.len() - 1 {
                assert(s.drop_last()[i].table_id == t);
            }
        }
        assert forall|i: int| 0 <= i < s.len() implies tables_map(s)[#[trigger] s[i].table_id]
            == s[i].columns@ by {
            if i < s.len() - 1 {
                assert(s[i].table_id != s.last().table_id);
                assert(s.drop_last()[i].table_id == s[i].table_id);
            }
        }
        assert(!tables_map(s.drop_last()).dom().contains(s.last().table_id));
    }
}

/// The table map. Its mutators keep the write-ahead discipline's in-memory
/// half: the caller appends the matching entry to the structural log first.
#[derive(Debug)]
pub struct Catalog {
    tables: Vec<TableHandle>,
}

impl Catalog {
    pub closed spec fn view(&self) -> Map<u32, Seq<u32>> {
        tables_map(self.tables@)
    }

    pub closed spec fn wf(&self) -> bool {
        distinct_ids(self.tables@)
    }

    pub fn new() -> (r: Self)
        ensures
            r.wf(),
            r@ == Map::<u32, Seq<u32>>::empty(),
    {
        Catalog { tables: Vec::new() }
    }

    pub fn contains_table(&self, table_id: u32) -> (r: bool)
        requires
            self.wf(),
        ensures
            r == self@.dom().contains(table_id),
    {
        proof {
            lemma_tables_map_char(self.tables@);
        }
        let n = self.tables.len();
        let mut i: usize = 0;
        while i < n
            invariant
                i <= n,
                n == self.tables@.len(),
                self.wf(),
                forall|j: int| 0 <= j < i ==> self.tables@[j].table_id != table_id,
            decreases n - i,
        {
            if self.tables[i].table_id == table_id {
                proof {
                    lemma_tables_map_char(self.tables@);
                    assert(self.tables@[i as int].table_id == table_id);
                }
                return true;
            }
            i += 1;
        }
        false
    }

    /// How many tables are registered.
    pub fn table_count(&self) -> (n: usize)
        requires
            self.wf(),
        ensures
            n == self@.dom().len(),
    {
        proof {
            lemma_tables_map_char(self.tables@);
        }
        self.tables.len()
    }

    /// The handle of a registered table, or `None` for an unknown
    /// identifier.
    pub fn resolve_table(&self, table_id: u32) -> (r: Option<&TableHandle>)
        requires
            self.wf(),
        ensures
            (match r {
                Some(h) => self@.dom().contains(table_id) && h.table_id == table_id && h.columns@
                    == self@[table_id],
                None => !self@.dom().contains(table_id),
            }),
    {
        proof {
            lemma_tables_map_char(self.tables@);
        }
        let n = self.tables.len();
        let mut i: usize = 0;
        while i < n
            invariant
                i <= n,
                n == self.tables@.len(),
                self.wf(),
                forall|j: int| 0 <= j < i ==> self.tables@[j].table_id != table_id,
            decreases n - i,
        {
            if self.tables[i].table_id == table_id {
                proof {
                    lemma_tables_map_char(self.tables@);
                    assert(self.tables@[i as int].table_id == table_id);
                }
                return Some(&self.tables[i]);
            }
            i += 1;
        }
        None
    }

    /// Registers a table. Registering an identifier twice is corruption:
    /// the log never records it for a consistent store.
    pub fn create_table(&mut self, table_id: u32, columns: Vec<u32>) -> (r: Result<
        (),
        CorruptionError,
    >)
        requires
            old(self).wf(),
        ensures
            final(self).wf(),
            (match r {
                Ok(()) => !old(self)@.dom().contains(table_id) && final(self)@ == old(
                    self,
                )@.insert(table_id, columns@),
                Err(e) => e == CorruptionError::DuplicateTable(table_id) && old(
                    self,
                )@.dom().contains(table_id) && final(self)@ == old(self)@,
            }),
    {
        if self.contains_table(table_id) {
            return Err(CorruptionError::DuplicateTable(table_id));
        }
        proof {
            lemma_tables_map_char(self.tables@);
            assert(forall|j: int|
                0 <= j < self.tables@.len() ==> (#[trigger] self.tables@[j]).table_id != table_id);
        }
        let ghost before = self.tables@;
        self.tables.push(TableHandle { table_id, columns });
        proof {
            assert(self.tables@.drop_last() =~= before);
        }
        Ok(())
    }

    /// Removes a table. Dropping an unknown identifier is corruption, for
    /// the same reason.
    pub fn drop_table(&mut self, table_id: u32) -> (r: Result<(), CorruptionError>)
        requires
            old(self).wf(),
        ensures
            final(self).wf(),
            (match r {
                Ok(()) => old(self)@.dom().contains(table_id) && final(self)@ == old(
                    self,
                )@.remove(table_id),
                Err(e) => e == CorruptionError::UnknownTable(table_id) && !old(
                    self,
                )@.dom().contains(table_id) && final(self)@ == old(self)@,
            }),
    {
        proof {
            lemma_tables_map_char(self.tables@);
        }
        let n = self.tables.len();
        let mut i: usize = 0;
        while i < n
            invariant
                i <= n,
                n == self.tables@.len(),
                self.tables@ == old(self).tables@,
                distinct_ids(self.tables@),
                forall|j: int| 0 <= j < i ==> self.tables@[j].table_id != table_id,
            decreases n - i,
        {
            if self.tables[i].table_id == table_id {
                let ghost before = self.tables@;
                proof {
                    lemma_tables_map_char(before);
                }
                self.tables.swap_remove(i);
                proof {
                    let after = before.update(i as int, before.last()).drop_last();
                    assert(self.tables@ == after);
                    assert forall|p: int, q: int|
                        0 <= p < after.len() && 0 <= q < after.len() && p != q implies after[p].table_id
                        != after[q].table_id by {
                        let sp: int = if p == i { before.len() - 1 } else { p };
                        let sq: int = if q == i { before.len() - 1 } else { q };
                        assert(after[p] == before[sp] && after[q] == before[sq]);
                    }
                    lemma_tables_map_char(after);
                    assert forall|t: u32| #[trigger] tables_map(after).dom().contains(t) implies
                        tables_map(before).remove(table_id).dom().contains(t) by {
                        let j = choose|j: int| 0 <= j < after.len() && after[j].table_id == t;
                        let sj: int = if j == i { before.len() - 1 } else { j };
                        assert(before[sj].table_id == t);
                        assert(t != table_id);
                    }
                    assert forall|t: u32| #[trigger]
                        tables_map(before).remove(table_id).dom().contains(t) implies tables_map(
                        after,
                    ).dom().contains(t) && tables_map(after)[t] == tables_map(before).remove(
                        table_id,
                    )[t] by {
                        let j = choose|j: int| 0 <= j < before.len() && before[j].table_id == t;
                        assert(j != i);
                        assert(t != table_id);
                        if j == before.len() - 1 {
                            assert(i < before.len() - 1);
                            assert(after[i as int].table_id == t && after[i as int].columns@
                                == before[j].columns@);
                            assert(tables_map(after)[after[i as int].table_id] == after[
                                i as int
                            ].columns@);
                        } else {
                            assert(after[j].table_id == t && after[j].columns@ == before[j].columns@);
                            assert(tables_map(after)[after[j].table_id] == after[j].columns@);
                        }
                        assert(tables_map(before)[before[j].table_id] == before[j].columns@);
                    }
                    assert_maps_equal!(tables_map(after), tables_map(before).remove(table_id), t => {
                        if tables_map(after).dom().contains(t) {
                            assert(tables_map(before).remove(table_id).dom().contains(t));
                        }
                        if tables_map(before).remove(table_id).dom().contains(t) {
                            assert(tables_map(after).dom().contains(t));
                            assert(tables_map(after)[t] == tables_map(before).remove(table_id)[t]);
                        }
                    });
                }
                return Ok(());
            }
            i += 1;
        }
        proof {
            assert(!self@.dom().contains(table_id));
        }
        Err(CorruptionError::UnknownTable(table_id))
    }
}

} // verus!
