//! The knowledge database: a schema of facts with insert, update, delete,
//! queries and compaction, and string dictionaries for identifiers.
use crate::column::Schema;
use crate::dict::{decode_answer, lookup_answer, spec_lookup, DictionaryCache, Index};
use crate::robin_hood::MAX_ENTRIES;
use crate::query::QueryBuilder;
use crate::transaction::Transaction;
use crate::types::{Fact, KcmError, RowID};
use vstd::prelude::*;

verus! {

/// The number of facts a new database holds.
pub const DEFAULT_SCHEMA_CAPACITY: usize = 1_000_000;

/// An identifier given out by a dictionary.
pub type DictID = u32;

/// The dictionaries of the database's identifier spaces.
pub struct Dictionaries {
    pub subjects: DictionaryCache,
    pub objects: DictionaryCache,
    pub predicates: DictionaryCache,
    pub evidence: DictionaryCache,
    pub context: DictionaryCache,
    pub owner: DictionaryCache,
}

impl Dictionaries {
    pub open spec fn wf(&self) -> bool {
        &&& self.subjects.wf()
        &&& self.objects.wf()
        &&& self.predicates.wf()
        &&& self.evidence.wf()
        &&& self.context.wf()
        &&& self.owner.wf()
    }

    fn new() -> (r: Dictionaries)
        ensures
            r.wf(),
            r.subjects.spec_strings() == seq![Seq::<char>::empty()],
            r.objects.spec_strings() == seq![Seq::<char>::empty()],
            r.predicates.spec_strings() == seq![Seq::<char>::empty()],
            r.evidence.spec_strings() == seq![Seq::<char>::empty()],
            r.context.spec_strings() == seq![Seq::<char>::empty()],
            r.owner.spec_strings() == seq![Seq::<char>::empty()],
            r.subjects.spec_index() == Index::empty() && r.objects.spec_index() == Index::empty()
                && r.predicates.spec_index() == Index::empty() && r.evidence.spec_index() == Index::empty()
                && r.context.spec_index() == Index::empty() && r.owner.spec_index() == Index::empty(),
    {
        Dictionaries {
            subjects: DictionaryCache::new(),
            objects: DictionaryCache::new(),
            predicates: DictionaryCache::new(),
            evidence: DictionaryCache::new(),
            context: DictionaryCache::new(),
            owner: DictionaryCache::new(),
        }
    }
}

/// Facts in columnar storage, with dictionaries.
pub struct KnowledgeDatabase {
    schema: Schema,
    dictionaries: Dictionaries,
}

impl KnowledgeDatabase {
    pub closed spec fn spec_schema(&self) -> Schema {
        self.schema
    }

    /// The subject strings by id.
    pub closed spec fn spec_subjects(&self) -> Seq<Seq<char>> {
        self.dictionaries.subjects.spec_strings()
    }

    pub closed spec fn wf(&self) -> bool {
        self.schema.wf() && self.dictionaries.wf()
    }

    /// An empty database for up to a million facts.
    pub fn new() -> (r: Result<KnowledgeDatabase, KcmError>)
        ensures
            r matches Ok(db) && db.wf() && db.spec_schema().rows() == Seq::<Fact>::empty()
                && db.spec_schema().spec_capacity() == DEFAULT_SCHEMA_CAPACITY
                && (forall|i: int| !db.spec_schema().spec_deleted(i))
                && db.spec_subjects() == seq![Seq::<char>::empty()],
    {
        let schema = Schema::new(DEFAULT_SCHEMA_CAPACITY)?;
        Ok(KnowledgeDatabase { schema, dictionaries: Dictionaries::new() })
    }

    pub fn get_schema(&self) -> (r: &Schema)
        ensures
            *r == self.spec_schema(),
    {
        &self.schema
    }

    pub fn get_schema_mut(&mut self) -> (r: &mut Schema)
        ensures
            *r == old(self).spec_schema(),
            final(self).spec_schema() == *final(r),
            final(self).spec_subjects() == old(self).spec_subjects(),
            old(self).wf() ==> (final(self).wf() <==> final(r).wf()),
    {
        &mut self.schema
    }

    pub fn begin_transaction(&self) -> (r: Transaction)
        ensures
            r.spec_state() == crate::transaction::TransactionState::Active,
            r.spec_changes() == Seq::<crate::transaction::TransactionChange>::empty(),
    {
        Transaction::new()
    }

    /// Appends a fact; its row id is the index of the new row.
    pub fn insert(&mut self, fact: &Fact) -> (r: Result<RowID, KcmError>)
        requires
            old(self).wf(),
        ensures
            final(self).wf(),
            final(self).spec_subjects() == old(self).spec_subjects(),
            final(self).spec_schema().tombstone_view() == old(self).spec_schema().tombstone_view(),
            final(self).spec_schema().spec_capacity() == old(self).spec_schema().spec_capacity(),
            old(self).spec_schema().rows().len() < old(self).spec_schema().spec_capacity() ==> r == Ok::<RowID, KcmError>(
                RowID(old(self).spec_schema().rows().len() as u64),
            ) && final(self).spec_schema().rows() == old(self).spec_schema().rows().push(*fact),
            old(self).spec_schema().rows().len() >= old(self).spec_schema().spec_capacity() ==> (r matches Err(
                KcmError::OutOfMemory,
            )) && final(self).spec_schema().rows() == old(self).spec_schema().rows(),
    {
        self.schema.append_fact(fact)?;
        let n = self.schema.len();
        Ok(RowID((n - 1) as u64))
    }

    /// Appends the facts in order; the first refused one stops the batch
    /// (the facts before it stay inserted).
    pub fn insert_batch(&mut self, facts: &[Fact]) -> (r: Result<Vec<RowID>, KcmError>)
        requires
            old(self).wf(),
        ensures
            final(self).wf(),
            final(self).spec_subjects() == old(self).spec_subjects(),
            final(self).spec_schema().tombstone_view() == old(self).spec_schema().tombstone_view(),
            ({
                let before = old(self).spec_schema().rows();
                let cap = old(self).spec_schema().spec_capacity();
                let room = cap - before.len();
                if facts@.len() <= room {
                    &&& r matches Ok(ids)
                    &&& final(self).spec_schema().rows() == before + facts@
                    &&& ids@.len() == facts@.len()
                    &&& forall|i: int| 0 <= i < ids@.len() ==> #[trigger] ids@[i] == RowID((before.len() + i) as u64)
                } else {
                    &&& r matches Err(KcmError::OutOfMemory)
                    &&& final(self).spec_schema().rows() == before + facts@.take(room)
                }
            }),
    {
        let mut row_ids: Vec<RowID> = Vec::new();
        let n = facts.len();
        let ghost before = self.schema.rows();
        let ghost cap = self.schema.spec_capacity();
        proof {
            self.schema.lemma_wf();
        }
        let mut i: usize = 0;
        while i < n
            invariant
                n == facts@.len(),
                i <= n,
                self.wf(),
                before == old(self).spec_schema().rows(),
                cap == old(self).spec_schema().spec_capacity(),
                before.len() <= cap,
                before.len() + i <= cap,
                self.schema.spec_capacity() == cap,
                self.schema.tombstone_view() == old(self).spec_schema().tombstone_view(),
                self.spec_subjects() == old(self).spec_subjects(),
                self.schema.rows() == before + facts@.take(i as int),
                row_ids@.len() == i,
                forall|k: int| 0 <= k < i ==> #[trigger] row_ids@[k] == RowID((before.len() + k) as u64),
            decreases n - i,
        {
            let r = self.schema.append_fact(&facts[i]);
            if r.is_err() {
                proof {
                    assert(facts@.take(i as int) =~= facts@.take((cap - before.len()) as int));
                }
                return Err(KcmError::OutOfMemory);
            }
            proof {
                assert(facts@.take(i + 1) =~= facts@.take(i as int).push(facts@[i as int]));
            }
            let len = self.schema.len();
            row_ids.push(RowID((len - 1) as u64));
            i = i + 1;
        }
        assert(facts@.take(n as int) =~= facts@);
        Ok(row_ids)
    }

    /// Overwrites the fact of a row.
    pub fn update(&mut self, row_id: RowID, fact: &Fact) -> (r: Result<(), KcmError>)
        requires
            old(self).wf(),
        ensures
            final(self).wf(),
            final(self).spec_subjects() == old(self).spec_subjects(),
            final(self).spec_schema().tombstone_view() == old(self).spec_schema().tombstone_view(),
            ({
                let idx = row_id.0 as usize;
                if idx < old(self).spec_schema().rows().len() {
                    r is Ok && final(self).spec_schema().rows() == old(self).spec_schema().rows().update(idx as int, *fact)
                } else {
                    (r matches Err(KcmError::InvalidArgument(_))) && final(self).spec_schema().rows() == old(
                        self,
                    ).spec_schema().rows()
                }
            }),
    {
        self.schema.update_fact(row_id.as_usize(), fact)
    }

    /// Marks a row deleted.
    pub fn delete(&mut self, row_id: RowID) -> (r: Result<(), KcmError>)
        requires
            old(self).wf(),
        ensures
            final(self).wf(),
            final(self).spec_subjects() == old(self).spec_subjects(),
            final(self).spec_schema().rows() == old(self).spec_schema().rows(),
            ({
                let idx = row_id.0 as usize;
                if idx < old(self).spec_schema().rows().len() {
                    r is Ok && final(self).spec_schema().tombstone_view() == old(self).spec_schema().tombstone_view().update(
                        idx as int,
                        true,
                    )
                } else {
                    (r matches Err(KcmError::InvalidArgument(_))) && final(self).spec_schema().tombstone_view() == old(
                        self,
                    ).spec_schema().tombstone_view()
                }
            }),
    {
        self.schema.delete_fact(row_id.as_usize())
    }

    /// A query over all facts.
    pub fn query(&self) -> (r: QueryBuilder<'_>)
        requires
            self.wf(),
        ensures
            r.spec_schema() == self.spec_schema(),
            r.spec_row_count() == self.spec_schema().rows().len(),
            r.spec_subject() is None && r.spec_predicate() is None && r.spec_object() is None && r.spec_confidence() is None,
            r.spec_order() is None && r.spec_limit() is None,
    {
        let row_count = self.schema.len();
        QueryBuilder::new(&self.schema, row_count)
    }

    /// The fact of a live row; never an error.
    pub fn get_fact(&self, row_id: RowID) -> (r: Result<Option<Fact>, KcmError>)
        requires
            self.wf(),
        ensures
            r == Ok::<Option<Fact>, KcmError>(self.spec_schema().spec_get((row_id.0 as usize) as int)),
    {
        Ok(self.schema.get_fact(row_id.as_usize()))
    }

    /// The id of a subject name, giving it the next id if it is new.
    pub fn dict_insert_subject(&mut self, name: &str) -> (r: Result<DictID, KcmError>)
        requires
            old(self).wf(),
            old(self).spec_subjects().len() < MAX_ENTRIES,
        ensures
            final(self).wf(),
            final(self).spec_schema() == old(self).spec_schema(),
            r matches Ok(id) && lookup_answer(final(self).spec_subjects(), name@) == Some(id),
            match spec_lookup(old(self).spec_subjects(), name@) {
                Some(_) => final(self).spec_subjects() == old(self).spec_subjects(),
                None => final(self).spec_subjects() == old(self).spec_subjects().push(name@),
            },
    {
        Ok(self.dictionaries.subjects.encode(name))
    }

    /// The subject name of an id.
    pub fn dict_get_subject(&self, id: DictID) -> (r: Option<String>)
        ensures
            match r {
                Some(v) => decode_answer(self.spec_subjects(), id) == Some(v@),
                None => decode_answer(self.spec_subjects(), id) is None,
            },
    {
        self.dictionaries.subjects.decode(id)
    }

    /// The id of a subject name, if it has one.
    pub fn dict_lookup_subject(&self, name: &str) -> (r: Option<DictID>)
        requires
            self.wf(),
        ensures
            r == lookup_answer(self.spec_subjects(), name@),
    {
        self.dictionaries.subjects.lookup(name)
    }

    /// The number of rows, deleted or not.
    pub fn fact_count(&self) -> (r: usize)
        requires
            self.wf(),
        ensures
            r == self.spec_schema().rows().len(),
    {
        self.schema.len()
    }

    /// The number of live rows.
    pub fn active_fact_count(&self) -> (r: usize)
        requires
            self.wf(),
        ensures
            r == self.spec_schema().spec_active().len(),
    {
        self.schema.active_count()
    }

    /// A database holding only the live facts, in order, with copies of the
    /// dictionaries.
    pub fn compact(&self) -> (r: Result<KnowledgeDatabase, KcmError>)
        requires
            self.wf(),
        ensures
            r matches Ok(db) && db.wf()
                && db.spec_schema().rows() == self.spec_schema().spec_active().map_values(|p: (usize, Fact)| p.1)
                && (forall|i: int| !db.spec_schema().spec_deleted(i))
                && db.spec_subjects() == self.spec_subjects(),
    {
        let compacted = self.schema.compact()?;
        let dictionaries = Dictionaries {
            subjects: self.dictionaries.subjects.duplicate(),
            objects: self.dictionaries.objects.duplicate(),
            predicates: self.dictionaries.predicates.duplicate(),
            evidence: self.dictionaries.evidence.duplicate(),
            context: self.dictionaries.context.duplicate(),
            owner: self.dictionaries.owner.duplicate(),
        };
        Ok(KnowledgeDatabase { schema: compacted, dictionaries })
    }
}

impl Default for KnowledgeDatabase {
    fn default() -> (r: Self)
        ensures
            r.wf(),
            r.spec_schema().rows() == Seq::<Fact>::empty(),
    {
        KnowledgeDatabase::new().unwrap()
    }
}

} // verus!
