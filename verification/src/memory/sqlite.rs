//! Memory records as rows: what a write files, what a read returns, and what
//! a forget removes.

use super::accounting::MemoryError;
use super::hybrid::{find_last, last_with};
use super::hydration::records_view;
use super::query::{
    answers, is_active, record_is_active, record_matches_query, Record, RecordView, Selector,
};
use crate::json::{entries_view, find_text, lookup, text_of, Json};
use crate::lists::{join, joined, words, words_of};
use crate::text::{
    begins, chars_of, decimal, holds, opt_view, push_decimal, same, texts, trim, trimmed,
};
use vstd::prelude::*;

verus! {

/// The columns a record is filed under, read out of its metadata.
pub struct RecordColumns {
    pub status: String,
    pub store: Option<String>,
    pub owner_kind: Option<String>,
    pub owner_id: Option<String>,
    pub visibility: Option<String>,
    pub domain: Option<String>,
    pub source_run_id: Option<String>,
    pub source_task_id: Option<String>,
    pub source_agent_id: Option<String>,
}

fn metadata_string(metadata: &Vec<(String, Json)>, key: &str) -> (out: Option<String>)
    ensures
        opt_view(out) == text_of(lookup(entries_view(metadata@), key@)),
{
    match find_text(metadata, key) {
        Some(text) => Some(text.to_owned()),
        None => None,
    }
}

/// The columns of a record with this metadata. Without a status it is active.
pub fn record_columns(metadata: &Vec<(String, Json)>) -> (out: RecordColumns)
    ensures
        ({
            let at = |key: Seq<char>| text_of(lookup(entries_view(metadata@), key));
            &&& out.status@ == match at("status"@) {
                Some(status) => status,
                None => "active"@,
            }
            &&& opt_view(out.store) == at("store"@)
            &&& opt_view(out.owner_kind) == at("owner_kind"@)
            &&& opt_view(out.owner_id) == at("owner_id"@)
            &&& opt_view(out.visibility) == at("visibility"@)
            &&& opt_view(out.domain) == at("domain"@)
            &&& opt_view(out.source_run_id) == at("source_run_id"@)
            &&& opt_view(out.source_task_id) == at("source_task_id"@)
            &&& opt_view(out.source_agent_id) == at("source_agent_id"@)
        }),
{
    let status = match metadata_string(metadata, "status") {
        Some(status) => status,
        None => "active".to_owned(),
    };
    RecordColumns {
        status,
        store: metadata_string(metadata, "store"),
        owner_kind: metadata_string(metadata, "owner_kind"),
        owner_id: metadata_string(metadata, "owner_id"),
        visibility: metadata_string(metadata, "visibility"),
        domain: metadata_string(metadata, "domain"),
        source_run_id: metadata_string(metadata, "source_run_id"),
        source_task_id: metadata_string(metadata, "source_task_id"),
        source_agent_id: metadata_string(metadata, "source_agent_id"),
    }
}

/// The records of one database, in the order they were written. A row whose
/// own id was taken by the time it had a number is there without one.
pub struct RecordTable {
    pub rows: Vec<Record>,
    /// The number the next row gets.
    pub next_row: u64,
}

/// The id a written record gets: its own, or one made of the row's number.
pub open spec fn assigned_id(id: Option<Seq<char>>, row: nat) -> Seq<char> {
    match id {
        Some(own) => own,
        None => "record-"@ + decimal(row),
    }
}

/// Whether a row has an id.
pub open spec fn holds_id(rows: Seq<RecordView>, id: Seq<char>) -> bool {
    exists|i: int| 0 <= i < rows.len() && (#[trigger] rows[i]).id == Some(id)
}

/// The first `limit` rows of a namespace among the first `n` that answer a
/// query.
pub open spec fn found(
    rows: Seq<RecordView>,
    namespace: Seq<char>,
    query: Option<Seq<char>>,
    limit: nat,
    n: int,
) -> Seq<RecordView>
    decreases n,
{
    if n <= 0 {
        Seq::empty()
    } else {
        let before = found(rows, namespace, query, limit, n - 1);
        if before.len() < limit && rows[n - 1].namespace == namespace && answers(
            rows[n - 1],
            query,
        ) {
            before.push(rows[n - 1])
        } else {
            before
        }
    }
}

/// What a read that comes upon a row without an id ends with.
pub const UNREADABLE_ID: &'static str = "Invalid column type Null at index: 0, name: id";

/// What a write whose id is taken ends with.
pub const TAKEN_ID: &'static str = "UNIQUE constraint failed: memory_records.id";

/// Whether a read of a namespace, row by row, comes upon a row without an id
/// among the first `n` before it has `limit` records.
pub open spec fn meets_idless(
    rows: Seq<RecordView>,
    namespace: Seq<char>,
    query: Option<Seq<char>>,
    limit: nat,
    n: int,
) -> bool {
    exists|i: int|
        0 <= i < n && (#[trigger] rows[i]).namespace == namespace && rows[i].id is None && found(
            rows,
            namespace,
            query,
            limit,
            i,
        ).len() < limit
}

/// The active records of a namespace among those the first `n` ids name, in
/// the order of the ids, up to `limit`.
pub open spec fn indexed(
    rows: Seq<RecordView>,
    namespace: Seq<char>,
    ids: Seq<Seq<char>>,
    limit: nat,
    n: int,
) -> Seq<RecordView>
    decreases n,
{
    if n <= 0 {
        Seq::empty()
    } else {
        let before = indexed(rows, namespace, ids, limit, n - 1);
        match last_with(rows, ids[n - 1], rows.len() as int) {
            Some(row) => if before.len() < limit && row.namespace == namespace && is_active(row) {
                before.push(row)
            } else {
                before
            },
            None => before,
        }
    }
}

/// What a full-text index answered, when there is one: ids, best first.
pub open spec fn index_view(index: Option<Vec<String>>) -> Option<Seq<Seq<char>>> {
    match index {
        Some(ids) => Some(texts(ids@)),
        None => None,
    }
}

/// What a read returns: a search with a word in it goes by the full-text index
/// where there is one, every other read row by row.
pub open spec fn answered(
    rows: Seq<RecordView>,
    namespace: Seq<char>,
    query: Option<Seq<char>>,
    limit: nat,
    index: Option<Seq<Seq<char>>>,
) -> Seq<RecordView> {
    match (query, index) {
        (Some(search), Some(ids)) => if match_query(trimmed(search)) is Some {
            indexed(rows, namespace, ids, limit, ids.len() as int)
        } else {
            found(rows, namespace, query, limit, rows.len() as int)
        },
        _ => found(rows, namespace, query, limit, rows.len() as int),
    }
}

/// Whether a read fails: it goes row by row, and comes upon a row without an
/// id. The full-text index knows no such row.
pub open spec fn read_fails(
    rows: Seq<RecordView>,
    namespace: Seq<char>,
    query: Option<Seq<char>>,
    limit: nat,
    index: Option<Seq<Seq<char>>>,
) -> bool {
    let by_index = query matches Some(search) && match_query(trimmed(search)) is Some && index
        is Some;
    !by_index && meets_idless(rows, namespace, query, limit, rows.len() as int)
}

/// Whether an error has a text.
pub open spec fn says(error: MemoryError, text: Seq<char>) -> bool {
    error matches MemoryError::Backend(why) && why@ == text
}

/// Whether forgetting in a namespace takes a row.
pub open spec fn forgets(
    row: RecordView,
    namespace: Seq<char>,
    id: Option<Seq<char>>,
    within: Option<Seq<char>>,
) -> bool {
    row.namespace == namespace && if id is Some {
        row.id == id
    } else {
        within is Some ==> within == Some(namespace)
    }
}

/// What is left of the first `n` rows after forgetting.
pub open spec fn remaining(
    rows: Seq<RecordView>,
    namespace: Seq<char>,
    id: Option<Seq<char>>,
    within: Option<Seq<char>>,
    n: int,
) -> Seq<RecordView>
    decreases n,
{
    if n <= 0 {
        Seq::empty()
    } else if forgets(rows[n - 1], namespace, id, within) {
        remaining(rows, namespace, id, within, n - 1)
    } else {
        remaining(rows, namespace, id, within, n - 1).push(rows[n - 1])
    }
}

impl RecordTable {
    /// An empty table; rows are numbered from one.
    pub fn new() -> (out: RecordTable)
        ensures
            out.rows@.len() == 0,
            out.next_row == 1,
    {
        RecordTable { rows: Vec::new(), next_row: 1 }
    }

    /// Decides [`holds_id`].
    pub fn has_id(&self, id: &str) -> (yes: bool)
        ensures
            yes == holds_id(records_view(self.rows@), id@),
    {
        let ghost all = records_view(self.rows@);
        let mut i: usize = 0;
        while i < self.rows.len()
            invariant
                i <= self.rows@.len(),
                all == records_view(self.rows@),
                forall|k: int| 0 <= k < i ==> (#[trigger] all[k]).id != Some(id@),
            decreases self.rows@.len() - i,
        {
            assert(all[i as int] == self.rows@[i as int]@);
            if let Some(own) = &self.rows[i].id {
                if same(own.as_str(), id) {
                    assert(all[i as int].id == Some(id@));
                    return true;
                }
            }
            i = i + 1;
        }
        false
    }

    /// Writes a record under a namespace, and answers with its id. An id is
    /// written once. A record without one takes the number of its row; where
    /// the id made of it is taken, the write fails and the row stays, without
    /// an id.
    pub fn write(&mut self, namespace: &str, record: Record) -> (out: Result<String, MemoryError>)
        requires
            old(self).next_row < u64::MAX,
        ensures
            ({
                let rows = records_view(old(self).rows@);
                let id = assigned_id(opt_view(record.id), old(self).next_row as nat);
                &&& out is Ok <==> !holds_id(rows, id)
                &&& out matches Ok(written) ==> {
                    &&& written@ == id
                    &&& records_view(final(self).rows@) == rows.push(
                        RecordView { id: Some(id), namespace: namespace@, ..record@ },
                    )
                    &&& final(self).next_row == old(self).next_row + 1
                }
                &&& out matches Err(error) ==> {
                    &&& says(error, TAKEN_ID@)
                    &&& if record.id is None {
                        &&& records_view(final(self).rows@) == rows.push(
                            RecordView { namespace: namespace@, ..record@ },
                        )
                        &&& final(self).next_row == old(self).next_row + 1
                    } else {
                        *final(self) == *old(self)
                    }
                }
            }),
    {
        let ghost rows = records_view(self.rows@);
        let ghost given = record@;
        let own = record.id.is_some();
        let id = match record.id {
            Some(id) => id,
            None => {
                let mut id = "record-".to_owned();
                push_decimal(&mut id, self.next_row);
                id
            },
        };
        let taken = self.has_id(id.as_str());
        if taken && own {
            return Err(MemoryError::Backend(TAKEN_ID.to_owned()));
        }
        let row = Record {
            id: if taken {
                None
            } else {
                Some(id.clone())
            },
            namespace: namespace.to_owned(),
            body: record.body,
            metadata: record.metadata,
        };
        let ghost view = row@;
        self.rows.push(row);
        assert(records_view(self.rows@) =~= rows.push(view));
        self.next_row = self.next_row + 1;
        if taken {
            assert(view =~= RecordView { namespace: namespace@, ..given });
            return Err(MemoryError::Backend(TAKEN_ID.to_owned()));
        }
        Ok(id)
    }

    /// The plain read, of a table without a full-text index: the first `limit`
    /// active records of a namespace that answer a query, in the order they
    /// were written. Fails at the first row without an id.
    pub fn standard_read(&self, namespace: &str, query: &Option<String>, limit: usize) -> (out:
        Result<Vec<Record>, MemoryError>)
        ensures
            out is Err <==> meets_idless(
                records_view(self.rows@),
                namespace@,
                opt_view(*query),
                limit as nat,
                self.rows@.len() as int,
            ),
            out matches Err(error) ==> says(error, UNREADABLE_ID@),
            out matches Ok(records) ==> records_view(records@) == found(
                records_view(self.rows@),
                namespace@,
                opt_view(*query),
                limit as nat,
                self.rows@.len() as int,
            ),
    {
        let ghost all = records_view(self.rows@);
        let mut out: Vec<Record> = Vec::new();
        let mut i: usize = 0;
        assert(records_view(out@) =~= Seq::empty());
        while i < self.rows.len()
            invariant
                i <= self.rows@.len(),
                all == records_view(self.rows@),
                records_view(out@) == found(
                    all,
                    namespace@,
                    opt_view(*query),
                    limit as nat,
                    i as int,
                ),
                !meets_idless(all, namespace@, opt_view(*query), limit as nat, i as int),
            decreases self.rows@.len() - i,
        {
            assert(all[i as int] == self.rows@[i as int]@);
            assert(records_view(out@).len() == out@.len());
            let ghost before = records_view(out@);
            if out.len() < limit && same(self.rows[i].namespace.as_str(), namespace) {
                if self.rows[i].id.is_none() {
                    assert(all[i as int].id is None);
                    return Err(MemoryError::Backend(UNREADABLE_ID.to_owned()));
                }
                if record_matches_query(&self.rows[i], query) {
                    let row = self.rows[i].copy();
                    out.push(row);
                    assert(records_view(out@) =~= before.push(all[i as int]));
                }
            }
            i = i + 1;
        }
        Ok(out)
    }

    /// The read through a full-text index: the active records of a namespace
    /// the index named, in its order, up to `limit`.
    pub fn indexed_read(&self, namespace: &str, ids: &Vec<String>, limit: usize) -> (out: Vec<Record>)
        ensures
            records_view(out@) == indexed(
                records_view(self.rows@),
                namespace@,
                texts(ids@),
                limit as nat,
                ids@.len() as int,
            ),
    {
        let ghost all = records_view(self.rows@);
        let ghost names = texts(ids@);
        let mut out: Vec<Record> = Vec::new();
        let mut i: usize = 0;
        assert(records_view(out@) =~= Seq::empty());
        while i < ids.len()
            invariant
                i <= ids@.len(),
                all == records_view(self.rows@),
                names == texts(ids@),
                records_view(out@) == indexed(all, namespace@, names, limit as nat, i as int),
            decreases ids@.len() - i,
        {
            assert(names[i as int] == ids@[i as int]@);
            assert(records_view(out@).len() == out@.len());
            let ghost before = records_view(out@);
            if let Some(at) = find_last(&self.rows, ids[i].as_str()) {
                if out.len() < limit && same(self.rows[at].namespace.as_str(), namespace)
                    && record_is_active(&self.rows[at]) {
                    let row = self.rows[at].copy();
                    let ghost view = row@;
                    out.push(row);
                    assert(records_view(out@) =~= before.push(view));
                }
            }
            i = i + 1;
        }
        out
    }

    /// Reads a namespace. A search with a word in it goes by what the full-text
    /// index answered, best first, where there is one; every other read is the
    /// plain one, and fails where that does.
    pub fn read(
        &self,
        namespace: &str,
        query: &Option<String>,
        limit: usize,
        index: &Option<Vec<String>>,
    ) -> (out: Result<Vec<Record>, MemoryError>)
        ensures
            out is Err <==> read_fails(
                records_view(self.rows@),
                namespace@,
                opt_view(*query),
                limit as nat,
                index_view(*index),
            ),
            out matches Err(error) ==> says(error, UNREADABLE_ID@),
            out matches Ok(records) ==> records_view(records@) == answered(
                records_view(self.rows@),
                namespace@,
                opt_view(*query),
                limit as nat,
                index_view(*index),
            ),
    {
        proof {
            lemma_found_within(
                records_view(self.rows@),
                namespace@,
                opt_view(*query),
                limit as nat,
                self.rows@.len() as int,
            );
            if index is Some {
                lemma_indexed_within(
                    records_view(self.rows@),
                    namespace@,
                    index_view(*index)->0,
                    limit as nat,
                    index_view(*index)->0.len() as int,
                );
            }
        }
        match plan_read(query, limit) {
            ReadPlan::Nothing => {
                let none: Vec<Record> = Vec::new();
                assert(records_view(none@) =~= answered(
                    records_view(self.rows@),
                    namespace@,
                    opt_view(*query),
                    limit as nat,
                    index_view(*index),
                ));
                Ok(none)
            },
            ReadPlan::FullText(_) => match index {
                Some(ids) => Ok(self.indexed_read(namespace, ids, limit)),
                None => self.standard_read(namespace, query, limit),
            },
            ReadPlan::Scan => self.standard_read(namespace, query, limit),
        }
    }

    /// Forgets the records of a namespace a selector takes, and answers with
    /// how many there were.
    pub fn forget(&mut self, namespace: &str, selector: &Selector) -> (removed: usize)
        ensures
            records_view(final(self).rows@) == remaining(
                records_view(old(self).rows@),
                namespace@,
                opt_view(selector.id),
                opt_view(selector.namespace),
                old(self).rows@.len() as int,
            ),
            removed == old(self).rows@.len() - final(self).rows@.len(),
            final(self).next_row == old(self).next_row,
    {
        let ghost all = records_view(self.rows@);
        let mut kept: Vec<Record> = Vec::new();
        let mut i: usize = 0;
        assert(records_view(kept@) =~= Seq::empty());
        while i < self.rows.len()
            invariant
                i <= self.rows@.len(),
                self.rows@ == old(self).rows@,
                self.next_row == old(self).next_row,
                all == records_view(self.rows@),
                kept@.len() <= i,
                records_view(kept@) == remaining(
                    all,
                    namespace@,
                    opt_view(selector.id),
                    opt_view(selector.namespace),
                    i as int,
                ),
            decreases self.rows@.len() - i,
        {
            assert(all[i as int] == self.rows@[i as int]@);
            let ghost before = records_view(kept@);
            if !row_forgotten(&self.rows[i], namespace, selector) {
                let row = self.rows[i].copy();
                kept.push(row);
                assert(records_view(kept@) =~= before.push(all[i as int]));
            }
            i = i + 1;
        }
        let removed: usize = self.rows.len() - kept.len();
        self.rows = kept;
        removed
    }
}

fn row_forgotten(row: &Record, namespace: &str, selector: &Selector) -> (yes: bool)
    ensures
        yes == forgets(row@, namespace@, opt_view(selector.id), opt_view(selector.namespace)),
{
    if !same(row.namespace.as_str(), namespace) {
        return false;
    }
    if let Some(id) = &selector.id {
        return match &row.id {
            Some(own) => same(own.as_str(), id.as_str()),
            None => false,
        };
    }
    match &selector.namespace {
        Some(within) => same(within.as_str(), namespace),
        None => true,
    }
}

/// A record that was written is read back: an unlimited read of its namespace
/// returns it last, as long as it is active and no row there is without an id.
pub proof fn a_written_record_is_read_back(
    rows: Seq<RecordView>,
    namespace: Seq<char>,
    written: RecordView,
    limit: nat,
)
    requires
        written.namespace == namespace,
        written.id is Some,
        forall|i: int|
            0 <= i < rows.len() && (#[trigger] rows[i]).namespace == namespace ==> rows[i].id
                is Some,
        answers(written, None),
        limit > rows.len(),
    ensures
        !meets_idless(rows.push(written), namespace, None, limit, (rows.len() + 1) as int),
        ({
            let read = found(rows.push(written), namespace, None, limit, (rows.len() + 1) as int);
            read.len() > 0 && read.last() == written
        }),
{
    let after = rows.push(written);
    lemma_found_within(after, namespace, None, limit, rows.len() as int);
    assert(after[rows.len() as int] == written);
}

proof fn lemma_found_within(
    rows: Seq<RecordView>,
    namespace: Seq<char>,
    query: Option<Seq<char>>,
    limit: nat,
    n: int,
)
    requires
        0 <= n,
    ensures
        found(rows, namespace, query, limit, n).len() <= n,
        found(rows, namespace, query, limit, n).len() <= limit,
        forall|k: int|
            0 <= k < found(rows, namespace, query, limit, n).len() ==> (#[trigger] found(
                rows,
                namespace,
                query,
                limit,
                n,
            )[k]).namespace == namespace && answers(
                found(rows, namespace, query, limit, n)[k],
                query,
            ),
    decreases n,
{
    if n > 0 {
        lemma_found_within(rows, namespace, query, limit, n - 1);
    }
}

proof fn lemma_indexed_within(
    rows: Seq<RecordView>,
    namespace: Seq<char>,
    ids: Seq<Seq<char>>,
    limit: nat,
    n: int,
)
    requires
        0 <= n,
    ensures
        indexed(rows, namespace, ids, limit, n).len() <= limit,
        forall|k: int|
            0 <= k < indexed(rows, namespace, ids, limit, n).len() ==> (#[trigger] indexed(
                rows,
                namespace,
                ids,
                limit,
                n,
            )[k]).namespace == namespace && is_active(indexed(rows, namespace, ids, limit, n)[k]),
    decreases n,
{
    if n > 0 {
        lemma_indexed_within(rows, namespace, ids, limit, n - 1);
    }
}

/// A read never hands out a record without an id: where there is one in its
/// way, it fails.
pub proof fn what_is_read_has_an_id(
    rows: Seq<RecordView>,
    namespace: Seq<char>,
    query: Option<Seq<char>>,
    limit: nat,
    n: int,
    k: int,
)
    requires
        0 <= n <= rows.len(),
        !meets_idless(rows, namespace, query, limit, n),
        0 <= k < found(rows, namespace, query, limit, n).len(),
    ensures
        found(rows, namespace, query, limit, n)[k].id is Some,
    decreases n,
{
    let before = found(rows, namespace, query, limit, n - 1);
    assert(!meets_idless(rows, namespace, query, limit, n - 1));
    if k < before.len() {
        what_is_read_has_an_id(rows, namespace, query, limit, n - 1, k);
    } else {
        assert(rows[n - 1].namespace == namespace);
    }
}

/// Whatever an index answers, a read stays inside its namespace and its limit,
/// and returns only active records.
pub proof fn an_index_reaches_no_further(
    rows: Seq<RecordView>,
    namespace: Seq<char>,
    query: Option<Seq<char>>,
    limit: nat,
    index: Option<Seq<Seq<char>>>,
)
    ensures
        answered(rows, namespace, query, limit, index).len() <= limit,
        forall|k: int|
            0 <= k < answered(rows, namespace, query, limit, index).len() ==> (#[trigger] answered(
                rows,
                namespace,
                query,
                limit,
                index,
            )[k]).namespace == namespace && is_active(
                answered(rows, namespace, query, limit, index)[k],
            ),
{
    lemma_found_within(rows, namespace, query, limit, rows.len() as int);
    if let Some(ids) = index {
        lemma_indexed_within(rows, namespace, ids, limit, ids.len() as int);
    }
}

/// A read stays inside its namespace and its limit, and returns only active
/// records that answer the query.
pub proof fn reads_stay_in_their_namespace(
    rows: Seq<RecordView>,
    namespace: Seq<char>,
    query: Option<Seq<char>>,
    limit: nat,
)
    ensures
        found(rows, namespace, query, limit, rows.len() as int).len() <= limit,
        forall|k: int|
            0 <= k < found(rows, namespace, query, limit, rows.len() as int).len() ==> (
            #[trigger] found(
                rows,
                namespace,
                query,
                limit,
                rows.len() as int,
            )[k]).namespace == namespace && answers(
                found(rows, namespace, query, limit, rows.len() as int)[k],
                query,
            ),
{
    lemma_found_within(rows, namespace, query, limit, rows.len() as int);
}

/// What was forgotten is gone, and nothing else is: a row stays exactly when
/// the selector did not take it.
pub proof fn forgetting_is_exact(
    rows: Seq<RecordView>,
    namespace: Seq<char>,
    id: Option<Seq<char>>,
    within: Option<Seq<char>>,
    n: int,
    row: RecordView,
)
    requires
        0 <= n <= rows.len(),
    ensures
        remaining(rows, namespace, id, within, n).contains(row) <==> rows.take(n).contains(row)
            && !forgets(row, namespace, id, within),
    decreases n,
{
    let after = remaining(rows, namespace, id, within, n);
    if n > 0 {
        forgetting_is_exact(rows, namespace, id, within, n - 1, row);
        let before = remaining(rows, namespace, id, within, n - 1);
        let last = rows[n - 1];
        assert(rows.take(n) =~= rows.take(n - 1).push(last));
        if after.contains(row) {
            let k = choose|k: int| 0 <= k < after.len() && after[k] == row;
            if k < before.len() {
                assert(before[k] == row);
                assert(rows.take(n - 1).contains(row));
                let j = choose|j: int| 0 <= j < n - 1 && #[trigger] rows.take(n - 1)[j] == row;
                assert(rows.take(n)[j] == row);
            } else {
                assert(rows.take(n)[n - 1] == row);
            }
        }
        if rows.take(n).contains(row) && !forgets(row, namespace, id, within) {
            let j = choose|j: int| 0 <= j < n && #[trigger] rows.take(n)[j] == row;
            if j < n - 1 {
                assert(rows.take(n - 1)[j] == row);
                assert(before.contains(row));
                let k = choose|k: int| 0 <= k < before.len() && before[k] == row;
                assert(after[k] == row);
            } else {
                assert(after.last() == row);
            }
        }
    }
}

/// A term quoted for the full-text index: inner quotes are doubled.
pub open spec fn quoted(term: Seq<char>) -> Seq<char> {
    seq!['"'] + doubled(term) + seq!['"']
}

/// A text with its quotes doubled.
pub open spec fn doubled(term: Seq<char>) -> Seq<char>
    decreases term.len(),
{
    if term.len() == 0 {
        Seq::empty()
    } else if term.last() == '"' {
        doubled(term.drop_last()).push('"').push('"')
    } else {
        doubled(term.drop_last()).push(term.last())
    }
}

fn quote(term: &str) -> (out: String)
    ensures
        out@ == quoted(term@),
{
    let chars = chars_of(term);
    let mut out = String::new();
    out.push('"');
    let mut i: usize = 0;
    assert(out@ =~= seq!['"'] + doubled(chars@.take(0)));
    while i < chars.len()
        invariant
            i <= chars@.len(),
            out@ == seq!['"'] + doubled(chars@.take(i as int)),
        decreases chars@.len() - i,
    {
        let ghost before = out@;
        if chars[i] == '"' {
            out.push('"');
        }
        out.push(chars[i]);
        assert(chars@.take(i + 1).drop_last() =~= chars@.take(i as int));
        assert(out@ =~= seq!['"'] + doubled(chars@.take(i + 1)));
        i = i + 1;
    }
    assert(chars@.take(chars@.len() as int) =~= chars@);
    out.push('"');
    assert(out@ =~= quoted(term@));
    out
}

/// The full-text query for a search: every word, quoted, all required. `None`
/// when the search holds no word.
pub open spec fn match_query(input: Seq<char>) -> Option<Seq<char>> {
    if words(input).len() == 0 {
        None
    } else {
        Some(joined(words(input).map_values(|w: Seq<char>| quoted(w)), " AND "@))
    }
}

/// Computes [`match_query`].
pub fn fts_match_query(input: &str) -> (out: Option<String>)
    ensures
        opt_view(out) == match_query(input@),
{
    let terms = words_of(input);
    let mut quotes: Vec<String> = Vec::new();
    let mut i: usize = 0;
    while i < terms.len()
        invariant
            i <= terms@.len(),
            quotes@.len() == i,
            forall|k: int| 0 <= k < i ==> (#[trigger] quotes@[k])@ == quoted(terms@[k]@),
        decreases terms@.len() - i,
    {
        quotes.push(quote(terms[i].as_str()));
        i = i + 1;
    }
    assert(texts(terms@).len() == terms@.len());
    if quotes.len() == 0 {
        return None;
    }
    assert(texts(quotes@) =~= words(input@).map_values(|w: Seq<char>| quoted(w)));
    Some(join(&quotes, " AND "))
}

/// How a read is answered.
pub enum ReadPlan {
    /// Not at all: nothing was asked for.
    Nothing,
    /// By the full-text index, when there is one, with this query.
    FullText(String),
    /// Row by row.
    Scan,
}

/// Chooses how a read is answered: the full-text index serves a search that
/// holds a word.
pub fn plan_read(query: &Option<String>, limit: usize) -> (plan: ReadPlan)
    ensures
        plan is Nothing <==> limit == 0,
        plan matches ReadPlan::FullText(text) ==> (query matches Some(search) && match_query(
            trimmed(search@),
        ) == Some(text@)),
        plan is Scan ==> (query matches Some(search) ==> match_query(trimmed(search@)) is None),
{
    if limit == 0 {
        return ReadPlan::Nothing;
    }
    match query {
        Some(search) => match fts_match_query(trim(search.as_str()).as_str()) {
            Some(text) => ReadPlan::FullText(text),
            None => ReadPlan::Scan,
        },
        None => ReadPlan::Scan,
    }
}

proof fn lemma_found_is_filtered(
    rows: Seq<RecordView>,
    namespace: Seq<char>,
    query: Option<Seq<char>>,
    limit: nat,
    n: int,
)
    requires
        0 <= n <= rows.len(),
    ensures
        ({
            let all = rows.take(n).filter(
                |row: RecordView| row.namespace == namespace && answers(row, query),
            );
            found(rows, namespace, query, limit, n) == all.take(
                if limit < all.len() {
                    limit as int
                } else {
                    all.len() as int
                },
            )
        }),
    decreases n,
{
    reveal(Seq::filter);
    let wants = |row: RecordView| row.namespace == namespace && answers(row, query);
    let all = rows.take(n).filter(wants);
    let got = found(rows, namespace, query, limit, n);
    let many = if limit < all.len() {
        limit as int
    } else {
        all.len() as int
    };
    if n > 0 {
        lemma_found_is_filtered(rows, namespace, query, limit, n - 1);
        assert(rows.take(n).drop_last() =~= rows.take(n - 1));
        assert(rows.take(n).last() == rows[n - 1]);
        assert(got =~= all.take(many));
    } else {
        assert(rows.take(0) =~= Seq::empty());
        assert(got =~= all.take(many));
    }
}

/// A read row by row returns the first rows of its namespace that answer the
/// query, all of them up to the limit, in the order they were written.
pub proof fn every_answer_is_read(
    rows: Seq<RecordView>,
    namespace: Seq<char>,
    query: Option<Seq<char>>,
    limit: nat,
)
    ensures
        ({
            let all = rows.filter(
                |row: RecordView| row.namespace == namespace && answers(row, query),
            );
            let read = found(rows, namespace, query, limit, rows.len() as int);
            &&& all.len() <= limit ==> read == all
            &&& all.len() > limit ==> read == all.take(limit as int)
        }),
{
    lemma_found_is_filtered(rows, namespace, query, limit, rows.len() as int);
    assert(rows.take(rows.len() as int) =~= rows);
    let all = rows.filter(|row: RecordView| row.namespace == namespace && answers(row, query));
    assert(all.take(all.len() as int) =~= all);
}

/// What is left after forgetting is the rows that were not taken, in their
/// order: with an id the row of that id in the namespace goes, without one all
/// of the namespace, unless the selector names another.
pub proof fn forgetting_leaves_the_rest(
    rows: Seq<RecordView>,
    namespace: Seq<char>,
    id: Option<Seq<char>>,
    within: Option<Seq<char>>,
    n: int,
)
    requires
        0 <= n <= rows.len(),
    ensures
        remaining(rows, namespace, id, within, n) == rows.take(n).filter(
            |row: RecordView|
                !(row.namespace == namespace && match id {
                    Some(own) => row.id == Some(own),
                    None => within is None || within == Some(namespace),
                }),
        ),
    decreases n,
{
    reveal(Seq::filter);
    let stays = |row: RecordView|
        !(row.namespace == namespace && match id {
            Some(own) => row.id == Some(own),
            None => within is None || within == Some(namespace),
        });
    if n > 0 {
        forgetting_leaves_the_rest(rows, namespace, id, within, n - 1);
        assert(rows.take(n).drop_last() =~= rows.take(n - 1));
        assert(rows.take(n).last() == rows[n - 1]);
    } else {
        assert(rows.take(0) =~= Seq::empty());
    }
    assert(remaining(rows, namespace, id, within, n) =~= rows.take(n).filter(stays));
}

/// An id in the answer of the index brings its record, in the place the index
/// gave it: a record of the namespace that is active is returned as long as
/// there is room.
pub proof fn what_the_index_names_is_read(
    rows: Seq<RecordView>,
    namespace: Seq<char>,
    ids: Seq<Seq<char>>,
    limit: nat,
    n: int,
    i: int,
    k: int,
)
    requires
        0 <= i < n <= ids.len(),
        0 <= k < rows.len(),
        rows[k].id == Some(ids[i]),
        forall|j: int| 0 <= j < rows.len() && j != k ==> (#[trigger] rows[j]).id != Some(ids[i]),
        rows[k].namespace == namespace,
        is_active(rows[k]),
        indexed(rows, namespace, ids, limit, i).len() < limit,
    ensures
        ({
            let had = indexed(rows, namespace, ids, limit, i).len();
            let read = indexed(rows, namespace, ids, limit, n);
            had < read.len() && read[had as int] == rows[k]
        }),
    decreases n,
{
    if i < n - 1 {
        what_the_index_names_is_read(rows, namespace, ids, limit, n - 1, i, k);
    } else {
        crate::memory::hybrid::the_last_record_of_an_id_counts(
            rows,
            ids[i],
            rows.len() as int,
            k,
        );
    }
}

/// A search with a word in it goes by the index where there is one; every other
/// read goes by the rows.
pub proof fn an_index_serves_searches(
    rows: Seq<RecordView>,
    namespace: Seq<char>,
    query: Option<Seq<char>>,
    limit: nat,
    ids: Seq<Seq<char>>,
)
    ensures
        answered(rows, namespace, query, limit, None) == found(
            rows,
            namespace,
            query,
            limit,
            rows.len() as int,
        ),
        query is None || words(trimmed(query->0)).len() == 0 ==> answered(
            rows,
            namespace,
            query,
            limit,
            Some(ids),
        ) == found(rows, namespace, query, limit, rows.len() as int),
        query matches Some(search) && words(trimmed(search)).len() > 0 ==> answered(
            rows,
            namespace,
            query,
            limit,
            Some(ids),
        ) == indexed(rows, namespace, ids, limit, ids.len() as int),
{
}

/// A record keeps the id it brings, and the ids made for others are different
/// for different rows.
pub proof fn made_ids_are_distinct(own: Seq<char>, row: nat, other: nat)
    ensures
        assigned_id(Some(own), row) == own,
        begins(assigned_id(None, row), "record-"@),
        assigned_id(None, row) == assigned_id(None, other) ==> row == other,
{
    let (a, b) = (decimal(row), decimal(other));
    crate::text::a_number_is_read_back(row);
    crate::text::a_number_is_read_back(other);
    crate::text::ends_of_a_text("record-"@, "record-"@, a);
    if "record-"@ + a == "record-"@ + b {
        assert(a =~= ("record-"@ + a).skip("record-"@.len() as int));
        assert(b =~= ("record-"@ + b).skip("record-"@.len() as int));
    }
}

proof fn lemma_doubled(term: Seq<char>)
    ensures
        (forall|k: int| 0 <= k < term.len() ==> #[trigger] term[k] != '"') ==> doubled(term)
            == term,
        doubled(term).len() >= term.len(),
    decreases term.len(),
{
    if term.len() > 0 {
        let shorter = term.drop_last();
        lemma_doubled(shorter);
        if forall|k: int| 0 <= k < term.len() ==> #[trigger] term[k] != '"' {
            assert forall|k: int| 0 <= k < shorter.len() implies #[trigger] shorter[k] != '"' by {
                assert(term[k] != '"');
            }
            assert(term[term.len() - 1] != '"');
            assert(doubled(term) =~= term);
        }
    } else {
        assert(doubled(term) =~= term);
    }
}

/// A term stands between quotes, and a quote inside it twice.
pub proof fn a_term_is_quoted(term: Seq<char>, left: Seq<char>, right: Seq<char>)
    ensures
        (forall|k: int| 0 <= k < term.len() ==> #[trigger] term[k] != '"') ==> quoted(term)
            == seq!['"'] + term + seq!['"'],
        quoted(term).len() >= term.len() + 2,
        quoted(term)[0] == '"',
        quoted(term).last() == '"',
        doubled(left + seq!['"'] + right) == doubled(left) + seq!['"', '"'] + doubled(right),
{
    lemma_doubled(term);
    lemma_doubled_concat(left + seq!['"'], right);
    lemma_doubled_concat(left, seq!['"']);
    assert(doubled(seq!['"'].drop_last()) =~= Seq::empty()) by {
        assert(seq!['"'].drop_last() =~= Seq::<char>::empty());
    }
    assert(doubled(seq!['"']) =~= seq!['"', '"']);
    assert(doubled(left + seq!['"'] + right) =~= doubled(left) + seq!['"', '"'] + doubled(right));
}

proof fn lemma_doubled_concat(a: Seq<char>, b: Seq<char>)
    ensures
        doubled(a + b) == doubled(a) + doubled(b),
    decreases b.len(),
{
    if b.len() == 0 {
        assert(a + b =~= a);
        assert(doubled(a) + doubled(b) =~= doubled(a));
    } else {
        lemma_doubled_concat(a, b.drop_last());
        assert((a + b).drop_last() =~= a + b.drop_last());
        assert(doubled(a + b) =~= doubled(a) + doubled(b));
    }
}

proof fn lemma_joined_holds(list: Seq<Seq<char>>, sep: Seq<char>, k: int)
    requires
        0 <= k < list.len(),
    ensures
        holds(joined(list, sep), list[k]),
{
    let (head, tail) = (list.take(k), list.skip(k + 1));
    let own = seq![list[k]];
    let whole = joined(list, sep);
    assert(list =~= head + own + tail);
    if head.len() > 0 {
        crate::lists::joining_two_lists(head, own, sep);
    } else {
        assert(head + own =~= own);
    }
    if tail.len() > 0 {
        crate::lists::joining_two_lists(head + own, tail, sep);
    } else {
        assert(head + own + tail =~= head + own);
    }
    let left = if head.len() > 0 {
        joined(head, sep) + sep
    } else {
        Seq::empty()
    };
    let right = if tail.len() > 0 {
        sep + joined(tail, sep)
    } else {
        Seq::empty()
    };
    assert(joined(own, sep) == list[k]);
    assert(whole =~= left + list[k] + right);
    crate::text::holding_is_standing_between(whole, list[k]);
}

/// The full-text query asks for every word of a search, quoted; there is one
/// exactly when there is a word.
pub proof fn every_word_is_asked_for(input: Seq<char>, k: int)
    ensures
        match_query(input) is None <==> words(input).len() == 0,
        0 <= k < words(input).len() ==> holds(match_query(input)->0, quoted(words(input)[k])),
        words(input).len() == 1 ==> match_query(input) == Some(quoted(words(input)[0])),
{
    let list = words(input).map_values(|w: Seq<char>| quoted(w));
    if 0 <= k < words(input).len() {
        lemma_joined_holds(list, " AND "@, k);
    }
}

} // verus!
