//! Import of a set from caret-separated text: two fields per record, term
//! then definition, no header row.
use vstd::prelude::*;
use crate::store::{
    CardModel, Store, StoreError, StoreModel, deleted, has_set, has_set_named, has_session,
    kept, lemma_kept, set_other_than, wf_model,
};

verus! {

/// Why an import was refused. A refused import changes nothing.
#[derive(Debug, Clone, Copy, PartialEq, Eq, Structural)]
pub enum ImportError {
    /// A set of that name exists and overwriting was not asked for.
    AlreadyExists,
    /// A record does not hold exactly two fields, or the text cannot be read
    /// as records.
    MalformedRecord,
    /// The store cannot take the set.
    Store(StoreError),
}

/// The records of `text`, read as caret-separated fields without a header
/// row; `None` when the reader stops on an error.
pub uninterp spec fn caret_records(text: Seq<char>) -> Option<Seq<Seq<Seq<char>>>>;

pub open spec fn rows_view(rows: Seq<Vec<String>>) -> Seq<Seq<Seq<char>>> {
    rows.map_values(|r: Vec<String>| r@.map_values(|f: String| f@))
}

/// Every record holds a term and a definition.
pub open spec fn well_formed_rows(rows: Seq<Seq<Seq<char>>>) -> bool {
    forall|i: int| 0 <= i < rows.len() ==> (#[trigger] rows[i]).len() == 2
}

/// The id of the set named `name`.
pub open spec fn named_id(m: StoreModel, name: Seq<char>) -> i64 {
    m.sets[choose|i: int| 0 <= i < m.sets.len() && m.sets[i].1 == name].0
}

/// `m` without the set named `name`, if there is one.
pub open spec fn without_name(m: StoreModel, name: Seq<char>) -> StoreModel {
    if has_set_named(m, name) {
        deleted(m, named_id(m, name))
    } else {
        m
    }
}

/// The terms of a newly imported set `set_id`, ids following the set's own.
pub open spec fn new_cards(set_id: i64, rows: Seq<Seq<Seq<char>>>) -> Seq<CardModel> {
    Seq::new(
        rows.len(),
        |i: int|
            CardModel {
                id: (set_id + 1 + i) as i64,
                set_id,
                term: rows[i][0],
                definition: rows[i][1],
                progress: None,
            },
    )
}

/// The store after importing `rows` as the set `name`: any set of that name
/// is gone with its terms and entries, and the new set and its terms follow.
pub open spec fn imported(m: StoreModel, name: Seq<char>, rows: Seq<Seq<Seq<char>>>) -> StoreModel {
    let base = without_name(m, name);
    let id = m.next_id as i64;
    StoreModel {
        sets: base.sets.push((id, name)),
        cards: base.cards + new_cards(id, rows),
        setting: m.setting,
        next_id: m.next_id + 1 + rows.len(),
    }
}

/// Whether the ids that an import of `n` records needs are left.
pub open spec fn ids_left(m: StoreModel, n: int) -> bool {
    m.next_id + 1 + n <= i64::MAX
}

/// After deleting the set named `name`, no set has that name.
pub proof fn lemma_name_gone(m: StoreModel, name: Seq<char>)
    requires
        wf_model(m),
        has_set_named(m, name),
    ensures
        !has_set_named(deleted(m, named_id(m, name)), name),
        wf_model(deleted(m, named_id(m, name))),
{
    let k = choose|i: int| 0 <= i < m.sets.len() && m.sets[i].1 == name;
    let id = named_id(m, name);
    let n = deleted(m, id);
    lemma_kept(m.sets, set_other_than(id));
    crate::store::lemma_deleted_wf(m, id);
    if has_set_named(n, name) {
        let j = choose|j: int| 0 <= j < n.sets.len() && n.sets[j].1 == name;
        assert(set_other_than(id)(n.sets[j]));
        let a = choose|a: int| 0 <= a < m.sets.len() && m.sets[a] == n.sets[j];
        assert(a != k);
    }
}

/// Relies on csv's `ReaderBuilder` with `^` as delimiter and no header row:
/// `records()` yields each record's fields in order, and the collection
/// stops at the first error, which becomes `None`.
#[verifier::external_body]
fn read_caret_records(text: &str) -> (r: Option<Vec<Vec<String>>>)
    ensures
        match r {
            Some(rows) => caret_records(text@) == Some(rows_view(rows@)),
            None => caret_records(text@) is None,
        },
{
    let mut reader = csv::ReaderBuilder::new().delimiter(b'^').has_headers(false).from_reader(
        text.as_bytes(),
    );
    reader.records().map(|rec| rec.map(|fields| fields.iter().map(String::from).collect())).collect::<
        Result<Vec<Vec<String>>, csv::Error>,
    >().ok()
}

/// Imports `rows` as the set `name`. When a set of that name exists it is
/// refused with `AlreadyExists` unless `overwrite` is set, in which case the
/// old set, its terms and its session entries are deleted first. A record
/// without exactly two fields refuses the whole import. A refused import
/// changes nothing; a successful one returns the new set's id.
pub fn import_set(store: &mut Store, name: &str, rows: &Vec<Vec<String>>, overwrite: bool) -> (r:
    Result<i64, ImportError>)
    requires
        old(store).wf(),
    ensures
        final(store).wf(),
        r == Err::<i64, ImportError>(ImportError::AlreadyExists) <==> has_set_named(old(store)@, name@)
            && !overwrite,
        r == Err::<i64, ImportError>(ImportError::MalformedRecord) <==> !(has_set_named(
            old(store)@,
            name@,
        ) && !overwrite) && !well_formed_rows(rows_view(rows@)),
        r == Err::<i64, ImportError>(ImportError::Store(StoreError::ConstraintViolation)) <==> !(
        has_set_named(old(store)@, name@) && !overwrite) && well_formed_rows(rows_view(rows@))
            && !ids_left(old(store)@, rows@.len() as int),
        r is Ok <==> !(has_set_named(old(store)@, name@) && !overwrite) && well_formed_rows(
            rows_view(rows@),
        ) && ids_left(old(store)@, rows@.len() as int),
        r is Err ==> final(store)@ == old(store)@,
        r matches Ok(id) ==> id == old(store)@.next_id && final(store)@ == imported(
            old(store)@,
            name@,
            rows_view(rows@),
        ),
{
    let exists = store.find_set(name);
    if exists.is_some() && !overwrite {
        return Err(ImportError::AlreadyExists);
    }
    if !rows_well_formed(rows) {
        return Err(ImportError::MalformedRecord);
    }
    let next = store.next_id();
    if rows.len() as u64 >= (i64::MAX - next) as u64 {
        return Err(ImportError::Store(StoreError::ConstraintViolation));
    }
    let ghost m0 = store@;
    let ghost rv = rows_view(rows@);
    proof {
        store.lemma_wf();
    }
    match exists {
        Some(old_id) => {
            proof {
                let k = choose|i: int| 0 <= i < m0.sets.len() && m0.sets[i] == (old_id, name@);
                lemma_name_gone(m0, name@);
                assert(m0.sets[k].1 == name@);
                assert(named_id(m0, name@) == old_id);
                assert(has_set(m0, old_id));
            }
            let _ = store.delete_set(old_id);
        },
        None => {},
    }
    let ghost base = store@;
    proof {
        store.lemma_wf();
    }
    assert(base == without_name(m0, name@));
    let id = match store.create_set(name) {
        Ok(id) => id,
        Err(e) => {
            return Err(ImportError::Store(e));
        },
    };
    let mut i: usize = 0;
    while i < rows.len()
        invariant
            i <= rows@.len(),
            store.wf(),
            wf_model(base),
            rv == rows_view(rows@),
            well_formed_rows(rv),
            id == m0.next_id,
            base.next_id == m0.next_id,
            m0.next_id + 1 + rows@.len() <= i64::MAX,
            store@ == (StoreModel {
                sets: base.sets.push((id, name@)),
                cards: base.cards + new_cards(id, rv.take(i as int)),
                setting: m0.setting,
                next_id: m0.next_id + 1 + i,
            }),
        decreases rows@.len() - i,
    {
        let ghost before = store@;
        assert(rv[i as int].len() == 2);
        proof {
            assert(before.sets[before.sets.len() - 1].0 == id);
            assert(has_set(before, id));
            if has_session(before, id) {
                let k = choose|k: int|
                    0 <= k < before.cards.len() && before.cards[k].set_id == id
                        && before.cards[k].progress is Some;
                if k < base.cards.len() {
                    assert(before.cards[k] == base.cards[k]);
                    assert(has_set(base, base.cards[k].set_id));
                    let j = choose|j: int| 0 <= j < base.sets.len() && base.sets[j].0 == base.cards[k].set_id;
                    assert(base.sets[j].0 < base.next_id);
                } else {
                    assert(before.cards[k] == new_cards(id, rv.take(i as int))[k - base.cards.len()]);
                }
            }
        }
        assert(!has_session(before, id));
        assert(before.next_id < i64::MAX);
        let added = store.add_term(id, rows[i][0].as_str(), rows[i][1].as_str());
        proof {
            if added is Err {
                let e = added->Err_0;
                assert(e is NotFound || e is ConstraintViolation);
                assert(added == Err::<i64, StoreError>(e));
            }
        }
        assert(new_cards(id, rv.take(i + 1)) =~= new_cards(id, rv.take(i as int)).push(
            CardModel {
                id: (id + 1 + i) as i64,
                set_id: id,
                term: rv[i as int][0],
                definition: rv[i as int][1],
                progress: None,
            },
        ));
        assert(store@.cards =~= base.cards + new_cards(id, rv.take(i + 1)));
        i = i + 1;
    }
    assert(rv.take(rows@.len() as int) == rv);
    Ok(id)
}

/// Reads the caret-separated `text` as records of a term and a definition;
/// text that cannot be read, or a record without exactly two fields, is
/// refused with `MalformedRecord`.
pub fn parse_source(text: &str) -> (r: Result<Vec<Vec<String>>, ImportError>)
    ensures
        match caret_records(text@) {
            None => r == Err::<Vec<Vec<String>>, ImportError>(ImportError::MalformedRecord),
            Some(rows) => if well_formed_rows(rows) {
                r matches Ok(v) && rows_view(v@) == rows
            } else {
                r == Err::<Vec<Vec<String>>, ImportError>(ImportError::MalformedRecord)
            },
        },
{
    match read_caret_records(text) {
        None => Err(ImportError::MalformedRecord),
        Some(rows) => if rows_well_formed(&rows) {
            Ok(rows)
        } else {
            Err(ImportError::MalformedRecord)
        },
    }
}

/// Imports the caret-separated `text` as the set `name`, as `import_set`
/// does; text that cannot be read as records is refused with
/// `MalformedRecord`.
pub fn import_text(store: &mut Store, name: &str, text: &str, overwrite: bool) -> (r: Result<
    i64,
    ImportError,
>)
    requires
        old(store).wf(),
    ensures
        final(store).wf(),
        r == Err::<i64, ImportError>(ImportError::AlreadyExists) <==> has_set_named(old(store)@, name@)
            && !overwrite,
        !(has_set_named(old(store)@, name@) && !overwrite) ==> match caret_records(text@) {
            None => r == Err::<i64, ImportError>(ImportError::MalformedRecord),
            Some(rows) => {
                &&& r is Ok <==> well_formed_rows(rows) && ids_left(old(store)@, rows.len() as int)
                &&& r == Err::<i64, ImportError>(ImportError::MalformedRecord) <==> !well_formed_rows(rows)
                &&& r == Err::<i64, ImportError>(ImportError::Store(StoreError::ConstraintViolation))
                    <==> well_formed_rows(rows) && !ids_left(old(store)@, rows.len() as int)
                &&& r matches Ok(id) ==> id == old(store)@.next_id && final(store)@ == imported(
                    old(store)@,
                    name@,
                    rows,
                )
            },
        },
        r is Err ==> final(store)@ == old(store)@,
{
    if !overwrite && store.set_exists(name) {
        return Err(ImportError::AlreadyExists);
    }
    match read_caret_records(text) {
        None => Err(ImportError::MalformedRecord),
        Some(rows) => {
            let r = import_set(store, name, &rows, overwrite);
            proof {
                if r is Err {
                    let e = r->Err_0;
                    if e is Store {
                        assert(e->Store_0 is NotFound || e->Store_0 is ConstraintViolation);
                    }
                }
            }
            r
        },
    }
}

/// Whether every record holds exactly two fields.
pub fn rows_well_formed(rows: &Vec<Vec<String>>) -> (r: bool)
    ensures
        r == well_formed_rows(rows_view(rows@)),
{
    let mut i: usize = 0;
    while i < rows.len()
        invariant
            i <= rows@.len(),
            forall|k: int| 0 <= k < i ==> rows@[k]@.len() == 2,
        decreases rows@.len() - i,
    {
        if rows[i].len() != 2 {
            assert(rows_view(rows@)[i as int].len() != 2);
            return false;
        }
        i = i + 1;
    }
    assert forall|k: int| 0 <= k < rows_view(rows@).len() implies (#[trigger] rows_view(rows@)[k]).len() == 2 by {
        assert(rows@[k]@.len() == 2);
    }
    true
}

/// Importing over an existing set removes the old set, every one of its
/// terms and every session entry that referred to them; the new set's terms
/// are exactly the imported records, without entries.
pub proof fn lemma_overwrite_replaces(m: StoreModel, name: Seq<char>, rows: Seq<Seq<Seq<char>>>)
    requires
        wf_model(m),
        has_set_named(m, name),
    ensures
        ({
            let old_id = named_id(m, name);
            let n = imported(m, name, rows);
            let new_id = m.next_id as i64;
            &&& forall|i: int| 0 <= i < n.sets.len() ==> (#[trigger] n.sets[i]).0 != old_id
            &&& forall|i: int| 0 <= i < n.cards.len() ==> (#[trigger] n.cards[i]).set_id != old_id
            &&& forall|i: int| 0 <= i < n.sets.len() && (#[trigger] n.sets[i]).1 == name ==> n.sets[i].0 == new_id
            &&& forall|i: int|
                0 <= i < n.cards.len() && (#[trigger] n.cards[i]).set_id == new_id ==> n.cards[i].progress is None
            &&& n.cards.subrange(n.cards.len() - rows.len(), n.cards.len() as int) == new_cards(new_id, rows)
        }),
{
    let old_id = named_id(m, name);
    let d = deleted(m, old_id);
    let n = imported(m, name, rows);
    let new_id = m.next_id as i64;
    lemma_name_gone(m, name);
    lemma_kept(m.sets, set_other_than(old_id));
    lemma_kept(m.cards, crate::store::card_other_than(old_id));
    let k = choose|i: int| 0 <= i < m.sets.len() && m.sets[i].1 == name;
    assert(m.sets[k].0 == old_id);
    assert forall|i: int| 0 <= i < n.sets.len() implies (#[trigger] n.sets[i]).0 != old_id by {
        if i < d.sets.len() {
            assert(set_other_than(old_id)(d.sets[i]));
        }
    }
    assert forall|i: int| 0 <= i < n.cards.len() implies (#[trigger] n.cards[i]).set_id != old_id by {
        if i < d.cards.len() {
            assert(crate::store::card_other_than(old_id)(d.cards[i]));
        } else {
            assert(n.cards[i] == new_cards(new_id, rows)[i - d.cards.len()]);
        }
    }
    assert forall|i: int| 0 <= i < n.sets.len() && (#[trigger] n.sets[i]).1 == name implies n.sets[i].0 == new_id by {
        if i < d.sets.len() {
            assert(d.sets[i] == n.sets[i]);
            assert(has_set_named(d, name));
        }
    }
    assert forall|i: int|
        0 <= i < n.cards.len() && (#[trigger] n.cards[i]).set_id == new_id implies n.cards[i].progress is None by {
        if i < d.cards.len() {
            assert(n.cards[i] == d.cards[i]);
            assert(has_set(d, d.cards[i].set_id));
            let j = choose|j: int| 0 <= j < d.sets.len() && d.sets[j].0 == d.cards[i].set_id;
            assert(d.sets[j].0 < d.next_id);
        } else {
            assert(n.cards[i] == new_cards(new_id, rows)[i - d.cards.len()]);
        }
    }
    assert(n.cards.subrange(n.cards.len() - rows.len(), n.cards.len() as int) =~= new_cards(new_id, rows));
}

} // verus!
