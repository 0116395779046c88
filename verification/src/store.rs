//! The key-value store itself.
//!
//! A [`Yuzu`] owns an in-memory mapping from string keys to string values,
//! the path of its backing file and the delimiter that separates a key from
//! its value within a record. The mapping is held as a vector of rows with
//! pairwise distinct keys and is abstracted, for contracts, as a
//! `Map<Seq<char>, Seq<char>>`. Reading and writing the backing file is the
//! embedding program's job: [`Yuzu::from_contents`] builds a store from the
//! file's text and [`Yuzu::parse_to_string`] yields the text to write back.

use vstd::prelude::*;

verus! {

use vstd::string::StringExecFns;
use crate::text::contains_at;
use crate::text::lines_of;
use crate::text::newline;
use crate::text::split_on;
use crate::text::split_str;
use crate::text::split_lines;

/// One key-value pair of the mapping.
#[derive(Debug, Clone)]
pub struct Row {
    pub key: String,
    pub value: String,
}

/// The keys of `rs` are pairwise distinct.
pub open spec fn rows_unique(rs: Seq<Row>) -> bool {
    forall|i: int, j: int| 0 <= i < j < rs.len() ==> rs[i].key@ != rs[j].key@
}

/// The mapping that a sequence of rows denotes; a later row with the same
/// key overwrites an earlier one.
pub open spec fn rows_map(rs: Seq<Row>) -> Map<Seq<char>, Seq<char>>
    decreases rs.len(),
{
    if rs.len() == 0 {
        Map::empty()
    } else {
        rows_map(rs.drop_last()).insert(rs.last().key@, rs.last().value@)
    }
}

/// The mapping that a parsed sequence of lines denotes: each line must
/// split into exactly a key and a value, and a later line with the same key
/// overwrites an earlier one. One bad line spoils the whole parse.
pub open spec fn parse_lines(ls: Seq<Seq<char>>, d: Seq<char>) -> Option<
    Map<Seq<char>, Seq<char>>,
>
    decreases ls.len(),
{
    if ls.len() == 0 {
        Some(Map::<Seq<char>, Seq<char>>::empty())
    } else {
        match parse_lines(ls.drop_last(), d) {
            None => None,
            Some(m) => {
                let parts = split_on(ls.last(), d);
                if parts.len() == 2 {
                    Some(m.insert(parts[0], parts[1]))
                } else {
                    None
                }
            },
        }
    }
}

/// The mapping that a whole backing-file text denotes, if every line of it
/// is well formed.
pub open spec fn parse_text(raw: Seq<char>, d: Seq<char>) -> Option<Map<Seq<char>, Seq<char>>> {
    parse_lines(lines_of(raw), d)
}

/// One record of the backing file: key, delimiter, value.
pub open spec fn line_of(r: Row, d: Seq<char>) -> Seq<char> {
    r.key@ + d + r.value@
}

/// The backing-file text of a sequence of rows: one newline-terminated
/// record per row, in the rows' order.
pub open spec fn serialize_rows(rs: Seq<Row>, d: Seq<char>) -> Seq<char>
    decreases rs.len(),
{
    if rs.len() == 0 {
        Seq::empty()
    } else {
        serialize_rows(rs.drop_last(), d) + line_of(rs.last(), d) + newline()
    }
}

/// No line terminator occurs in `s`.
pub open spec fn newline_free(s: Seq<char>) -> bool {
    forall|i: int| 0 <= i < s.len() ==> s[i] != '\n'
}

/// The record of `r` can be read back unambiguously: neither key nor value
/// holds a line terminator, and the delimiter occurs in the record exactly
/// once, between the key and the value. Note that the delimiter being
/// absent from key and value alone is not enough when the delimiter has
/// repetitions: an occurrence may straddle the boundary of the key and the
/// written delimiter.
pub open spec fn row_clean(r: Row, d: Seq<char>) -> bool {
    &&& newline_free(r.key@)
    &&& newline_free(r.value@)
    &&& forall|i: int| contains_at(line_of(r, d), d, i) ==> i == r.key@.len()
}

/// Every row of `rs` can be read back unambiguously.
pub open spec fn rows_clean(rs: Seq<Row>, d: Seq<char>) -> bool {
    forall|i: int| 0 <= i < rs.len() ==> row_clean(rs[i], d)
}

/// A plaintext key-value store: a mapping held in memory, the path of the
/// backing file, and the delimiter written between a key and its value.
#[derive(Debug, Clone)]
pub struct Yuzu {
    /// The mapping, one row per key.
    pub db: Vec<Row>,
    /// Path of the plaintext backing file; only the embedding program
    /// touches the file itself.
    pub path: String,
    /// Separator between the key and the value of a record.
    pub delimiter: String,
}

impl View for Yuzu {
    type V = Map<Seq<char>, Seq<char>>;

    open spec fn view(&self) -> Map<Seq<char>, Seq<char>> {
        rows_map(self.db@)
    }
}

impl Yuzu {
    /// Internal invariant: one row per key, and a non-empty delimiter.
    pub open spec fn wf(self) -> bool {
        &&& rows_unique(self.db@)
        &&& self.delimiter@.len() > 0
    }
}

/// Every row's key is in the mapping, bound to that row's value.
pub proof fn lemma_rows_map_index(rs: Seq<Row>, i: int)
    requires
        rows_unique(rs),
        0 <= i < rs.len(),
    ensures
        rows_map(rs).contains_key(rs[i].key@),
        rows_map(rs)[rs[i].key@] == rs[i].value@,
    decreases rs.len(),
{
    if i < rs.len() - 1 {
        lemma_rows_map_index(rs.drop_last(), i);
    }
}

/// A key under which no row stands is not in the mapping.
pub proof fn lemma_rows_map_absent(rs: Seq<Row>, k: Seq<char>)
    requires
        forall|i: int| 0 <= i < rs.len() ==> rs[i].key@ != k,
    ensures
        !rows_map(rs).contains_key(k),
    decreases rs.len(),
{
    if rs.len() > 0 {
        lemma_rows_map_absent(rs.drop_last(), k);
    }
}

/// Replacing the value of the row that holds a key updates the mapping at
/// that key alone.
pub proof fn lemma_rows_map_update(rs: Seq<Row>, i: int, r2: Row)
    requires
        rows_unique(rs),
        0 <= i < rs.len(),
        r2.key@ == rs[i].key@,
    ensures
        rows_map(rs.update(i, r2)) == rows_map(rs).insert(r2.key@, r2.value@),
    decreases rs.len(),
{
    let k = rs[i].key@;
    if i == rs.len() - 1 {
        assert(rs.update(i, r2).drop_last() =~= rs.drop_last());
        assert(rows_map(rs.drop_last()).insert(k, rs[i].value@).insert(r2.key@, r2.value@)
            =~= rows_map(rs.drop_last()).insert(r2.key@, r2.value@));
    } else {
        assert(rs.update(i, r2).drop_last() =~= rs.drop_last().update(i, r2));
        lemma_rows_map_update(rs.drop_last(), i, r2);
        let lk = rs.last().key@;
        let lv = rs.last().value@;
        assert(rows_map(rs.drop_last()).insert(r2.key@, r2.value@).insert(lk, lv)
            =~= rows_map(rs.drop_last()).insert(lk, lv).insert(r2.key@, r2.value@));
    }
}

/// Removing the row that holds a key removes that key from the mapping.
pub proof fn lemma_rows_map_remove(rs: Seq<Row>, i: int)
    requires
        rows_unique(rs),
        0 <= i < rs.len(),
    ensures
        rows_map(rs.remove(i)) == rows_map(rs).remove(rs[i].key@),
    decreases rs.len(),
{
    let k = rs[i].key@;
    if i == rs.len() - 1 {
        assert(rs.remove(i) =~= rs.drop_last());
        lemma_rows_map_absent(rs.drop_last(), k);
        assert(rows_map(rs.drop_last()) =~= rows_map(rs.drop_last()).insert(k, rs[i].value@).remove(
            k,
        ));
    } else {
        assert(rs.remove(i).drop_last() =~= rs.drop_last().remove(i));
        assert(rs.remove(i).last() == rs.last());
        lemma_rows_map_remove(rs.drop_last(), i);
        let lk = rs.last().key@;
        let lv = rs.last().value@;
        assert(rows_map(rs.drop_last()).remove(k).insert(lk, lv) =~= rows_map(
            rs.drop_last(),
        ).insert(lk, lv).remove(k));
    }
}

/// One malformed line spoils the parse of the whole sequence of lines.
pub proof fn lemma_parse_lines_none(ls: Seq<Seq<char>>, d: Seq<char>, i: int)
    requires
        0 <= i < ls.len(),
        split_on(ls[i], d).len() != 2,
    ensures
        parse_lines(ls, d) is None,
    decreases ls.len(),
{
    if i < ls.len() - 1 {
        lemma_parse_lines_none(ls.drop_last(), d, i);
    }
}

/// Index of the row that holds `key`, if there is one.
fn find_row(db: &Vec<Row>, key: &String) -> (r: Option<usize>)
    ensures
        match r {
            Some(i) => i < db@.len() && db@[i as int].key@ == key@,
            None => forall|j: int| 0 <= j < db@.len() ==> db@[j].key@ != key@,
        },
{
    let n: usize = db.len();
    let mut i: usize = 0;
    while i < n
        invariant
            n == db@.len(),
            0 <= i <= n,
            forall|j: int| 0 <= j < i ==> db@[j].key@ != key@,
        decreases n - i,
    {
        if db[i].key == *key {
            return Some(i);
        }
        i = i + 1;
    }
    None
}

/// Bind `key` to `value` among the rows, replacing the value of an existing
/// row or appending a new one; yields the value previously bound, if any.
/// A row set of unambiguous records stays so, as long as the new record is
/// itself unambiguous.
fn insert_row(db: &mut Vec<Row>, key: String, value: String) -> (prev: Option<String>)
    requires
        rows_unique(old(db)@),
    ensures
        rows_unique(final(db)@),
        rows_map(final(db)@) == rows_map(old(db)@).insert(key@, value@),
        forall|d: Seq<char>|
            rows_clean(old(db)@, d) && #[trigger] row_clean((Row { key, value }), d)
                ==> rows_clean(final(db)@, d),
        match prev {
            Some(p) => rows_map(old(db)@).contains_key(key@) && rows_map(old(db)@)[key@] == p@,
            None => !rows_map(old(db)@).contains_key(key@),
        },
{
    let ghost newrow = Row { key, value };
    let found = find_row(db, &key);
    match found {
        Some(i) => {
            let prev_value = db[i].value.clone();
            proof {
                lemma_rows_map_index(db@, i as int);
                lemma_rows_map_update(db@, i as int, Row { key, value });
            }
            db.set(i, Row { key, value });
            assert forall|a: int, b: int| 0 <= a < b < db@.len() implies db@[a].key@
                != db@[b].key@ by {
                assert(old(db)@[a].key@ != old(db)@[b].key@);
            }
            assert forall|d: Seq<char>|
                rows_clean(old(db)@, d) && #[trigger] row_clean(newrow, d) implies rows_clean(
                db@,
                d,
            ) by {
                assert forall|j: int| 0 <= j < db@.len() implies row_clean(db@[j], d) by {
                    if j != i as int {
                        assert(db@[j] == old(db)@[j]);
                        assert(row_clean(old(db)@[j], d));
                    }
                }
            }
            Some(prev_value)
        },
        None => {
            proof {
                lemma_rows_map_absent(db@, key@);
            }
            let ghost before = db@;
            db.push(Row { key, value });
            proof {
                assert(db@.drop_last() =~= before);
                assert forall|a: int, b: int| 0 <= a < b < db@.len() implies db@[a].key@
                    != db@[b].key@ by {
                    if b < db@.len() - 1 {
                        assert(before[a].key@ != before[b].key@);
                    }
                }
                assert forall|d: Seq<char>|
                    rows_clean(before, d) && #[trigger] row_clean(newrow, d) implies rows_clean(
                    db@,
                    d,
                ) by {
                    assert forall|j: int| 0 <= j < db@.len() implies row_clean(db@[j], d) by {
                        if j < db@.len() - 1 {
                            assert(db@[j] == before[j]);
                            assert(row_clean(before[j], d));
                        } else {
                            assert(db@[j] == newrow);
                        }
                    }
                }
            }
            None
        },
    }
}

impl Yuzu {
    /// Convert a backing file's raw text into the mapping it denotes. The
    /// whole parse fails if any line does not split into exactly a key and
    /// a value under the delimiter; later lines overwrite earlier lines
    /// that bear the same key.
    pub fn parse(raw: String, delimiter: &String) -> (r: Result<Vec<Row>, String>)
        requires
            delimiter@.len() > 0,
        ensures
            match r {
                Ok(db) => {
                    &&& rows_unique(db@)
                    &&& parse_text(raw@, delimiter@) == Some(rows_map(db@))
                },
                Err(e) => {
                    &&& parse_text(raw@, delimiter@) is None
                    &&& e@ == "failed: parser error"@
                },
            },
    {
        let lines = split_lines(raw.as_str());
        let mut db: Vec<Row> = Vec::new();
        let n: usize = lines.len();
        let mut i: usize = 0;
        while i < n
            invariant
                n == lines@.len(),
                lines.deep_view() == lines_of(raw@),
                delimiter@.len() > 0,
                0 <= i <= n,
                rows_unique(db@),
                parse_lines(lines.deep_view().take(i as int), delimiter@) == Some(rows_map(db@)),
            decreases n - i,
        {
            let mut parts = split_str(lines[i].as_str(), delimiter.as_str());
            if parts.len() != 2 {
                proof {
                    lemma_parse_lines_none(lines.deep_view(), delimiter@, i as int);
                }
                return Err(String::from_str("failed: parser error"));
            }
            let ghost prefix2 = lines.deep_view().take(i as int + 1);
            proof {
                assert(prefix2.drop_last() =~= lines.deep_view().take(i as int));
                assert(prefix2.last() == lines.deep_view()[i as int]);
            }
            let value_s = parts.pop().unwrap();
            let key_s = parts.pop().unwrap();
            insert_row(&mut db, key_s, value_s);
            i = i + 1;
        }
        proof {
            assert(lines.deep_view().take(n as int) =~= lines.deep_view());
        }
        Ok(db)
    }

    /// Build a store from the text of the backing file at `path`. Reading
    /// the file itself is the caller's job; a failed parse yields no store.
    pub fn from_contents(path: String, delimiter: String, contents: String) -> (r: Result<
        Yuzu,
        String,
    >)
        requires
            delimiter@.len() > 0,
        ensures
            match r {
                Ok(store) => {
                    &&& store.wf()
                    &&& parse_text(contents@, delimiter@) == Some(store@)
                    &&& store.path == path
                    &&& store.delimiter == delimiter
                },
                Err(e) => {
                    &&& parse_text(contents@, delimiter@) is None
                    &&& e@ == "failed: parser error"@
                },
            },
    {
        match Yuzu::parse(contents, &delimiter) {
            Ok(db) => Ok(Yuzu { db, path, delimiter }),
            Err(e) => Err(e),
        }
    }

    /// Serialize the whole mapping back into the backing file's text, one
    /// newline-terminated record per row. Writing the file itself is the
    /// caller's job.
    pub fn parse_to_string(&self) -> (r: String)
        ensures
            r@ == serialize_rows(self.db@, self.delimiter@),
    {
        let mut out = String::new();
        let n: usize = self.db.len();
        let mut i: usize = 0;
        while i < n
            invariant
                n == self.db@.len(),
                0 <= i <= n,
                out@ == serialize_rows(self.db@.take(i as int), self.delimiter@),
            decreases n - i,
        {
            out.append(self.db[i].key.as_str());
            out.append(self.delimiter.as_str());
            out.append(self.db[i].value.as_str());
            out.append("\n");
            proof {
                reveal_strlit("\n");
                assert("\n"@ =~= newline());
                let t2 = self.db@.take(i as int + 1);
                assert(t2.drop_last() =~= self.db@.take(i as int));
                assert(t2.last() == self.db@[i as int]);
                assert(out@ =~= serialize_rows(t2, self.delimiter@));
            }
            i = i + 1;
        }
        proof {
            assert(self.db@.take(n as int) =~= self.db@);
        }
        out
    }

    /// Retrieve the value bound to a key, as an owned copy.
    pub fn get(&self, key: String) -> (r: Option<String>)
        requires
            self.wf(),
        ensures
            match r {
                Some(v) => self@.contains_key(key@) && self@[key@] == v@,
                None => !self@.contains_key(key@),
            },
    {
        let found = find_row(&self.db, &key);
        match found {
            Some(i) => {
                proof {
                    lemma_rows_map_index(self.db@, i as int);
                }
                Some(self.db[i].value.clone())
            },
            None => {
                proof {
                    lemma_rows_map_absent(self.db@, key@);
                }
                None
            },
        }
    }

    /// Bind a value to a key in the mapping, returning the value the key
    /// held before, if any. The caller persists the store afterwards. A
    /// store whose records are all unambiguous stays so when the new
    /// record is itself unambiguous, so the round trip through the backing
    /// file is preserved.
    pub fn set(&mut self, key: String, value: String) -> (prev: Option<String>)
        requires
            old(self).wf(),
        ensures
            final(self).wf(),
            final(self)@ == old(self)@.insert(key@, value@),
            final(self).path == old(self).path,
            final(self).delimiter == old(self).delimiter,
            rows_clean(old(self).db@, old(self).delimiter@) && row_clean(
                (Row { key, value }),
                old(self).delimiter@,
            ) ==> rows_clean(final(self).db@, final(self).delimiter@),
            match prev {
                Some(p) => old(self)@.contains_key(key@) && old(self)@[key@] == p@,
                None => !old(self)@.contains_key(key@),
            },
    {
        insert_row(&mut self.db, key, value)
    }

    /// Drop a key from the mapping, returning the value it held, if any; on
    /// an absent key the mapping is left unchanged. The caller persists the
    /// store afterwards. A store whose records are all unambiguous stays
    /// so, so the round trip through the backing file is preserved.
    pub fn remove(&mut self, key: String) -> (prev: Option<String>)
        requires
            old(self).wf(),
        ensures
            final(self).wf(),
            final(self)@ == old(self)@.remove(key@),
            !old(self)@.contains_key(key@) ==> final(self)@ == old(self)@,
            final(self).path == old(self).path,
            final(self).delimiter == old(self).delimiter,
            rows_clean(old(self).db@, old(self).delimiter@) ==> rows_clean(
                final(self).db@,
                final(self).delimiter@,
            ),
            match prev {
                Some(p) => old(self)@.contains_key(key@) && old(self)@[key@] == p@,
                None => !old(self)@.contains_key(key@),
            },
    {
        let found = find_row(&self.db, &key);
        match found {
            Some(i) => {
                proof {
                    lemma_rows_map_index(self.db@, i as int);
                    lemma_rows_map_remove(self.db@, i as int);
                }
                let row = self.db.remove(i);
                assert forall|a: int, b: int| 0 <= a < b < self.db@.len() implies self.db@[a].key@
                    != self.db@[b].key@ by {
                    let a0: int = if a < i as int { a } else { a + 1 };
                    let b0: int = if b < i as int { b } else { b + 1 };
                    assert(old(self).db@[a0].key@ != old(self).db@[b0].key@);
                }
                assert forall|j: int|
                    rows_clean(old(self).db@, old(self).delimiter@) && 0 <= j
                        < self.db@.len() implies row_clean(self.db@[j], old(self).delimiter@) by {
                    let j0: int = if j < i as int { j } else { j + 1 };
                    assert(self.db@[j] == old(self).db@[j0]);
                    assert(row_clean(old(self).db@[j0], old(self).delimiter@));
                }
                Some(row.value)
            },
            None => {
                proof {
                    lemma_rows_map_absent(self.db@, key@);
                    assert(old(self)@.remove(key@) =~= old(self)@);
                }
                None
            },
        }
    }
}

} // verus!
