//! The laws the store obeys, stated and proved over its models.
//!
//! The central one is the round trip: the text that serialization produces
//! parses back into the very mapping it came from, provided every record
//! can be read back unambiguously. Beside it stand the strictness of the
//! parser, the last-write-wins rule for duplicate keys in a file, and the
//! overwrite rule for repeated writes to one key.

use vstd::prelude::*;

verus! {

use crate::text::contains_at;
use crate::text::lines_of;
use crate::text::newline;
use crate::text::split_on;
use crate::text::lemma_split_here;
use crate::text::lemma_split_whole;
use crate::store::Row;
use crate::store::Yuzu;
use crate::store::line_of;
use crate::store::serialize_rows;
use crate::store::newline_free;
use crate::store::row_clean;
use crate::store::rows_clean;
use crate::store::rows_map;
use crate::store::parse_lines;
use crate::store::parse_text;
use crate::store::lemma_parse_lines_none;

/// The record of a clean row splits back into exactly its key and its
/// value.
pub proof fn lemma_split_clean_line(r: Row, d: Seq<char>)
    requires
        d.len() > 0,
        row_clean(r, d),
    ensures
        split_on(line_of(r, d), d) == seq![r.key@, r.value@],
{
    let line = line_of(r, d);
    let k = r.key@;
    let v = r.value@;
    assert(contains_at(line, d, k.len() as int)) by {
        assert(line.subrange(k.len() as int, k.len() as int + d.len() as int) =~= d);
    }
    lemma_split_here(line, d, k.len() as int);
    assert(line.subrange(0, k.len() as int) =~= k);
    let rest = line.subrange(k.len() as int + d.len() as int, line.len() as int);
    assert(rest =~= v);
    assert forall|i: int| !contains_at(v, d, i) by {
        if contains_at(v, d, i) {
            let p = k.len() as int + d.len() as int + i;
            assert(contains_at(line, d, p)) by {
                assert(line.subrange(p, p + d.len()) =~= d) by {
                    assert forall|q: int| 0 <= q < d.len() implies line.subrange(p, p + d.len())[q]
                        == d[q] by {
                        assert(line[p + q] == v[i + q]);
                        assert(v.subrange(i, i + d.len())[q] == d[q]);
                    }
                }
            }
        }
    }
    lemma_split_whole(v, d);
    assert(seq![k] + seq![v] =~= seq![k, v]);
}

/// A line free of the terminator, a terminator, and arbitrary rest: the
/// segments are the line and then the segments of the rest.
pub proof fn lemma_lines_prefix(l: Seq<char>, rest: Seq<char>)
    requires
        newline_free(l),
    ensures
        split_on(l + newline() + rest, newline()) == seq![l] + split_on(rest, newline()),
{
    let s = l + newline() + rest;
    assert(contains_at(s, newline(), l.len() as int)) by {
        assert(s.subrange(l.len() as int, l.len() as int + 1) =~= newline());
    }
    assert forall|p: int| 0 <= p < l.len() implies !contains_at(s, newline(), p) by {
        if contains_at(s, newline(), p) {
            assert(s.subrange(p, p + 1)[0] == newline()[0]);
            assert(l[p] == '\n');
        }
    }
    lemma_split_here(s, newline(), l.len() as int);
    assert(s.subrange(0, l.len() as int) =~= l);
    assert(s.subrange(l.len() as int + 1, s.len() as int) =~= rest);
}

/// The serialized text, read from the front: the first record, a line
/// terminator, then the serialization of the remaining rows.
pub proof fn lemma_serialize_front(rs: Seq<Row>, d: Seq<char>)
    requires
        rs.len() > 0,
    ensures
        serialize_rows(rs, d) == line_of(rs[0], d) + newline() + serialize_rows(
            rs.drop_first(),
            d,
        ),
    decreases rs.len(),
{
    if rs.len() == 1 {
        assert(rs.drop_last() =~= Seq::<Row>::empty());
        assert(rs.drop_first() =~= Seq::<Row>::empty());
        assert(serialize_rows(rs, d) =~= line_of(rs[0], d) + newline() + serialize_rows(
            rs.drop_first(),
            d,
        ));
    } else {
        lemma_serialize_front(rs.drop_last(), d);
        assert(rs.drop_last()[0] == rs[0]);
        assert(rs.drop_first().drop_last() =~= rs.drop_last().drop_first());
        assert(rs.drop_first().last() == rs.last());
        assert(serialize_rows(rs, d) =~= line_of(rs[0], d) + newline() + serialize_rows(
            rs.drop_first(),
            d,
        ));
    }
}

/// The lines of a sequence of rows, in their order.
pub open spec fn lines_of_rows(rs: Seq<Row>, d: Seq<char>) -> Seq<Seq<char>> {
    Seq::new(rs.len(), |i: int| line_of(rs[i], d))
}

/// Splitting the serialized text at its line terminators yields one
/// segment per row, plus the empty segment after the trailing terminator.
pub proof fn lemma_split_serialized(rs: Seq<Row>, d: Seq<char>)
    requires
        newline_free(d),
        rows_clean(rs, d),
    ensures
        split_on(serialize_rows(rs, d), newline()) == lines_of_rows(rs, d).push(
            Seq::<char>::empty(),
        ),
    decreases rs.len(),
{
    if rs.len() == 0 {
        assert forall|k: int| !contains_at(Seq::<char>::empty(), newline(), k) by {}
        lemma_split_whole(Seq::<char>::empty(), newline());
        assert(lines_of_rows(rs, d).push(Seq::<char>::empty()) =~= seq![Seq::<char>::empty()]);
    } else {
        let l = line_of(rs[0], d);
        assert(newline_free(l)) by {
            assert(row_clean(rs[0], d));
            assert forall|i: int| 0 <= i < l.len() implies l[i] != '\n' by {
                if i < rs[0].key@.len() {
                    assert(l[i] == rs[0].key@[i]);
                } else if i < rs[0].key@.len() + d.len() {
                    assert(l[i] == d[i - rs[0].key@.len()]);
                } else {
                    assert(l[i] == rs[0].value@[i - rs[0].key@.len() - d.len()]);
                }
            }
        }
        lemma_serialize_front(rs, d);
        lemma_lines_prefix(l, serialize_rows(rs.drop_first(), d));
        assert(rows_clean(rs.drop_first(), d)) by {
            assert forall|i: int| 0 <= i < rs.drop_first().len() implies row_clean(
                rs.drop_first()[i],
                d,
            ) by {
                assert(rs.drop_first()[i] == rs[i + 1]);
            }
        }
        lemma_split_serialized(rs.drop_first(), d);
        assert(split_on(serialize_rows(rs, d), newline()) =~= lines_of_rows(rs, d).push(
            Seq::<char>::empty(),
        ));
    }
}

/// The lines of the serialized text are exactly the records of the rows.
pub proof fn lemma_lines_of_serialized(rs: Seq<Row>, d: Seq<char>)
    requires
        newline_free(d),
        rows_clean(rs, d),
    ensures
        lines_of(serialize_rows(rs, d)) == lines_of_rows(rs, d),
{
    lemma_split_serialized(rs, d);
    assert(split_on(serialize_rows(rs, d), newline()).drop_last() =~= lines_of_rows(rs, d));
}

/// Parsing the records of clean rows rebuilds the rows' mapping.
pub proof fn lemma_parse_lines_of_rows(rs: Seq<Row>, d: Seq<char>)
    requires
        d.len() > 0,
        rows_clean(rs, d),
    ensures
        parse_lines(lines_of_rows(rs, d), d) == Some(rows_map(rs)),
    decreases rs.len(),
{
    let ls = lines_of_rows(rs, d);
    if rs.len() > 0 {
        assert(rows_clean(rs.drop_last(), d)) by {
            assert forall|i: int| 0 <= i < rs.drop_last().len() implies row_clean(
                rs.drop_last()[i],
                d,
            ) by {
                assert(rs.drop_last()[i] == rs[i]);
            }
        }
        lemma_parse_lines_of_rows(rs.drop_last(), d);
        assert(ls.drop_last() =~= lines_of_rows(rs.drop_last(), d));
        assert(ls.last() == line_of(rs.last(), d));
        assert(row_clean(rs.last(), d));
        lemma_split_clean_line(rs.last(), d);
    }
}

/// Round trip: the text that serialization produces parses back into the
/// very mapping it was produced from, for any rows whose records can be
/// read back unambiguously under a non-empty delimiter that holds no line
/// terminator.
pub proof fn lemma_round_trip(rs: Seq<Row>, d: Seq<char>)
    requires
        d.len() > 0,
        newline_free(d),
        rows_clean(rs, d),
    ensures
        parse_text(serialize_rows(rs, d), d) == Some(rows_map(rs)),
{
    lemma_lines_of_serialized(rs, d);
    lemma_parse_lines_of_rows(rs, d);
}

/// Round trip of a whole store: a store whose records are unambiguous
/// parses back, from its own serialization and under its own delimiter,
/// into its own mapping. Since every successful mutation rewrites the
/// backing file with exactly this serialization, reopening the file yields
/// the in-memory mapping back.
pub proof fn lemma_store_round_trip(store: Yuzu)
    requires
        store.wf(),
        newline_free(store.delimiter@),
        rows_clean(store.db@, store.delimiter@),
    ensures
        parse_text(serialize_rows(store.db@, store.delimiter@), store.delimiter@) == Some(store@),
{
    lemma_round_trip(store.db@, store.delimiter@);
}

/// Parse strictness: a text one of whose lines does not split into exactly
/// a key and a value under the delimiter parses into nothing at all — no
/// partial mapping survives. Since building a store succeeds exactly when
/// the parse of the text yields a mapping, no store can be opened from
/// such a text.
pub proof fn lemma_parse_strict(raw: Seq<char>, d: Seq<char>, i: int)
    requires
        0 <= i < lines_of(raw).len(),
        split_on(lines_of(raw)[i], d).len() != 2,
    ensures
        parse_text(raw, d) is None,
{
    lemma_parse_lines_none(lines_of(raw), d, i);
}

/// Last write wins on load: when a parse succeeds, the value bound to the
/// key of a well-formed line that no later line's key repeats is that
/// line's own value. In particular, of two lines bearing the same key, the
/// later one decides.
pub proof fn lemma_last_write_wins(
    ls: Seq<Seq<char>>,
    d: Seq<char>,
    m: Map<Seq<char>, Seq<char>>,
    j: int,
)
    requires
        parse_lines(ls, d) == Some(m),
        0 <= j < ls.len(),
        split_on(ls[j], d).len() == 2,
        forall|i: int| j < i < ls.len() ==> split_on(ls[i], d)[0] != split_on(ls[j], d)[0],
    ensures
        m.contains_key(split_on(ls[j], d)[0]),
        m[split_on(ls[j], d)[0]] == split_on(ls[j], d)[1],
    decreases ls.len(),
{
    match parse_lines(ls.drop_last(), d) {
        None => {
            assert(false);
        },
        Some(m0) => {
            if j == ls.len() - 1 {
            } else {
                assert forall|i: int| j < i < ls.drop_last().len() implies split_on(
                    ls.drop_last()[i],
                    d,
                )[0] != split_on(ls.drop_last()[j], d)[0] by {
                    assert(ls.drop_last()[i] == ls[i]);
                }
                lemma_last_write_wins(ls.drop_last(), d, m0, j);
            }
        },
    }
}

/// Writing one key twice: the second value is the one that stays, and the
/// first is the one the second write reports as previous. Together with
/// the contract of `set` this gives: after `set(k, v1)` then `set(k, v2)`,
/// `get(k)` yields `v2`, and the second call returned `Some(v1)`.
pub proof fn lemma_set_overwrite(
    m: Map<Seq<char>, Seq<char>>,
    k: Seq<char>,
    v1: Seq<char>,
    v2: Seq<char>,
)
    ensures
        m.insert(k, v1).insert(k, v2) == m.insert(k, v2),
        m.insert(k, v1).contains_key(k),
        m.insert(k, v1)[k] == v1,
{
    assert(m.insert(k, v1).insert(k, v2) =~= m.insert(k, v2));
}

/// For a one-character delimiter the unambiguity of a record is exactly
/// the delimiter and the line terminator staying out of key and value;
/// with a longer delimiter an occurrence could straddle the boundary of
/// the key and the written delimiter, so this does not carry over.
pub proof fn lemma_char_free_row_clean(r: Row, d: Seq<char>)
    requires
        d.len() == 1,
        newline_free(r.key@),
        newline_free(r.value@),
        forall|i: int| 0 <= i < r.key@.len() ==> r.key@[i] != d[0],
        forall|i: int| 0 <= i < r.value@.len() ==> r.value@[i] != d[0],
    ensures
        row_clean(r, d),
{
    let line = line_of(r, d);
    let k = r.key@;
    assert forall|i: int| contains_at(line, d, i) implies i == k.len() by {
        assert(line.subrange(i, i + 1)[0] == d[0]);
        if i < k.len() {
            assert(k[i] == d[0]);
        } else if i > k.len() {
            assert(r.value@[i - k.len() - 1] == d[0]);
        }
    }
}

} // verus!
