//! Batch processing: flattening every document, condensing the column
//! set, and rendering the comma-separated table.

use vstd::prelude::*;
use core::cmp::Ordering;
use crate::date::spec_cmp;
use crate::frontmatter::Frontmatter;
use crate::frontmatter::resolve_date;
use crate::frontmatter::spec_resolve_date;
use crate::node::Node;
use crate::node::flatten_entries;
use crate::node::flatten_yaml;
use crate::record::FlatRecord;
use crate::record::kv_to_hash;
use crate::record::map_of_pairs;
use crate::text::lemma_lex_irreflexive;
use crate::text::lemma_lex_transitive;
use crate::text::lemma_lex_trichotomy;
use crate::text::lex_lt;
use crate::text::str_eq;
use crate::text::str_lt;

verus! {

broadcast use vstd::seq_lib::group_to_multiset_ensures, vstd::multiset::group_multiset_axioms;

/// The views of a run of strings.
pub open spec fn strings_view(v: Seq<String>) -> Seq<Seq<char>> {
    Seq::new(v.len(), |i: int| v[i]@)
}

/// The views of a run of flat records.
pub open spec fn maps_view(rs: Seq<FlatRecord>) -> Seq<Map<Seq<char>, Seq<char>>> {
    Seq::new(rs.len(), |i: int| rs[i]@)
}

/// Whether some record of a batch carries a key.
pub open spec fn key_in_records(rs: Seq<Map<Seq<char>, Seq<char>>>, k: Seq<char>) -> bool {
    exists|i: int| 0 <= i < rs.len() && #[trigger] rs[i].contains_key(k)
}

/// The condensed column order of a batch: every key of every record,
/// each exactly once, alphabetically sorted, with `date` moved to the
/// front when it occurs at all.
pub open spec fn condensed_columns(
    rs: Seq<Map<Seq<char>, Seq<char>>>,
    cols: Seq<Seq<char>>,
) -> bool {
    &&& forall|i: int| 0 <= i < cols.len() ==> key_in_records(rs, #[trigger] cols[i])
    &&& forall|k: Seq<char>| key_in_records(rs, k) ==> cols.contains(k)
    &&& forall|i: int, j: int| 0 <= i < j < cols.len() ==> cols[i] != cols[j]
    &&& forall|i: int, j: int| 1 <= i < j < cols.len() ==> lex_lt(cols[i], cols[j])
    &&& (key_in_records(rs, "date"@) ==> cols.len() > 0 && cols[0] == "date"@)
    &&& (!key_in_records(rs, "date"@) && cols.len() >= 2 ==> lex_lt(cols[0], cols[1]))
}

/// Whether a run of column names is strictly sorted.
pub open spec fn strictly_sorted(ks: Seq<Seq<char>>) -> bool {
    forall|i: int, j: int| 0 <= i < j < ks.len() ==> lex_lt(#[trigger] ks[i], #[trigger] ks[j])
}

/// Places one key into a strictly sorted run of keys, keeping it sorted;
/// a key already present is left alone.
fn insert_sorted_key(sorted: &mut Vec<String>, key: String)
    requires
        strictly_sorted(strings_view(old(sorted)@)),
    ensures
        strictly_sorted(strings_view(final(sorted)@)),
        forall|k: Seq<char>|
            strings_view(final(sorted)@).contains(k) <==> (strings_view(old(sorted)@).contains(k)
                || k == key@),
{
    let ghost before = strings_view(sorted@);
    let ghost kv = key@;
    let mut pos: usize = 0;
    while pos < sorted.len() && str_lt(sorted[pos].as_str(), key.as_str())
        invariant
            0 <= pos <= sorted.len(),
            kv == key@,
            before == strings_view(sorted@),
            strictly_sorted(before),
            forall|m: int| 0 <= m < pos ==> lex_lt(#[trigger] before[m], kv),
        decreases sorted.len() - pos,
    {
        pos = pos + 1;
    }
    if pos < sorted.len() {
        if str_eq(sorted[pos].as_str(), key.as_str()) {
            proof {
                assert(before[pos as int] == kv);
                assert(strings_view(sorted@).contains(kv));
            }
            return ;
        }
        proof {
            lemma_lex_trichotomy(kv, before[pos as int]);
        }
    }
    proof {
        assert(pos < before.len() ==> lex_lt(kv, before[pos as int]));
    }
    sorted.insert(pos, key);
    proof {
        let after = strings_view(sorted@);
        assert(after.len() == before.len() + 1);
        assert(forall|m: int| 0 <= m < pos ==> #[trigger] after[m] == before[m]);
        assert(after[pos as int] == kv);
        assert(forall|m: int|
            pos < m < after.len() ==> #[trigger] after[m] == before[m - 1]);
        assert forall|i: int, j: int| 0 <= i < j < after.len() implies lex_lt(
            #[trigger] after[i],
            #[trigger] after[j],
        ) by {
            if i == pos {
                if j == pos + 1 {
                    assert(lex_lt(kv, before[j - 1]));
                } else {
                    lemma_lex_transitive(kv, before[pos as int], before[j - 1]);
                }
            } else if j == pos {
                assert(lex_lt(before[i], kv));
            } else if i < pos && j > pos {
                assert(lex_lt(before[i], before[j - 1]));
            }
        }
        assert forall|k: Seq<char>| after.contains(k) implies (before.contains(k) || k
            == kv) by {
            let m = choose|m: int| 0 <= m < after.len() && after[m] == k;
            if m < pos {
                assert(before[m] == k);
            } else if m > pos {
                assert(before[m - 1] == k);
            }
        }
        assert forall|k: Seq<char>| before.contains(k) || k == kv implies after.contains(
            k,
        ) by {
            if k == kv {
                assert(after[pos as int] == k);
            } else {
                let m = choose|m: int| 0 <= m < before.len() && before[m] == k;
                if m < pos {
                    assert(after[m] == k);
                } else {
                    assert(after[m + 1] == k);
                }
            }
        }
    }
}

/// Computes the condensed column order of a batch of records: the sorted
/// union of all their keys, with `date` pinned to the front.
pub fn condense_keys(hashes: &Vec<FlatRecord>) -> (r: Vec<String>)
    ensures
        condensed_columns(maps_view(hashes@), strings_view(r@)),
{
    let ghost rs = maps_view(hashes@);
    let mut sorted: Vec<String> = Vec::new();
    let mut ri: usize = 0;
    while ri < hashes.len()
        invariant
            0 <= ri <= hashes.len(),
            rs == maps_view(hashes@),
            strictly_sorted(strings_view(sorted@)),
            forall|k: Seq<char>|
                strings_view(sorted@).contains(k) ==> key_in_records(rs, k),
            forall|m: int, k: Seq<char>|
                0 <= m < ri && #[trigger] rs[m].contains_key(k) ==> strings_view(
                    sorted@,
                ).contains(k),
        decreases hashes.len() - ri,
    {
        let ks = hashes[ri].keys();
        let mut ki: usize = 0;
        while ki < ks.len()
            invariant
                0 <= ki <= ks.len(),
                0 <= ri < hashes.len(),
                rs == maps_view(hashes@),
                strictly_sorted(strings_view(sorted@)),
                forall|i: int| 0 <= i < ks@.len() ==> rs[ri as int].contains_key(#[trigger] ks@[i]@),
                forall|k: Seq<char>|
                    rs[ri as int].contains_key(k) ==> exists|i: int|
                        0 <= i < ks@.len() && #[trigger] ks@[i]@ == k,
                forall|k: Seq<char>|
                    strings_view(sorted@).contains(k) ==> key_in_records(rs, k),
                forall|m: int, k: Seq<char>|
                    0 <= m < ri && #[trigger] rs[m].contains_key(k) ==> strings_view(
                        sorted@,
                    ).contains(k),
                forall|i: int|
                    0 <= i < ki ==> strings_view(sorted@).contains(#[trigger] ks@[i]@),
            decreases ks.len() - ki,
        {
            insert_sorted_key(&mut sorted, ks[ki].clone());
            ki = ki + 1;
        }
        ri = ri + 1;
    }
    // pin `date` to the front when it occurs
    let mut di: usize = 0;
    let ghost full = strings_view(sorted@);
    while di < sorted.len()
        invariant
            0 <= di <= sorted.len(),
            rs == maps_view(hashes@),
            full == strings_view(sorted@),
            strictly_sorted(full),
            forall|k: Seq<char>| full.contains(k) ==> key_in_records(rs, k),
            forall|m: int, k: Seq<char>|
                0 <= m < rs.len() && #[trigger] rs[m].contains_key(k) ==> full.contains(k),
            forall|m: int| 0 <= m < di ==> #[trigger] full[m] != "date"@,
        decreases sorted.len() - di,
    {
        if str_eq(sorted[di].as_str(), "date") {
            let d = sorted.remove(di);
            let ghost mid = strings_view(sorted@);
            sorted.insert(0, d);
            proof {
                let after = strings_view(sorted@);
                assert(forall|m: int|
                    0 <= m < di ==> #[trigger] mid[m] == full[m]);
                assert(forall|m: int|
                    di <= m < mid.len() ==> #[trigger] mid[m] == full[m + 1]);
                assert(after[0] == "date"@);
                assert(forall|m: int|
                    1 <= m < after.len() ==> #[trigger] after[m] == mid[m - 1]);
                assert forall|k: Seq<char>| after.contains(k) implies full.contains(k) by {
                    let m = choose|m: int| 0 <= m < after.len() && after[m] == k;
                    if m == 0 {
                        assert(full[di as int] == k);
                    } else if m - 1 < di {
                        assert(full[m - 1] == k);
                    } else {
                        assert(full[m] == k);
                    }
                }
                assert forall|k: Seq<char>| full.contains(k) implies after.contains(k) by {
                    let m = choose|m: int| 0 <= m < full.len() && full[m] == k;
                    if m == di {
                        assert(after[0] == k);
                    } else if m < di {
                        assert(after[m + 1] == k);
                    } else {
                        assert(after[m] == k);
                    }
                }
                assert forall|i: int, j: int| 1 <= i < j < after.len() implies lex_lt(
                    #[trigger] after[i],
                    #[trigger] after[j],
                ) by {
                    if j - 1 < di {
                        assert(lex_lt(full[i - 1], full[j - 1]));
                    } else if i - 1 >= di {
                        assert(lex_lt(full[i], full[j]));
                    } else {
                        assert(lex_lt(full[i - 1], full[j]));
                    }
                }
                assert forall|i: int, j: int| 0 <= i < j < after.len() implies after[i]
                    != after[j] by {
                    if i >= 1 {
                        lemma_lex_irreflexive(after[i]);
                    } else {
                        if j - 1 < di {
                            assert(lex_lt(full[j - 1], full[di as int]));
                            lemma_lex_irreflexive(after[j]);
                        } else {
                            assert(lex_lt(full[di as int], full[j]));
                            lemma_lex_irreflexive(after[j]);
                        }
                    }
                }
                assert(key_in_records(rs, "date"@));
            }
            return sorted;
        }
        di = di + 1;
    }
    proof {
        let ks = strings_view(sorted@);
        assert forall|i: int, j: int| 0 <= i < j < ks.len() implies ks[i] != ks[j] by {
            lemma_lex_irreflexive(ks[i]);
        }
        if key_in_records(rs, "date"@) {
            assert(ks.contains("date"@));
            let m = choose|m: int| 0 <= m < ks.len() && ks[m] == "date"@;
            assert(false);
        }
    }
    sorted
}

/// Two strictly sorted runs with the same members are the same run.
proof fn lemma_sorted_distinct_unique(c1: Seq<Seq<char>>, c2: Seq<Seq<char>>)
    requires
        strictly_sorted(c1),
        strictly_sorted(c2),
        forall|k: Seq<char>| c1.contains(k) <==> c2.contains(k),
    ensures
        c1 == c2,
    decreases c1.len(),
{
    if c1.len() == 0 {
        if c2.len() > 0 {
            assert(c2.contains(c2[0]));
            assert(c1.contains(c2[0]));
        }
        assert(c1 =~= c2);
    } else {
        assert(c1.contains(c1[0]));
        assert(c2.len() > 0);
        assert(c2.contains(c1[0]));
        let j = choose|j: int| 0 <= j < c2.len() && c2[j] == c1[0];
        assert(c1.contains(c2[0]));
        let i = choose|i: int| 0 <= i < c1.len() && c1[i] == c2[0];
        if c1[0] != c2[0] {
            assert(j > 0 && i > 0);
            assert(lex_lt(c2[0], c2[j]));
            assert(lex_lt(c1[0], c1[i]));
            lemma_lex_transitive(c1[0], c2[0], c1[0]);
            lemma_lex_irreflexive(c1[0]);
        }
        assert(strictly_sorted(c1.skip(1))) by {
            assert(forall|m: int|
                0 <= m < c1.len() - 1 ==> #[trigger] c1.skip(1)[m] == c1[m + 1]);
        }
        assert(strictly_sorted(c2.skip(1))) by {
            assert(forall|m: int|
                0 <= m < c2.len() - 1 ==> #[trigger] c2.skip(1)[m] == c2[m + 1]);
        }
        assert forall|k: Seq<char>| c1.skip(1).contains(k) <==> c2.skip(1).contains(k) by {
            lemma_tail_member(c1, k);
            lemma_tail_member(c2, k);
        }
        lemma_sorted_distinct_unique(c1.skip(1), c2.skip(1));
        assert(c1.skip(1).len() == c1.len() - 1);
        assert(c2.skip(1).len() == c2.len() - 1);
        assert forall|m: int| 0 <= m < c1.len() implies c1[m] == c2[m] by {
            if m >= 1 {
                assert(c1.skip(1)[m - 1] == c1[m]);
                assert(c2.skip(1)[m - 1] == c2[m]);
            }
        }
        assert(c1 =~= c2);
    }
}

/// A key is in the tail of a strictly sorted run exactly when it is in
/// the run and differs from the head.
proof fn lemma_tail_member(c: Seq<Seq<char>>, k: Seq<char>)
    requires
        strictly_sorted(c),
        c.len() > 0,
    ensures
        c.skip(1).contains(k) <==> (c.contains(k) && k != c[0]),
{
    if c.skip(1).contains(k) {
        let m = choose|m: int| 0 <= m < c.skip(1).len() && c.skip(1)[m] == k;
        assert(c[m + 1] == k);
        assert(c.contains(k));
        assert(lex_lt(c[0], c[m + 1]));
        if k == c[0] {
            lemma_lex_irreflexive(c[0]);
        }
    }
    if c.contains(k) && k != c[0] {
        let m = choose|m: int| 0 <= m < c.len() && c[m] == k;
        assert(m > 0);
        assert(c.skip(1)[m - 1] == k);
        assert(c.skip(1).contains(k));
    }
}

/// A batch has exactly one condensed column order.
pub proof fn lemma_condensed_columns_unique(
    rs: Seq<Map<Seq<char>, Seq<char>>>,
    c1: Seq<Seq<char>>,
    c2: Seq<Seq<char>>,
)
    requires
        condensed_columns(rs, c1),
        condensed_columns(rs, c2),
    ensures
        c1 == c2,
{
    assert forall|k: Seq<char>| c1.contains(k) <==> c2.contains(k) by {
        if c1.contains(k) {
            let m = choose|m: int| 0 <= m < c1.len() && c1[m] == k;
            assert(key_in_records(rs, c1[m]));
        }
        if c2.contains(k) {
            let m = choose|m: int| 0 <= m < c2.len() && c2[m] == k;
            assert(key_in_records(rs, c2[m]));
        }
    }
    if key_in_records(rs, "date"@) {
        assert(c1[0] == "date"@ && c2[0] == "date"@);
        assert(strictly_sorted(c1.skip(1))) by {
            assert(forall|m: int|
                0 <= m < c1.len() - 1 ==> #[trigger] c1.skip(1)[m] == c1[m + 1]);
        }
        assert(strictly_sorted(c2.skip(1))) by {
            assert(forall|m: int|
                0 <= m < c2.len() - 1 ==> #[trigger] c2.skip(1)[m] == c2[m + 1]);
        }
        assert forall|k: Seq<char>| c1.skip(1).contains(k) <==> c2.skip(1).contains(k) by {
            lemma_head_tail_member(c1, k);
            lemma_head_tail_member(c2, k);
        }
        lemma_sorted_distinct_unique(c1.skip(1), c2.skip(1));
        assert(c1.skip(1).len() == c1.len() - 1);
        assert(c2.skip(1).len() == c2.len() - 1);
        assert forall|m: int| 0 <= m < c1.len() implies c1[m] == c2[m] by {
            if m >= 1 {
                assert(c1.skip(1)[m - 1] == c1[m]);
                assert(c2.skip(1)[m - 1] == c2[m]);
            }
        }
        assert(c1 =~= c2);
    } else {
        lemma_whole_sorted(rs, c1);
        lemma_whole_sorted(rs, c2);
        lemma_sorted_distinct_unique(c1, c2);
    }
}

/// A key is in the tail of a duplicate-free run exactly when it is in
/// the run and differs from the head.
proof fn lemma_head_tail_member(c: Seq<Seq<char>>, k: Seq<char>)
    requires
        forall|i: int, j: int| 0 <= i < j < c.len() ==> c[i] != c[j],
        c.len() > 0,
    ensures
        c.skip(1).contains(k) <==> (c.contains(k) && k != c[0]),
{
    if c.skip(1).contains(k) {
        let m = choose|m: int| 0 <= m < c.skip(1).len() && c.skip(1)[m] == k;
        assert(c[m + 1] == k);
        assert(c.contains(k));
        assert(c[0] != c[m + 1]);
    }
    if c.contains(k) && k != c[0] {
        let m = choose|m: int| 0 <= m < c.len() && c[m] == k;
        assert(m > 0);
        assert(c.skip(1)[m - 1] == k);
        assert(c.skip(1).contains(k));
    }
}

/// Without a `date` key the whole condensed order is strictly sorted.
proof fn lemma_whole_sorted(rs: Seq<Map<Seq<char>, Seq<char>>>, c: Seq<Seq<char>>)
    requires
        condensed_columns(rs, c),
        !key_in_records(rs, "date"@),
    ensures
        strictly_sorted(c),
{
    assert forall|i: int, j: int| 0 <= i < j < c.len() implies lex_lt(
        #[trigger] c[i],
        #[trigger] c[j],
    ) by {
        if i == 0 {
            if j >= 2 {
                assert(lex_lt(c[0], c[1]));
                assert(lex_lt(c[1], c[j]));
                lemma_lex_transitive(c[0], c[1], c[j]);
            }
        }
    }
}

/// The items joined by the separator, with nothing before the first item
/// or after the last.
pub open spec fn join_seq(items: Seq<Seq<char>>, sep: Seq<char>) -> Seq<char>
    decreases items.len(),
{
    if items.len() == 0 {
        Seq::empty()
    } else if items.len() == 1 {
        items[0]
    } else {
        join_seq(items.drop_last(), sep) + sep + items.last()
    }
}

/// The text a record shows under a column: its value there, or the empty
/// string when the record has no such key.
pub open spec fn cell_of(m: Map<Seq<char>, Seq<char>>, k: Seq<char>) -> Seq<char> {
    if m.contains_key(k) {
        m[k]
    } else {
        Seq::empty()
    }
}

/// One table row: the record's cells under the given columns, joined by
/// commas.
pub open spec fn row_of(m: Map<Seq<char>, Seq<char>>, cols: Seq<Seq<char>>) -> Seq<char> {
    join_seq(Seq::new(cols.len(), |i: int| cell_of(m, cols[i])), ","@)
}

/// The whole table: the header row, a newline, and one row per record
/// joined by newlines, with no trailing newline.
pub open spec fn table_of(rs: Seq<Map<Seq<char>, Seq<char>>>, cols: Seq<Seq<char>>) -> Seq<char> {
    join_seq(cols, ","@) + "\n"@ + join_seq(Seq::new(rs.len(), |i: int| row_of(rs[i], cols)), "\n"@)
}

/// Joins strings with a separator.
fn join_strings(items: &Vec<String>, sep: &str) -> (r: String)
    ensures
        r@ == join_seq(strings_view(items@), sep@),
{
    let ghost views = strings_view(items@);
    let mut out = String::new();
    let mut i: usize = 0;
    while i < items.len()
        invariant
            0 <= i <= items.len(),
            views == strings_view(items@),
            out@ == join_seq(views.subrange(0, i as int), sep@),
        decreases items.len() - i,
    {
        if i > 0 {
            out.append(sep);
        }
        out.append(items[i].as_str());
        proof {
            assert(views.subrange(0, i + 1 as int).drop_last() =~= views.subrange(0, i as int));
            assert(views.subrange(0, i + 1 as int).last() == views[i as int]);
            assert(out@ =~= join_seq(views.subrange(0, i + 1 as int), sep@));
        }
        i = i + 1;
    }
    proof {
        assert(views.subrange(0, items@.len() as int) =~= views);
    }
    out
}

/// Renders one record's row under the given columns: a missing key shows
/// as the empty string.
fn render_row(d: &FlatRecord, keys: &Vec<String>) -> (r: String)
    ensures
        r@ == row_of(d@, strings_view(keys@)),
{
    let ghost cols = strings_view(keys@);
    let ghost cells = Seq::new(cols.len(), |x: int| cell_of(d@, cols[x]));
    let mut out = String::new();
    let mut i: usize = 0;
    while i < keys.len()
        invariant
            0 <= i <= keys.len(),
            cols == strings_view(keys@),
            cells == Seq::new(cols.len(), |x: int| cell_of(d@, cols[x])),
            out@ == join_seq(cells.subrange(0, i as int), ","@),
        decreases keys.len() - i,
    {
        if i > 0 {
            out.append(",");
        }
        match d.get(keys[i].as_str()) {
            Some(v) => {
                out.append(v.as_str());
            },
            None => {},
        }
        proof {
            assert(cells.subrange(0, i + 1 as int).drop_last() =~= cells.subrange(0, i as int));
            assert(cells.subrange(0, i + 1 as int).last() == cells[i as int]);
            assert(out@ =~= join_seq(cells.subrange(0, i + 1 as int), ","@));
        }
        i = i + 1;
    }
    proof {
        assert(cells.subrange(0, keys@.len() as int) =~= cells);
    }
    out
}

/// Renders the whole table for the given records and column order.
pub fn render(records: &Vec<FlatRecord>, keys: &Vec<String>) -> (r: String)
    ensures
        r@ == table_of(maps_view(records@), strings_view(keys@)),
{
    let ghost rs = maps_view(records@);
    let ghost cols = strings_view(keys@);
    let mut rows: Vec<String> = Vec::new();
    let mut i: usize = 0;
    while i < records.len()
        invariant
            0 <= i <= records.len(),
            rs == maps_view(records@),
            cols == strings_view(keys@),
            rows@.len() == i,
            forall|m: int| 0 <= m < i ==> #[trigger] rows@[m]@ == row_of(rs[m], cols),
        decreases records.len() - i,
    {
        let row = render_row(&records[i], keys);
        rows.push(row);
        i = i + 1;
    }
    let mut out = join_strings(keys, ",");
    out.append("\n");
    let body = join_strings(&rows, "\n");
    out.append(body.as_str());
    proof {
        assert(strings_view(rows@) =~= Seq::new(rs.len(), |x: int| row_of(rs[x], cols)));
        assert(out@ =~= table_of(rs, cols));
    }
    out
}

/// The record one document contributes: its flattened pairs as a map,
/// with the canonical date written over any flattened `date` key; a
/// document whose root is not a mapping contributes none.
pub open spec fn record_of(fm: Frontmatter) -> Option<Map<Seq<char>, Seq<char>>> {
    match fm.yaml {
        Node::Mapping(es) => Some(
            map_of_pairs(flatten_entries(Seq::empty(), es@)).insert("date"@, fm.date.canonical()),
        ),
        _ => None,
    }
}

/// The records of a batch, in order, one per document that contributes.
pub open spec fn records_of(fms: Seq<Frontmatter>) -> Seq<Map<Seq<char>, Seq<char>>>
    decreases fms.len(),
{
    if fms.len() == 0 {
        Seq::empty()
    } else {
        records_of(fms.drop_last()) + match record_of(fms.last()) {
            Some(m) => seq![m],
            None => Seq::<Map<Seq<char>, Seq<char>>>::empty(),
        }
    }
}

/// Flattens every document of a batch into a record, dropping documents
/// whose root is not a mapping, and computes the condensed column order.
pub fn process_frontmatters(fms: &Vec<Frontmatter>) -> (r: (Vec<FlatRecord>, Vec<String>))
    ensures
        maps_view(r.0@) == records_of(fms@),
        condensed_columns(records_of(fms@), strings_view(r.1@)),
{
    let mut flattened: Vec<FlatRecord> = Vec::new();
    let mut i: usize = 0;
    proof {
        assert(maps_view(flattened@) =~= records_of(fms@.subrange(0, 0)));
    }
    while i < fms.len()
        invariant
            0 <= i <= fms.len(),
            maps_view(flattened@) == records_of(fms@.subrange(0, i as int)),
        decreases fms.len() - i,
    {
        let ghost done = fms@.subrange(0, i as int);
        let ghost next = fms@.subrange(0, i + 1 as int);
        proof {
            assert(next.drop_last() =~= done);
            assert(next.last() == fms@[i as int]);
        }
        match flatten_yaml(None, &fms[i].yaml) {
            Some(fl) => {
                let mut hash = kv_to_hash(fl);
                hash.insert(String::from_str("date"), fms[i].date.to_string());
                let ghost before = maps_view(flattened@);
                let ghost hv = hash@;
                flattened.push(hash);
                proof {
                    assert(maps_view(flattened@) =~= before.push(hv));
                    assert(maps_view(flattened@) =~= records_of(next));
                }
            },
            None => {
                proof {
                    assert(records_of(next) =~= records_of(done));
                }
            },
        }
        i = i + 1;
    }
    proof {
        assert(fms@.subrange(0, fms@.len() as int) =~= fms@);
    }
    let keys = condense_keys(&flattened);
    (flattened, keys)
}

/// Renders a batch of documents as one table: flatten each, condense the
/// columns once, render header and rows.
pub fn to_csv(fms: &Vec<Frontmatter>) -> (r: String)
    ensures
        exists|cols: Seq<Seq<char>>|
            #![auto]
            condensed_columns(records_of(fms@), cols) && r@ == table_of(records_of(fms@), cols),
{
    let (flattened, keys) = process_frontmatters(fms);
    let out = render(&flattened, &keys);
    proof {
        assert(condensed_columns(records_of(fms@), strings_view(keys@)) && out@ == table_of(
            records_of(fms@),
            strings_view(keys@),
        ));
    }
    out
}

/// Whether one date sorts no later than another.
pub open spec fn date_le(a: crate::date::Date, b: crate::date::Date) -> bool {
    spec_cmp(a, b) != Ordering::Greater
}

/// Whether a batch is in ascending date order.
pub open spec fn sorted_by_date(fms: Seq<Frontmatter>) -> bool {
    forall|i: int, j: int|
        0 <= i < j < fms.len() ==> date_le(#[trigger] fms[i].date, #[trigger] fms[j].date)
}

/// Sorts a batch into ascending date order.
pub fn sort_by_date(fms: Vec<Frontmatter>) -> (r: Vec<Frontmatter>)
    ensures
        sorted_by_date(r@),
        r@.to_multiset() == fms@.to_multiset(),
{
    let ghost orig = fms@;
    let mut rest = fms;
    let mut out: Vec<Frontmatter> = Vec::new();
    while rest.len() > 0
        invariant
            out@.to_multiset().add(rest@.to_multiset()) == orig.to_multiset(),
            sorted_by_date(out@),
            forall|x: int, y: int|
                0 <= x < out@.len() && 0 <= y < rest@.len() ==> date_le(
                    #[trigger] out@[x].date,
                    #[trigger] rest@[y].date,
                ),
        decreases rest.len(),
    {
        let mut mi: usize = 0;
        let mut k: usize = 1;
        while k < rest.len()
            invariant
                0 < rest@.len(),
                0 <= mi < k <= rest@.len(),
                forall|m: int| 0 <= m < k ==> date_le(rest@[mi as int].date, #[trigger] rest@[m].date),
            decreases rest.len() - k,
        {
            let c = rest[k].date.cmp(&rest[mi].date);
            let less = match c {
                Ordering::Less => true,
                _ => false,
            };
            if less {
                mi = k;
            }
            k = k + 1;
        }
        let ghost before = rest@;
        let x = rest.remove(mi);
        let ghost outb = out@;
        out.push(x);
        proof {
            assert(out@ =~= outb.push(x));
            assert(before.contains(x)) by {
                assert(before[mi as int] == x);
            }
            assert(rest@ == before.remove(mi as int));
            assert(rest@.to_multiset() == before.to_multiset().remove(x));
            assert(out@.to_multiset() == outb.to_multiset().insert(x));
            assert(out@.to_multiset().add(rest@.to_multiset()) =~= orig.to_multiset());
            assert(forall|m: int|
                0 <= m < mi ==> #[trigger] rest@[m] == before[m]);
            assert(forall|m: int|
                mi <= m < rest@.len() ==> #[trigger] rest@[m] == before[m + 1]);
        }
    }
    out
}

/// The frontmatter one document yields: the document keeps its path and
/// its tree and takes the resolved date; with no resolvable date it
/// yields none.
pub open spec fn fm_of(doc: (Node, String, String)) -> Option<Frontmatter> {
    match spec_resolve_date(doc.0, doc.1@) {
        Some(d) => Some(Frontmatter { path: doc.2, yaml: doc.0, date: d }),
        None => None,
    }
}

/// The frontmatters of a batch of documents, in input order, documents
/// with no resolvable date dropped.
pub open spec fn fms_of(docs: Seq<(Node, String, String)>) -> Seq<Frontmatter>
    decreases docs.len(),
{
    if docs.len() == 0 {
        Seq::empty()
    } else {
        fms_of(docs.drop_last()) + match fm_of(docs.last()) {
            Some(f) => seq![f],
            None => Seq::<Frontmatter>::empty(),
        }
    }
}

/// The whole pipeline on a batch of (tree, filename, path) documents:
/// resolve each date, drop documents with none, sort ascending by date,
/// flatten, condense columns once, and render the table.
pub fn process_batch(documents: Vec<(Node, String, String)>) -> (r: String)
    ensures
        exists|fms: Seq<Frontmatter>, cols: Seq<Seq<char>>|
            #![auto]
            {
                &&& fms.to_multiset() == fms_of(documents@).to_multiset()
                &&& sorted_by_date(fms)
                &&& condensed_columns(records_of(fms), cols)
                &&& r@ == table_of(records_of(fms), cols)
            },
{
    let ghost orig = documents@;
    let mut docs = documents;
    let mut fms: Vec<Frontmatter> = Vec::new();
    let mut taken: usize = 0;
    let total: usize = docs.len();
    proof {
        assert(fms@ =~= fms_of(orig.subrange(0, 0)));
        assert(docs@ =~= orig.skip(0));
        assert(orig.len() == total);
    }
    while docs.len() > 0
        invariant
            0 <= taken <= orig.len(),
            orig.len() <= usize::MAX,
            docs@ == orig.skip(taken as int),
            fms@ == fms_of(orig.subrange(0, taken as int)),
        decreases docs.len(),
    {
        let ghost done = orig.subrange(0, taken as int);
        let ghost next = orig.subrange(0, taken + 1 as int);
        proof {
            assert(next.drop_last() =~= done);
            assert(next.last() == orig[taken as int]);
            assert(docs@[0] == orig[taken as int]);
            assert(docs@.remove(0) =~= orig.skip(taken + 1 as int));
        }
        let doc = docs.remove(0);
        let (yaml, filename, path) = doc;
        match resolve_date(&yaml, filename.as_str()) {
            Some(d) => {
                let ghost fmsb = fms@;
                fms.push(Frontmatter { path, yaml, date: d });
                proof {
                    assert(fms@ =~= fms_of(next));
                }
            },
            None => {
                proof {
                    assert(fms_of(next) =~= fms_of(done));
                }
            },
        }
        taken = taken + 1;
    }
    proof {
        assert(orig.subrange(0, orig.len() as int) =~= orig);
    }
    let sorted = sort_by_date(fms);
    let out = to_csv(&sorted);
    proof {
        assert(sorted@.to_multiset() == fms_of(documents@).to_multiset() && sorted_by_date(
            sorted@,
        ));
    }
    out
}

} // verus!
