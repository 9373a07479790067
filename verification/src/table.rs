//! The per-architecture system call table: ingestion of tab-separated rows
//! and bidirectional lookup between names and numbers.

use crate::text::{
    find_from, first_index, lemma_first_index, lower, lower_eq, parse_u64, parse_u64_str, str_eq,
    trim, trim_str,
};
use vstd::prelude::*;

verus! {

/// The entry a table row yields: its first field, trimmed, is the system
/// call name; its second field, trimmed, must parse as an unsigned 64-bit
/// number. A row without a second field, or whose second field does not
/// parse, yields nothing and is dropped. Further fields are ignored.
pub open spec fn row_entry(line: Seq<char>) -> Option<(Seq<char>, u64)> {
    let t = first_index(line, '\t');
    if t >= line.len() {
        None
    } else {
        let name = trim(line.subrange(0, t));
        let rest = line.subrange(t + 1, line.len() as int);
        let t2 = first_index(rest, '\t');
        let numfield = trim(rest.subrange(0, if t2 < rest.len() {
            t2
        } else {
            rest.len() as int
        }));
        match parse_u64(numfield) {
            Some(n) => Some((name, n)),
            None => None,
        }
    }
}

/// An optional entry as a sequence of zero or one entries.
pub open spec fn opt_entry_seq(e: Option<(Seq<char>, u64)>) -> Seq<(Seq<char>, u64)> {
    match e {
        Some(p) => seq![p],
        None => Seq::empty(),
    }
}

/// Every entry of a table text, in row order: rows are the newline-separated
/// pieces of the text, and rows that yield no entry are dropped.
pub open spec fn entries_of(text: Seq<char>) -> Seq<(Seq<char>, u64)>
    decreases text.len(),
{
    let i = first_index(text, '\n');
    if 0 <= i < text.len() {
        opt_entry_seq(row_entry(text.subrange(0, i))) + entries_of(
            text.subrange(i + 1, text.len() as int),
        )
    } else {
        opt_entry_seq(row_entry(text))
    }
}

/// The number of the last entry whose name equals `key`, if any: on
/// duplicate names the last ingested entry wins.
pub open spec fn lookup_number(s: Seq<(Seq<char>, u64)>, key: Seq<char>) -> Option<u64>
    decreases s.len(),
{
    if s.len() == 0 {
        None
    } else if s.last().0 == key {
        Some(s.last().1)
    } else {
        lookup_number(s.drop_last(), key)
    }
}

/// The name of the last entry whose number equals `number`, if any: on
/// duplicate numbers the last ingested entry wins.
pub open spec fn lookup_name(s: Seq<(Seq<char>, u64)>, number: u64) -> Option<Seq<char>>
    decreases s.len(),
{
    if s.len() == 0 {
        None
    } else if s.last().1 == number {
        Some(s.last().0)
    } else {
        lookup_name(s.drop_last(), number)
    }
}

/// Whether no two entries share a name.
pub open spec fn unique_names(s: Seq<(Seq<char>, u64)>) -> bool {
    forall|i: int, j: int| 0 <= i < j < s.len() ==> s[i].0 != s[j].0
}

/// `s` without every entry named `nm`, order kept.
pub open spec fn remove_name(s: Seq<(Seq<char>, u64)>, nm: Seq<char>) -> Seq<(Seq<char>, u64)>
    decreases s.len(),
{
    if s.len() == 0 {
        s
    } else if s.last().0 == nm {
        remove_name(s.drop_last(), nm)
    } else {
        remove_name(s.drop_last(), nm).push(s.last())
    }
}

/// Inserting an entry with last-write-wins: any entry already carrying the
/// same name leaves the table, and the new entry goes to the end.
pub open spec fn upsert(s: Seq<(Seq<char>, u64)>, e: (Seq<char>, u64)) -> Seq<(Seq<char>, u64)> {
    remove_name(s, e.0).push(e)
}

/// The table a sequence of parsed rows builds, row by row: on duplicate
/// names the last row wins, and the superseded entry is gone.
pub open spec fn table_of(rows: Seq<(Seq<char>, u64)>) -> Seq<(Seq<char>, u64)>
    decreases rows.len(),
{
    if rows.len() == 0 {
        rows
    } else {
        upsert(table_of(rows.drop_last()), rows.last())
    }
}

/// Removing a name that no entry carries changes nothing.
pub proof fn lemma_remove_name_absent(s: Seq<(Seq<char>, u64)>, nm: Seq<char>)
    requires
        forall|j: int| 0 <= j < s.len() ==> (#[trigger] s[j]).0 != nm,
    ensures
        remove_name(s, nm) == s,
    decreases s.len(),
{
    if s.len() > 0 {
        assert(s.last() == s[s.len() - 1]);
        assert(forall|j: int| 0 <= j < s.len() - 1 ==> (#[trigger] s.drop_last()[j]) == s[j]);
        lemma_remove_name_absent(s.drop_last(), nm);
        assert(s.drop_last().push(s.last()) =~= s);
    }
}

/// When exactly one entry carries the name, removing the name removes that
/// entry alone.
pub proof fn lemma_remove_name_at(s: Seq<(Seq<char>, u64)>, nm: Seq<char>, i: int)
    requires
        0 <= i < s.len(),
        s[i].0 == nm,
        forall|j: int| 0 <= j < s.len() && j != i ==> (#[trigger] s[j]).0 != nm,
    ensures
        remove_name(s, nm) == s.remove(i),
    decreases s.len(),
{
    assert(s.last() == s[s.len() - 1]);
    assert(forall|j: int| 0 <= j < s.len() - 1 ==> (#[trigger] s.drop_last()[j]) == s[j]);
    if i == s.len() - 1 {
        lemma_remove_name_absent(s.drop_last(), nm);
        assert(s.remove(i) =~= s.drop_last());
    } else {
        lemma_remove_name_at(s.drop_last(), nm, i);
        assert(s.remove(i) =~= s.drop_last().remove(i).push(s.last()));
    }
}

/// Upserting into a table of unique names keeps the names unique, and the
/// new entry's name occurs exactly once, at the end.
pub proof fn lemma_upsert_unique(s: Seq<(Seq<char>, u64)>, e: (Seq<char>, u64))
    requires
        unique_names(s),
    ensures
        unique_names(upsert(s, e)),
        forall|j: int|
            0 <= j < upsert(s, e).len() - 1 ==> (#[trigger] upsert(s, e)[j]).0 != e.0,
        upsert(s, e).last() == e,
{
    let r = remove_name(s, e.0);
    if exists|i: int| 0 <= i < s.len() && (#[trigger] s[i]).0 == e.0 {
        let i = choose|i: int| 0 <= i < s.len() && (#[trigger] s[i]).0 == e.0;
        assert forall|j: int| 0 <= j < s.len() && j != i implies (#[trigger] s[j]).0 != e.0 by {
            if s[j].0 == e.0 {
                if j < i {
                    assert(s[j].0 != s[i].0);
                } else {
                    assert(s[i].0 != s[j].0);
                }
            }
        }
        lemma_remove_name_at(s, e.0, i);
        s.remove_ensures(i);
    } else {
        assert forall|j: int| 0 <= j < s.len() implies (#[trigger] s[j]).0 != e.0 by {
            if s[j].0 == e.0 {
                assert(exists|i: int| 0 <= i < s.len() && (#[trigger] s[i]).0 == e.0);
            }
        }
        lemma_remove_name_absent(s, e.0);
    }
    assert forall|a: int, b: int| 0 <= a < b < r.push(e).len() implies r.push(e)[a].0 != r.push(
        e,
    )[b].0 by {
        if b < r.len() {
            assert(r.push(e)[a] == r[a]);
            assert(r.push(e)[b] == r[b]);
        } else {
            assert(r.push(e)[b] == e);
        }
    }
}

/// An ingested table holds no two entries with the same name: last write
/// wins during ingestion, so names are unique.
pub proof fn lemma_table_of_unique(rows: Seq<(Seq<char>, u64)>)
    ensures
        unique_names(table_of(rows)),
    decreases rows.len(),
{
    if rows.len() > 0 {
        lemma_table_of_unique(rows.drop_last());
        lemma_upsert_unique(table_of(rows.drop_last()), rows.last());
    }
}

/// The entries that a vector of rows stands for.
pub open spec fn entries_view(v: Seq<(String, u64)>) -> Seq<(Seq<char>, u64)> {
    v.map_values(|e: (String, u64)| (e.0@, e.1))
}

/// A system call table for one architecture: the (name, number) entries in
/// ingestion order, names unique — on a duplicate name the last ingested
/// row wins and the superseded entry is dropped. Numbers may still repeat
/// across names; there, lookup by number resolves to the last ingested
/// entry.
pub struct Syscalls {
    entries: Vec<(String, u64)>,
}

impl View for Syscalls {
    type V = Seq<(Seq<char>, u64)>;

    closed spec fn view(&self) -> Seq<(Seq<char>, u64)> {
        entries_view(self.entries@)
    }
}

/// Parses one table row, yielding exactly the entry `row_entry` gives it.
pub fn parse_row(line: &str) -> (r: Option<(String, u64)>)
    ensures
        match r {
            Some(p) => row_entry(line@) == Some((p.0@, p.1)),
            None => row_entry(line@) is None,
        },
{
    let len = line.unicode_len();
    let t = find_from(line, 0, '\t');
    proof {
        assert(line@.subrange(0, line@.len() as int) =~= line@);
        lemma_first_index(line@, '\t');
    }
    if t == len {
        return None;
    }
    let name_raw = line.substring_char(0, t);
    let name_trimmed = trim_str(name_raw);
    let ghost rest = line@.subrange(t + 1, line@.len() as int);
    let t2 = find_from(line, t + 1, '\t');
    proof {
        lemma_first_index(rest, '\t');
        let ti = first_index(rest, '\t');
        if ti < rest.len() {
            assert(line@.subrange(t + 1, t2 as int) =~= rest.subrange(0, ti));
        } else {
            assert(line@.subrange(t + 1, t2 as int) =~= rest.subrange(0, rest.len() as int));
        }
    }
    let num_raw = line.substring_char(t + 1, t2);
    let num_trimmed = trim_str(num_raw);
    match parse_u64_str(num_trimmed) {
        Some(n) => {
            let name = name_trimmed.to_owned();
            Some((name, n))
        },
        None => None,
    }
}

/// Inserts a parsed row with last-write-wins: the entry already carrying
/// the same name, if any, leaves the vector, and the new entry goes to the
/// end.
fn upsert_row(entries: &mut Vec<(String, u64)>, name: String, number: u64)
    requires
        unique_names(entries_view(old(entries)@)),
    ensures
        entries_view(final(entries)@) == upsert(entries_view(old(entries)@), (name@, number)),
{
    let ghost s = entries_view(entries@);
    let n = entries.len();
    let mut k: usize = 0;
    while k < n
        invariant
            k <= n,
            n == entries.len(),
            entries@ == old(entries)@,
            s == entries_view(entries@),
            unique_names(s),
            forall|j: int| 0 <= j < k ==> (#[trigger] s[j]).0 != name@,
        decreases n - k,
    {
        if str_eq(entries[k].0.as_str(), name.as_str()) {
            proof {
                assert(s[k as int].0 == name@);
                assert forall|j: int| 0 <= j < s.len() && j != k implies (#[trigger] s[j]).0
                    != name@ by {
                    if s[j].0 == name@ {
                        if j < k {
                            assert(s[j].0 != s[k as int].0);
                        } else {
                            assert(s[k as int].0 != s[j].0);
                        }
                    }
                }
                lemma_remove_name_at(s, name@, k as int);
            }
            entries.remove(k);
            proof {
                assert(entries_view(entries@) =~= s.remove(k as int));
            }
            entries.push((name, number));
            proof {
                assert(entries_view(entries@) =~= s.remove(k as int).push((name@, number)));
            }
            return;
        }
        k += 1;
    }
    proof {
        lemma_remove_name_absent(s, name@);
    }
    entries.push((name, number));
    proof {
        assert(entries_view(entries@) =~= s.push((name@, number)));
    }
}

impl Syscalls {
    /// The table with no entries.
    pub fn new() -> (t: Syscalls)
        ensures
            t@ == Seq::<(Seq<char>, u64)>::empty(),
    {
        let t = Syscalls { entries: Vec::new() };
        proof {
            assert(t@ =~= Seq::<(Seq<char>, u64)>::empty());
        }
        t
    }

    /// Ingests one architecture's table text: the result holds exactly the
    /// entries of that text, in row order, with last write winning on
    /// duplicate names — a superseded entry is gone in both directions — so
    /// the table's names are unique.
    pub fn from_table_text(text: &str) -> (t: Syscalls)
        ensures
            t@ == table_of(entries_of(text@)),
            unique_names(t@),
    {
        let len = text.unicode_len();
        let mut entries: Vec<(String, u64)> = Vec::new();
        let mut pos: usize = 0;
        let mut done: bool = false;
        let ghost mut rows_done: Seq<(Seq<char>, u64)> = Seq::empty();
        proof {
            assert(entries_view(entries@) =~= Seq::<(Seq<char>, u64)>::empty());
            assert(text@.subrange(0, len as int) =~= text@);
        }
        while !done
            invariant
                pos <= len,
                len == text@.len(),
                !done ==> rows_done + entries_of(text@.subrange(pos as int, len as int))
                    == entries_of(text@),
                done ==> rows_done == entries_of(text@),
                entries_view(entries@) == table_of(rows_done),
                unique_names(entries_view(entries@)),
            decreases len - pos + (if done {
                0int
            } else {
                1int
            }),
        {
            let ghost rem = text@.subrange(pos as int, len as int);
            let e = find_from(text, pos, '\n');
            proof {
                lemma_first_index(rem, '\n');
            }
            let line = text.substring_char(pos, e);
            proof {
                assert(line@ =~= rem.subrange(0, e - pos));
                if e - pos == rem.len() {
                    assert(line@ =~= rem);
                }
            }
            let ghost before = rows_done;
            match parse_row(line) {
                Some(p) => {
                    let ghost pv = (p.0@, p.1);
                    upsert_row(&mut entries, p.0, p.1);
                    proof {
                        lemma_upsert_unique(table_of(rows_done), pv);
                        rows_done = rows_done.push(pv);
                        assert(rows_done.drop_last() =~= rows_done.subrange(
                            0,
                            rows_done.len() - 1,
                        ));
                        assert(rows_done.drop_last() =~= before);
                        assert(entries_view(entries@) == table_of(rows_done));
                        assert(rows_done =~= before + opt_entry_seq(row_entry(line@)));
                    }
                },
                None => {
                    proof {
                        assert(rows_done =~= before + opt_entry_seq(row_entry(line@)));
                    }
                },
            }
            proof {
                if e < len {
                    assert(rem.subrange(e - pos + 1, rem.len() as int) =~= text@.subrange(
                        e + 1,
                        len as int,
                    ));
                    assert(entries_of(rem) == opt_entry_seq(row_entry(line@)) + entries_of(
                        text@.subrange(e + 1, len as int),
                    ));
                    vstd::seq_lib::lemma_concat_associative(
                        before,
                        opt_entry_seq(row_entry(line@)),
                        entries_of(text@.subrange(e + 1, len as int)),
                    );
                } else {
                    assert(first_index(rem, '\n') == rem.len());
                    assert(entries_of(rem) == opt_entry_seq(row_entry(line@)));
                }
            }
            if e == len {
                done = true;
            } else {
                pos = e + 1;
            }
        }
        let t = Syscalls { entries };
        t
    }

    /// Looks a system call number up by name. The query is lowered first —
    /// ASCII case folding only, `A`-`Z` to `a`-`z` — so the lookup is
    /// case-insensitive against the stored (by convention lowercase) names.
    /// Returns nothing exactly when no entry's name matches the lowered
    /// query.
    pub fn number(&self, name: &str) -> (r: Option<u64>)
        ensures
            r == lookup_number(self@, lower(name@)),
    {
        let ghost key = lower(name@);
        let mut i = self.entries.len();
        proof {
            assert(self@.subrange(0, i as int) =~= self@);
        }
        while i > 0
            invariant
                i <= self.entries.len(),
                key == lower(name@),
                lookup_number(self@, key) == lookup_number(self@.subrange(0, i as int), key),
            decreases i,
        {
            i -= 1;
            let ghost sub = self@.subrange(0, i + 1);
            proof {
                assert(sub.last() == self@[i as int]);
                assert(sub.drop_last() =~= self@.subrange(0, i as int));
            }
            if lower_eq(name, self.entries[i].0.as_str()) {
                return Some(self.entries[i].1);
            }
        }
        proof {
            assert(self@.subrange(0, 0) =~= Seq::<(Seq<char>, u64)>::empty());
        }
        None
    }

    /// Looks a system call name up by number, returning a reference to the
    /// stored name; on duplicate numbers the last ingested entry wins.
    /// Returns nothing exactly when no entry's number matches.
    pub fn name<'a>(&'a self, number: &u64) -> (r: Option<&'a str>)
        ensures
            match r {
                Some(n) => lookup_name(self@, *number) == Some(n@),
                None => lookup_name(self@, *number) is None,
            },
    {
        let mut i = self.entries.len();
        proof {
            assert(self@.subrange(0, i as int) =~= self@);
        }
        while i > 0
            invariant
                i <= self.entries.len(),
                lookup_name(self@, *number) == lookup_name(self@.subrange(0, i as int), *number),
            decreases i,
        {
            i -= 1;
            let ghost sub = self@.subrange(0, i + 1);
            proof {
                assert(sub.last() == self@[i as int]);
                assert(sub.drop_last() =~= self@.subrange(0, i as int));
            }
            if self.entries[i].1 == *number {
                return Some(self.entries[i].0.as_str());
            }
        }
        proof {
            assert(self@.subrange(0, 0) =~= Seq::<(Seq<char>, u64)>::empty());
        }
        None
    }

    /// How many entries the table holds, duplicates included.
    pub fn len(&self) -> (n: usize)
        ensures
            n == self@.len(),
    {
        self.entries.len()
    }
}

/// Absence is a definite answer: a lookup yields nothing exactly when no
/// entry carries the queried name (respectively number).
pub proof fn lemma_absent(s: Seq<(Seq<char>, u64)>, key: Seq<char>, number: u64)
    ensures
        (lookup_number(s, key) is None) <==> (forall|j: int|
            0 <= j < s.len() ==> (#[trigger] s[j]).0 != key),
        (lookup_name(s, number) is None) <==> (forall|j: int|
            0 <= j < s.len() ==> (#[trigger] s[j]).1 != number),
    decreases s.len(),
{
    if s.len() > 0 {
        lemma_absent(s.drop_last(), key, number);
        assert(s.last() == s[s.len() - 1]);
        assert(forall|j: int| 0 <= j < s.len() - 1 ==> (#[trigger] s.drop_last()[j]) == s[j]);
        assert(forall|j: int| 0 <= j < s.len() - 1 ==> (#[trigger] s[j]) == s.drop_last()[j]);
    }
}

/// If exactly one entry carries `key` as its name, looking the name up finds
/// that entry's number.
pub proof fn lemma_lookup_number_unique(s: Seq<(Seq<char>, u64)>, key: Seq<char>, i: int)
    requires
        0 <= i < s.len(),
        s[i].0 == key,
        forall|j: int| 0 <= j < s.len() && j != i ==> (#[trigger] s[j]).0 != key,
    ensures
        lookup_number(s, key) == Some(s[i].1),
    decreases s.len(),
{
    assert(s.last() == s[s.len() - 1]);
    if i < s.len() - 1 {
        assert(forall|j: int| 0 <= j < s.len() - 1 ==> (#[trigger] s.drop_last()[j]) == s[j]);
        lemma_lookup_number_unique(s.drop_last(), key, i);
    }
}

/// If exactly one entry carries `number`, looking the number up finds that
/// entry's name.
pub proof fn lemma_lookup_name_unique(s: Seq<(Seq<char>, u64)>, number: u64, i: int)
    requires
        0 <= i < s.len(),
        s[i].1 == number,
        forall|j: int| 0 <= j < s.len() && j != i ==> (#[trigger] s[j]).1 != number,
    ensures
        lookup_name(s, number) == Some(s[i].0),
    decreases s.len(),
{
    assert(s.last() == s[s.len() - 1]);
    if i < s.len() - 1 {
        assert(forall|j: int| 0 <= j < s.len() - 1 ==> (#[trigger] s.drop_last()[j]) == s[j]);
        lemma_lookup_name_unique(s.drop_last(), number, i);
    }
}

/// Bijection round trip: an entry whose stored name is lowercase and whose
/// name and number are each unique within the table is found in both
/// directions, so looking up its name yields its number and looking up that
/// number yields the name back.
pub proof fn lemma_round_trip(s: Seq<(Seq<char>, u64)>, i: int)
    requires
        0 <= i < s.len(),
        lower(s[i].0) == s[i].0,
        forall|j: int| 0 <= j < s.len() && j != i ==> (#[trigger] s[j]).0 != s[i].0,
        forall|j: int| 0 <= j < s.len() && j != i ==> (#[trigger] s[j]).1 != s[i].1,
    ensures
        lookup_number(s, lower(s[i].0)) == Some(s[i].1),
        lookup_name(s, s[i].1) == Some(s[i].0),
{
    lemma_lookup_number_unique(s, s[i].0, i);
    lemma_lookup_name_unique(s, s[i].1, i);
}

/// Case insensitivity: two queries that agree up to ASCII case resolve to
/// the same number, whatever the table holds.
pub proof fn lemma_case_insensitive(s: Seq<(Seq<char>, u64)>, a: Seq<char>, b: Seq<char>)
    requires
        lower(a) == lower(b),
    ensures
        lookup_number(s, lower(a)) == lookup_number(s, lower(b)),
{
}

/// Membership: when no two entries share a name, looking a name up yields a
/// number exactly when the table holds that (name, number) pair.
pub proof fn lemma_lookup_number_contains(s: Seq<(Seq<char>, u64)>, key: Seq<char>, n: u64)
    requires
        unique_names(s),
    ensures
        (lookup_number(s, key) == Some(n)) <==> (exists|i: int|
            0 <= i < s.len() && (#[trigger] s[i]).0 == key && s[i].1 == n),
    decreases s.len(),
{
    if s.len() > 0 {
        assert(s.last() == s[s.len() - 1]);
        assert(forall|j: int| 0 <= j < s.len() - 1 ==> (#[trigger] s.drop_last()[j]) == s[j]);
        lemma_lookup_number_contains(s.drop_last(), key, n);
        if s.last().0 == key {
            if exists|i: int| 0 <= i < s.len() && (#[trigger] s[i]).0 == key && s[i].1 == n {
                let i = choose|i: int|
                    0 <= i < s.len() && (#[trigger] s[i]).0 == key && s[i].1 == n;
                assert(i == s.len() - 1) by {
                    if i < s.len() - 1 {
                        assert(s[i].0 != s[s.len() - 1].0);
                    }
                }
            }
        } else {
            assert forall|i: int|
                0 <= i < s.len() && (#[trigger] s[i]).0 == key && s[i].1
                    == n implies exists|j: int|
                0 <= j < s.drop_last().len() && (#[trigger] s.drop_last()[j]).0 == key
                    && s.drop_last()[j].1 == n by {
                assert(i < s.len() - 1);
                assert(s.drop_last()[i] == s[i]);
            }
        }
    }
}

/// Bijection round trip for an ingested table: ingestion makes names unique,
/// so any entry stored lowercase whose number is unique is found in both
/// directions — its name yields its number, and that number yields the name
/// back.
pub proof fn lemma_round_trip_ingested(rows: Seq<(Seq<char>, u64)>, i: int)
    requires
        0 <= i < table_of(rows).len(),
        lower(table_of(rows)[i].0) == table_of(rows)[i].0,
        forall|j: int|
            0 <= j < table_of(rows).len() && j != i ==> (#[trigger] table_of(rows)[j]).1
                != table_of(rows)[i].1,
    ensures
        lookup_number(table_of(rows), lower(table_of(rows)[i].0)) == Some(table_of(rows)[i].1),
        lookup_name(table_of(rows), table_of(rows)[i].1) == Some(table_of(rows)[i].0),
{
    lemma_table_of_unique(rows);
    let s = table_of(rows);
    assert forall|j: int| 0 <= j < s.len() && j != i implies (#[trigger] s[j]).0 != s[i].0 by {
        if s[j].0 == s[i].0 {
            if j < i {
                assert(s[j].0 != s[i].0);
            } else {
                assert(s[i].0 != s[j].0);
            }
        }
    }
    lemma_round_trip(s, i);
}

} // verus!

