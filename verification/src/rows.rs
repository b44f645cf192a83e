//! The selector engine: pure derivation of display rows from the entries
//! mapping and the current query.
//!
//! The derivation filters entries whose key contains the trimmed query,
//! collects one section heading per distinct first character of the
//! surviving keys, and sorts headings and data rows together by their
//! lower-cased textual identity, ascending by code point. Headings are
//! rendered upper-case last, so a heading sorts at the front of its group.

use vstd::prelude::*;
use vstd::string::StrSliceExecFns;

use crate::chars::lex_leq;
use crate::chars::lex_lt;
use crate::chars::lemma_lex_total;
use crate::chars::lemma_lex_transitive;
use crate::chars::lower_char;
use crate::chars::lower_seq;
use crate::chars::lower_string;
use crate::chars::str_leq;
use crate::chars::upper_char;
use crate::state::Entry;
use crate::state::EntryModel;
use crate::state::entries_view;
use crate::state::nonempty_keys;

verus! {

/// One derived display row: a section heading or a data entry.
#[derive(Debug, PartialEq, Eq)]
pub enum RowVariant {
    Heading(char),
    Data(String, String),
}

/// The mathematical model of a row.
#[verifier::ext_equal]
pub enum RowModel {
    Heading(char),
    Data(Seq<char>, Seq<char>),
}

impl View for RowVariant {
    type V = RowModel;

    open spec fn view(&self) -> RowModel {
        match self {
            RowVariant::Heading(c) => RowModel::Heading(*c),
            RowVariant::Data(k, v) => RowModel::Data(k@, v@),
        }
    }
}

/// The models of a sequence of rows.
pub open spec fn rows_view(rs: Seq<RowVariant>) -> Seq<RowModel> {
    rs.map_values(|r: RowVariant| r@)
}

/// The comparison key of a row: its textual identity, lower-cased.
pub open spec fn row_key(r: RowModel) -> Seq<char> {
    match r {
        RowModel::Heading(c) => seq![lower_char(c)],
        RowModel::Data(k, _) => lower_seq(k),
    }
}

/// The whitespace characters recognized when a query is normalized.
pub open spec fn is_space(c: char) -> bool {
    c == ' ' || c == '\t' || c == '\n' || c == '\r' || c == '\u{b}' || c == '\u{c}'
}

/// The sequence with leading whitespace removed.
pub open spec fn trim_front(s: Seq<char>) -> Seq<char>
    decreases s.len(),
{
    if s.len() > 0 && is_space(s[0]) {
        trim_front(s.drop_first())
    } else {
        s
    }
}

/// The sequence with trailing whitespace removed.
pub open spec fn trim_back(s: Seq<char>) -> Seq<char>
    decreases s.len(),
{
    if s.len() > 0 && is_space(s.last()) {
        trim_back(s.drop_last())
    } else {
        s
    }
}

/// The sequence with surrounding whitespace removed.
pub open spec fn trim(s: Seq<char>) -> Seq<char> {
    trim_back(trim_front(s))
}

proof fn lemma_trim_front_at(s: Seq<char>, k: int)
    requires
        0 <= k <= s.len(),
        forall|j: int| 0 <= j < k ==> is_space(s[j]),
        k == s.len() || !is_space(s[k]),
    ensures
        trim_front(s) == s.skip(k),
    decreases k,
{
    if k == 0 {
        assert(s.skip(0) =~= s);
    } else {
        lemma_trim_front_at(s.drop_first(), k - 1);
        assert(s.drop_first().skip(k - 1) =~= s.skip(k));
    }
}

proof fn lemma_trim_back_at(s: Seq<char>, k: int)
    requires
        0 <= k <= s.len(),
        forall|j: int| k <= j < s.len() ==> is_space(s[j]),
        k == 0 || !is_space(s[k - 1]),
    ensures
        trim_back(s) == s.take(k),
    decreases s.len(),
{
    if s.len() > k {
        lemma_trim_back_at(s.drop_last(), k);
        assert(s.drop_last().take(k) =~= s.take(k));
    } else {
        assert(s.take(k) =~= s);
    }
}

/// Whether the character counts as whitespace for query normalization.
pub fn is_space_char(c: char) -> (r: bool)
    ensures
        r == is_space(c),
{
    c == ' ' || c == '\t' || c == '\n' || c == '\r' || c == '\u{b}' || c == '\u{c}'
}

/// The string with surrounding whitespace removed.
pub fn trim_str<'a>(s: &'a str) -> (t: &'a str)
    ensures
        t@ == trim(s@),
{
    let len = s.unicode_len();
    let mut start: usize = 0;
    while start < len && is_space_char(s.get_char(start))
        invariant
            0 <= start <= len,
            len == s@.len(),
            forall|j: int| 0 <= j < start ==> is_space(s@[j]),
        decreases len - start,
    {
        start += 1;
    }
    let mut end: usize = len;
    while end > start && is_space_char(s.get_char(end - 1))
        invariant
            start <= end <= len,
            len == s@.len(),
            forall|j: int| end <= j < len ==> is_space(s@[j]),
        decreases end,
    {
        end -= 1;
    }
    let t = s.substring_char(start, end);
    proof {
        lemma_trim_front_at(s@, start as int);
        let t1 = s@.skip(start as int);
        lemma_trim_back_at(t1, end - start);
        assert(t1.take(end - start) =~= s@.subrange(start as int, end as int));
    }
    t
}

/// The needle occurs in the haystack starting at position `i`.
pub open spec fn contains_at(hay: Seq<char>, needle: Seq<char>, i: int) -> bool {
    0 <= i && i + needle.len() <= hay.len() && hay.subrange(i, i + needle.len()) == needle
}

/// The needle occurs somewhere in the haystack (case-sensitive).
pub open spec fn contains_seq(hay: Seq<char>, needle: Seq<char>) -> bool {
    exists|i: int| contains_at(hay, needle, i)
}

/// Every sequence contains the empty needle.
pub proof fn lemma_contains_empty(hay: Seq<char>)
    ensures
        contains_seq(hay, Seq::<char>::empty()),
{
    assert(hay.subrange(0, 0) =~= Seq::<char>::empty());
    assert(contains_at(hay, Seq::<char>::empty(), 0));
}

fn match_at(hay: &str, needle: &str, i: usize) -> (r: bool)
    requires
        i + needle@.len() <= hay@.len(),
        hay@.len() <= usize::MAX,
    ensures
        r == contains_at(hay@, needle@, i as int),
{
    let nn = needle.unicode_len();
    let mut j: usize = 0;
    while j < nn
        invariant
            0 <= j <= nn,
            nn == needle@.len(),
            i + nn <= hay@.len(),
            hay@.len() <= usize::MAX,
            forall|m: int| 0 <= m < j ==> hay@[i + m] == needle@[m],
        decreases nn - j,
    {
        if hay.get_char(i + j) != needle.get_char(j) {
            proof {
                assert(hay@.subrange(i as int, i + nn)[j as int] == hay@[i + j]);
            }
            return false;
        }
        j += 1;
    }
    proof {
        assert(hay@.subrange(i as int, i + nn) =~= needle@);
    }
    true
}

/// Whether the needle occurs in the haystack as a contiguous substring,
/// matching case-sensitively.
pub fn str_contains(hay: &str, needle: &str) -> (r: bool)
    ensures
        r == contains_seq(hay@, needle@),
{
    let hn = hay.unicode_len();
    let nn = needle.unicode_len();
    if nn > hn {
        return false;
    }
    if nn == 0 {
        proof {
            assert(needle@ =~= Seq::<char>::empty());
            lemma_contains_empty(hay@);
        }
        return true;
    }
    let mut i: usize = 0;
    while i <= hn - nn
        invariant
            0 < nn <= hn,
            hn == hay@.len(),
            nn == needle@.len(),
            0 <= i <= hn - nn + 1,
            forall|m: int| 0 <= m < i ==> !contains_at(hay@, needle@, m),
        decreases hn - i,
    {
        if match_at(hay, needle, i) {
            return true;
        }
        i += 1;
    }
    false
}

/// Whether an entry survives the query filter: its key contains the
/// normalized query as a substring.
pub open spec fn entry_matches(e: EntryModel, q: Seq<char>) -> bool {
    contains_seq(e.key, q)
}

/// The entries whose key contains the normalized query, in their original
/// order.
pub open spec fn keep_entries(es: Seq<EntryModel>, q: Seq<char>) -> Seq<EntryModel>
    decreases es.len(),
{
    if es.len() == 0 {
        es
    } else if entry_matches(es.last(), q) {
        keep_entries(es.drop_last(), q).push(es.last())
    } else {
        keep_entries(es.drop_last(), q)
    }
}

/// `c` placed into an ascending sequence of distinct characters: kept as is
/// when already present, inserted before the first larger character
/// otherwise.
pub open spec fn insert_letter(c: char, ls: Seq<char>) -> Seq<char>
    decreases ls.len(),
{
    if ls.len() == 0 {
        seq![c]
    } else if ls[0] == c {
        ls
    } else if ls[0] < c {
        seq![ls[0]] + insert_letter(c, ls.drop_first())
    } else {
        seq![c] + ls
    }
}

/// The distinct first characters of the entries' keys, ascending by code
/// point.
pub open spec fn letters_of(es: Seq<EntryModel>) -> Seq<char>
    decreases es.len(),
{
    if es.len() == 0 {
        Seq::empty()
    } else {
        insert_letter(es.last().key[0], letters_of(es.drop_last()))
    }
}

/// The heading row for a letter.
pub open spec fn heading_of(c: char) -> RowModel {
    RowModel::Heading(c)
}

/// The data row for an entry.
pub open spec fn data_row_of(e: EntryModel) -> RowModel {
    RowModel::Data(e.key, e.value)
}

/// One heading row per letter.
pub open spec fn heads_of(ls: Seq<char>) -> Seq<RowModel> {
    ls.map_values(|c: char| heading_of(c))
}

/// One data row per entry.
pub open spec fn datas_of(es: Seq<EntryModel>) -> Seq<RowModel> {
    es.map_values(|e: EntryModel| data_row_of(e))
}

proof fn lemma_rows_view_push(s: Seq<RowVariant>, x: RowVariant)
    ensures
        rows_view(s.push(x)) == rows_view(s).push(x@),
{
    assert(rows_view(s.push(x)) =~~= rows_view(s).push(x@));
}

proof fn lemma_heads_push(ls: Seq<char>, c: char)
    ensures
        heads_of(ls.push(c)) == heads_of(ls).push(heading_of(c)),
{
    assert(heads_of(ls.push(c)) =~~= heads_of(ls).push(heading_of(c)));
}

proof fn lemma_datas_push(es: Seq<EntryModel>, e: EntryModel)
    ensures
        datas_of(es.push(e)) == datas_of(es).push(data_row_of(e)),
{
    assert(datas_of(es.push(e)) =~~= datas_of(es).push(data_row_of(e)));
}

proof fn lemma_upper_push(rs: Seq<RowModel>, r: RowModel)
    ensures
        upper_rows(rs.push(r)) == upper_rows(rs).push(upper_heading(r)),
{
    assert(upper_rows(rs.push(r)) =~~= upper_rows(rs).push(upper_heading(r)));
}

/// A row placed into a sequence, after every row whose comparison key is
/// less than or equal to its own; equal keys keep the earlier row first.
pub open spec fn insert_row(x: RowModel, rs: Seq<RowModel>) -> Seq<RowModel>
    decreases rs.len(),
{
    if rs.len() == 0 {
        seq![x]
    } else if lex_leq(row_key(rs[0]), row_key(x)) {
        seq![rs[0]] + insert_row(x, rs.drop_first())
    } else {
        seq![x] + rs
    }
}

/// The rows sorted by comparison key, ascending; the stable insertion keeps
/// the original order of rows with equal keys.
pub open spec fn sort_rows(rs: Seq<RowModel>) -> Seq<RowModel>
    decreases rs.len(),
{
    if rs.len() == 0 {
        rs
    } else {
        insert_row(rs.last(), sort_rows(rs.drop_last()))
    }
}

/// A heading rendered upper-case; data rows are unchanged.
pub open spec fn upper_heading(r: RowModel) -> RowModel {
    match r {
        RowModel::Heading(c) => RowModel::Heading(upper_char(c)),
        _ => r,
    }
}

/// Every heading rendered upper-case.
pub open spec fn upper_rows(rs: Seq<RowModel>) -> Seq<RowModel> {
    rs.map_values(|r: RowModel| upper_heading(r))
}

/// The full derivation: filter by the trimmed query, build headings and
/// data rows, sort the combined sequence by comparison key, and render
/// headings upper-case.
pub open spec fn spec_derive_rows(es: Seq<EntryModel>, q: Seq<char>) -> Seq<RowModel> {
    let kept = keep_entries(es, trim(q));
    upper_rows(sort_rows(heads_of(letters_of(kept)) + datas_of(kept)))
}

proof fn lemma_insert_letter_at(c: char, ls: Seq<char>, j: int)
    requires
        0 <= j <= ls.len(),
        forall|m: int| 0 <= m < j ==> ls[m] != c && ls[m] < c,
        j == ls.len() || ls[j] == c || c < ls[j],
    ensures
        insert_letter(c, ls) == if j < ls.len() && ls[j] == c {
            ls
        } else {
            ls.subrange(0, j) + seq![c] + ls.skip(j)
        },
    decreases j,
{
    if j == 0 {
        if ls.len() == 0 || !(ls[0] == c) {
            assert(insert_letter(c, ls) =~= ls.subrange(0, 0) + seq![c] + ls.skip(0));
        }
    } else {
        lemma_insert_letter_at(c, ls.drop_first(), j - 1);
        if j < ls.len() && ls[j] == c {
            assert(ls =~= seq![ls[0]] + ls.drop_first());
        } else {
            assert(insert_letter(c, ls) =~= ls.subrange(0, j) + seq![c] + ls.skip(j));
        }
    }
}

/// Places the letter into the ascending, duplicate-free letter list.
fn insert_letter_vec(c: char, ls: &mut Vec<char>)
    ensures
        final (ls)@ == insert_letter(c, old(ls)@),
{
    let n = ls.len();
    let mut j: usize = 0;
    while j < n
        invariant
            0 <= j <= n,
            n == ls@.len(),
            ls == old(ls),
            forall|m: int| 0 <= m < j ==> ls@[m] != c && ls@[m] < c,
        decreases n - j,
    {
        let cur = ls[j];
        if cur == c {
            proof {
                lemma_insert_letter_at(c, ls@, j as int);
            }
            return ;
        }
        if c < cur {
            let ghost ls0 = ls@;
            ls.insert(j, c);
            proof {
                lemma_insert_letter_at(c, ls0, j as int);
                assert(ls@ =~= ls0.subrange(0, j as int) + seq![c] + ls0.skip(j as int));
            }
            return ;
        }
        j += 1;
    }
    let ghost ls0 = ls@;
    ls.push(c);
    proof {
        lemma_insert_letter_at(c, ls0, ls0.len() as int);
        assert(ls@ =~= ls0.subrange(0, ls0.len() as int) + seq![c] + ls0.skip(ls0.len() as int));
    }
}

/// The textual identity a row is compared by, lower-cased: the heading's
/// letter, or the data row's key.
pub fn get_row_variant_key(value: &RowVariant) -> (k: String)
    ensures
        k@ == row_key(value@),
{
    match value {
        RowVariant::Heading(x) => {
            let mut s = String::new();
            s.push(x.to_ascii_lowercase());
            proof {
                assert(s@ =~= seq![lower_char(*x)]);
            }
            s
        },
        RowVariant::Data(x, _) => lower_string(x.as_str()),
    }
}

fn row_leq(a: &RowVariant, b: &RowVariant) -> (r: bool)
    ensures
        r == lex_leq(row_key(a@), row_key(b@)),
{
    let ka = get_row_variant_key(a);
    let kb = get_row_variant_key(b);
    str_leq(ka.as_str(), kb.as_str())
}

proof fn lemma_insert_row_at(x: RowModel, rs: Seq<RowModel>, j: int)
    requires
        0 <= j <= rs.len(),
        forall|m: int| 0 <= m < j ==> lex_leq(row_key(rs[m]), row_key(x)),
        j == rs.len() || !lex_leq(row_key(rs[j]), row_key(x)),
    ensures
        insert_row(x, rs) == rs.subrange(0, j) + seq![x] + rs.skip(j),
    decreases j,
{
    if j == 0 {
        assert(insert_row(x, rs) =~= rs.subrange(0, 0) + seq![x] + rs.skip(0));
    } else {
        lemma_insert_row_at(x, rs.drop_first(), j - 1);
        assert(insert_row(x, rs) =~= rs.subrange(0, j) + seq![x] + rs.skip(j));
    }
}

fn scan_row_pos(x: &RowVariant, rs: &Vec<RowVariant>) -> (j: usize)
    ensures
        0 <= j <= rs@.len(),
        forall|m: int| 0 <= m < j ==> lex_leq(row_key(#[trigger] rows_view(rs@)[m]), row_key(x@)),
        j < rs@.len() ==> !lex_leq(row_key(rows_view(rs@)[j as int]), row_key(x@)),
{
    let n = rs.len();
    let mut j: usize = 0;
    while j < n
        invariant
            0 <= j <= n,
            n == rs@.len(),
            forall|m: int|
                0 <= m < j ==> lex_leq(row_key(#[trigger] rows_view(rs@)[m]), row_key(x@)),
        decreases n - j,
    {
        if !row_leq(&rs[j], x) {
            proof {
                assert(rows_view(rs@)[j as int] == rs@[j as int]@);
            }
            return j;
        }
        proof {
            assert(rows_view(rs@)[j as int] == rs@[j as int]@);
        }
        j += 1;
    }
    j
}

/// Places the row into the sorted prefix, after all rows whose key is less
/// than or equal to its own.
fn insert_row_vec(x: RowVariant, rs: &mut Vec<RowVariant>)
    ensures
        rows_view(final (rs)@) == insert_row(x@, rows_view(old(rs)@)),
{
    let j = scan_row_pos(&x, rs);
    let ghost rs0 = rows_view(rs@);
    rs.insert(j, x);
    proof {
        lemma_insert_row_at(x@, rs0, j as int);
        assert(rows_view(rs@) =~= rs0.subrange(0, j as int) + seq![x@] + rs0.skip(j as int));
    }
}

/// Derives the display rows for the entries and the query.
///
/// The result is the value of `spec_derive_rows` on the models of the
/// inputs; since that is a function of the inputs alone, repeated
/// invocations on identical inputs yield identical row sequences.
pub fn derive_rows(entries: &Vec<Entry>, query: &str) -> (rows: Vec<RowVariant>)
    requires
        nonempty_keys(entries_view(entries@)),
    ensures
        rows_view(rows@) == spec_derive_rows(entries_view(entries@), query@),
{
    let ghost ev = entries_view(entries@);
    let trimmed = trim_str(query);
    let mut letters: Vec<char> = Vec::new();
    let mut data: Vec<RowVariant> = Vec::new();
    proof {
        assert(ev.subrange(0, 0) =~= Seq::<EntryModel>::empty());
        assert(letters@ =~= letters_of(keep_entries(ev.subrange(0, 0), trimmed@)));
        assert(rows_view(data@) =~~= datas_of(keep_entries(ev.subrange(0, 0), trimmed@)));
    }
    let n = entries.len();
    let mut i: usize = 0;
    while i < n
        invariant
            0 <= i <= n,
            n == entries@.len(),
            ev == entries_view(entries@),
            nonempty_keys(ev),
            trimmed@ == trim(query@),
            letters@ == letters_of(keep_entries(ev.subrange(0, i as int), trimmed@)),
            rows_view(data@) == datas_of(keep_entries(ev.subrange(0, i as int), trimmed@)),
        decreases n - i,
    {
        let ghost kept = keep_entries(ev.subrange(0, i as int), trimmed@);
        proof {
            assert(ev.subrange(0, i + 1).drop_last() =~= ev.subrange(0, i as int));
            assert(ev.subrange(0, i + 1).last() == ev[i as int]);
        }
        let e = &entries[i];
        if str_contains(e.key.as_str(), trimmed) {
            let c = e.key.as_str().get_char(0);
            insert_letter_vec(c, &mut letters);
            let ghost data0 = rows_view(data@);
            data.push(RowVariant::Data(e.key.clone(), e.value.clone()));
            proof {
                assert(entry_matches(ev[i as int], trimmed@));
                assert(keep_entries(ev.subrange(0, i + 1), trimmed@) == kept.push(ev[i as int]));
                assert(kept.push(ev[i as int]).drop_last() =~= kept);
                assert(letters@ == letters_of(keep_entries(ev.subrange(0, i + 1), trimmed@)));
                lemma_rows_view_push(
                    data@.drop_last(),
                    data@.last(),
                );
                assert(data@.drop_last().push(data@.last()) =~= data@);
                assert(data@.last()@ == data_row_of(ev[i as int]));
                lemma_datas_push(kept, ev[i as int]);
                assert(rows_view(data@) == datas_of(kept.push(ev[i as int])));
            }
        }
        i += 1;
    }
    proof {
        assert(ev.subrange(0, n as int) =~= ev);
    }
    let ghost kept = keep_entries(ev, trimmed@);
    let mut pre: Vec<RowVariant> = Vec::new();
    proof {
        assert(rows_view(pre@) =~~= heads_of(letters@.subrange(0, 0)));
    }
    let m = letters.len();
    let mut j: usize = 0;
    while j < m
        invariant
            0 <= j <= m,
            m == letters@.len(),
            letters@ == letters_of(kept),
            rows_view(pre@) == heads_of(letters@.subrange(0, j as int)),
        decreases m - j,
    {
        let ghost pre_before = pre@;
        pre.push(RowVariant::Heading(letters[j]));
        proof {
            lemma_rows_view_push(pre_before, RowVariant::Heading(letters@[j as int]));
            lemma_heads_push(letters@.subrange(0, j as int), letters@[j as int]);
            assert(letters@.subrange(0, j as int).push(letters@[j as int]) =~= letters@.subrange(
                0,
                j + 1,
            ));
            assert(rows_view(pre@) == heads_of(letters@.subrange(0, j + 1)));
        }
        j += 1;
    }
    proof {
        assert(letters@.subrange(0, m as int) =~= letters@);
    }
    let ghost pre0 = rows_view(pre@);
    let ghost data1 = rows_view(data@);
    pre.append(&mut data);
    proof {
        assert(rows_view(pre@) =~= pre0 + data1);
        assert(rows_view(pre@) == heads_of(letters_of(kept)) + datas_of(kept));
    }
    let ghost pre_rows = rows_view(pre@);
    let mut sorted: Vec<RowVariant> = Vec::new();
    proof {
        assert(pre_rows.skip(0) =~= pre_rows);
        assert(pre_rows.take(0) =~= Seq::<RowModel>::empty());
        assert(rows_view(sorted@) =~= sort_rows(pre_rows.take(0)));
    }
    let ghost mut k: int = 0;
    while pre.len() > 0
        invariant
            0 <= k <= pre_rows.len(),
            k + pre@.len() == pre_rows.len(),
            rows_view(pre@) == pre_rows.skip(k),
            rows_view(sorted@) == sort_rows(pre_rows.take(k)),
        decreases pre@.len(),
    {
        let ghost pre_cur = pre@;
        let x = pre.remove(0);
        proof {
            assert(rows_view(pre_cur)[0] == pre_cur[0]@);
            assert(rows_view(pre_cur)[0] == pre_rows.skip(k)[0]);
            assert(x@ == pre_rows[k]);
            assert(rows_view(pre@) =~= rows_view(pre_cur).drop_first());
            assert(rows_view(pre@) =~= pre_rows.skip(k + 1));
        }
        insert_row_vec(x, &mut sorted);
        proof {
            assert(pre_rows.take(k + 1).drop_last() =~= pre_rows.take(k));
            assert(pre_rows.take(k + 1).last() == pre_rows[k]);
            k = k + 1;
        }
    }
    proof {
        assert(pre_rows.take(k) =~= pre_rows);
    }
    let ghost sorted0 = rows_view(sorted@);
    let mut rows: Vec<RowVariant> = Vec::new();
    proof {
        assert(sorted0.skip(0) =~= sorted0);
        assert(rows_view(rows@) =~= upper_rows(sorted0.take(0)));
    }
    let ghost mut t: int = 0;
    while sorted.len() > 0
        invariant
            0 <= t <= sorted0.len(),
            t + sorted@.len() == sorted0.len(),
            rows_view(sorted@) == sorted0.skip(t),
            rows_view(rows@) == upper_rows(sorted0.take(t)),
        decreases sorted@.len(),
    {
        let ghost sorted_cur = sorted@;
        let r = sorted.remove(0);
        proof {
            assert(rows_view(sorted_cur)[0] == sorted_cur[0]@);
            assert(rows_view(sorted_cur)[0] == sorted0.skip(t)[0]);
            assert(r@ == sorted0[t]);
            assert(rows_view(sorted@) =~= rows_view(sorted_cur).drop_first());
            assert(rows_view(sorted@) =~= sorted0.skip(t + 1));
        }
        let r2 = match r {
            RowVariant::Heading(c) => RowVariant::Heading(c.to_ascii_uppercase()),
            other => other,
        };
        let ghost rows_before = rows@;
        rows.push(r2);
        proof {
            lemma_rows_view_push(rows_before, rows@.last());
            assert(rows_before.push(rows@.last()) =~= rows@);
            assert(rows@.last()@ == upper_heading(sorted0[t]));
            lemma_upper_push(sorted0.take(t), sorted0[t]);
            assert(sorted0.take(t).push(sorted0[t]) =~= sorted0.take(t + 1));
            assert(rows_view(rows@) == upper_rows(sorted0.take(t + 1)));
            t = t + 1;
        }
    }
    proof {
        assert(sorted0.take(t) =~= sorted0);
    }
    rows
}

/// The marker prefix denoting that a value names an image file on disk.
pub open spec fn image_marker() -> Seq<char> {
    seq!['f', 'i', 'l', 'e', ':', ':', '/']
}

/// A value beginning with the marker prefix is a reference to an image
/// stored at the path that follows the marker; the store itself never
/// interprets it.
pub open spec fn is_image_value(v: Seq<char>) -> bool {
    v.len() >= 7 && v.subrange(0, 7) == image_marker()
}

/// The path an image-bearing value refers to, or nothing for a plain text
/// value.
pub fn image_reference(value: &str) -> (r: Option<&str>)
    ensures
        is_image_value(value@) ==> (r matches Some(p) && p@ == value@.skip(7)),
        !is_image_value(value@) ==> r is None,
{
    let len = value.unicode_len();
    if len < 7 {
        return None;
    }
    let marker = ['f', 'i', 'l', 'e', ':', ':', '/'];
    let mut i: usize = 0;
    while i < 7
        invariant
            0 <= i <= 7,
            7 <= len == value@.len(),
            marker@ == image_marker(),
            forall|j: int| 0 <= j < i ==> value@[j] == image_marker()[j],
        decreases 7 - i,
    {
        if value.get_char(i) != marker[i] {
            proof {
                assert(value@.subrange(0, 7)[i as int] == value@[i as int]);
            }
            return None;
        }
        i += 1;
    }
    proof {
        assert(value@.subrange(0, 7) =~= image_marker());
    }
    Some(value.substring_char(7, len))
}

/// The rows are sorted by comparison key, ascending.
pub open spec fn sorted_rows(rs: Seq<RowModel>) -> bool {
    forall|i: int, j: int|
        0 <= i <= j < rs.len() ==> lex_leq(row_key(#[trigger] rs[i]), row_key(#[trigger] rs[j]))
}

proof fn lemma_insert_row_elems(x: RowModel, rs: Seq<RowModel>)
    ensures
        insert_row(x, rs).len() == rs.len() + 1,
        forall|m: int|
            0 <= m < insert_row(x, rs).len() ==> #[trigger] insert_row(x, rs)[m] == x
                || exists|n: int| 0 <= n < rs.len() && insert_row(x, rs)[m] == rs[n],
    decreases rs.len(),
{
    if rs.len() > 0 && lex_leq(row_key(rs[0]), row_key(x)) {
        lemma_insert_row_elems(x, rs.drop_first());
        let r = insert_row(x, rs);
        let ir = insert_row(x, rs.drop_first());
        assert forall|m: int| 0 <= m < r.len() implies #[trigger] r[m] == x || exists|n: int|
            0 <= n < rs.len() && r[m] == rs[n] by {
            if m == 0 {
                assert(r[0] == rs[0]);
            } else {
                assert(r[m] == ir[m - 1]);
                if ir[m - 1] != x {
                    let n = choose|n: int|
                        0 <= n < rs.drop_first().len() && ir[m - 1] == rs.drop_first()[n];
                    assert(r[m] == rs[n + 1]);
                }
            }
        }
    }
}

proof fn lemma_insert_row_sorted(x: RowModel, rs: Seq<RowModel>)
    requires
        sorted_rows(rs),
    ensures
        sorted_rows(insert_row(x, rs)),
    decreases rs.len(),
{
    let r = insert_row(x, rs);
    lemma_lex_total(row_key(x), row_key(x));
    if rs.len() == 0 {
    } else if lex_leq(row_key(rs[0]), row_key(x)) {
        let rest = rs.drop_first();
        assert(forall|i: int, j: int|
            0 <= i <= j < rest.len() ==> lex_leq(
                row_key(#[trigger] rest[i]),
                row_key(#[trigger] rest[j]),
            ));
        lemma_insert_row_sorted(x, rest);
        lemma_insert_row_elems(x, rest);
        lemma_lex_total(row_key(x), row_key(x));
        let ir = insert_row(x, rest);
        assert forall|i: int, j: int| 0 <= i <= j < r.len() implies lex_leq(
            row_key(#[trigger] r[i]),
            row_key(#[trigger] r[j]),
        ) by {
            if i == 0 && j > 0 {
                assert(r[j] == ir[j - 1]);
                if ir[j - 1] == x {
                } else {
                    let n = choose|n: int| 0 <= n < rest.len() && ir[j - 1] == rest[n];
                    assert(rest[n] == rs[n + 1]);
                    assert(lex_leq(row_key(rs[0]), row_key(rs[n + 1])));
                }
            } else if i > 0 {
                assert(r[i] == ir[i - 1]);
                assert(r[j] == ir[j - 1]);
            }
        }
    } else {
        lemma_lex_total(row_key(rs[0]), row_key(x));
        lemma_lex_total(row_key(x), row_key(x));
        assert forall|i: int, j: int| 0 <= i <= j < r.len() implies lex_leq(
            row_key(#[trigger] r[i]),
            row_key(#[trigger] r[j]),
        ) by {
            if i == 0 && j > 0 {
                assert(r[j] == rs[j - 1]);
                lemma_lex_transitive(row_key(x), row_key(rs[0]), row_key(rs[j - 1]));
            } else if i > 0 {
                assert(r[i] == rs[i - 1]);
                assert(r[j] == rs[j - 1]);
            }
        }
    }
}

proof fn lemma_sort_rows_sorted(rs: Seq<RowModel>)
    ensures
        sorted_rows(sort_rows(rs)),
    decreases rs.len(),
{
    if rs.len() > 0 {
        lemma_sort_rows_sorted(rs.drop_last());
        lemma_insert_row_sorted(rs.last(), sort_rows(rs.drop_last()));
    }
}

proof fn lemma_upper_rows_keys(rs: Seq<RowModel>)
    ensures
        upper_rows(rs).len() == rs.len(),
        forall|m: int|
            0 <= m < rs.len() ==> row_key(#[trigger] upper_rows(rs)[m]) == row_key(rs[m]),
{
    assert forall|m: int| 0 <= m < rs.len() implies row_key(#[trigger] upper_rows(rs)[m])
        == row_key(rs[m]) by {
        match rs[m] {
            RowModel::Heading(c) => {
                crate::chars::lemma_lower_upper(c);
                assert(row_key(upper_heading(rs[m])) =~= row_key(rs[m]));
            },
            RowModel::Data(_, _) => {},
        }
    }
}

/// Any two row sequences derived from the same entries and query are the
/// same sequence: the derivation is deterministic, with no dependence on
/// anything beyond its inputs.
pub proof fn lemma_derive_rows_deterministic(
    es: Seq<EntryModel>,
    q: Seq<char>,
    rows1: Seq<RowModel>,
    rows2: Seq<RowModel>,
)
    requires
        rows1 == spec_derive_rows(es, q),
        rows2 == spec_derive_rows(es, q),
    ensures
        rows1 == rows2,
{
}

/// The ordering invariant of the derived rows: whenever one row's
/// comparison key is strictly below another's (case-insensitively), the
/// first row precedes the second; equivalently, the sequence is sorted by
/// comparison key, ascending.
pub proof fn lemma_derive_rows_ordered(es: Seq<EntryModel>, q: Seq<char>)
    ensures
        sorted_rows(spec_derive_rows(es, q)),
        forall|i: int, j: int|
            0 <= i < spec_derive_rows(es, q).len() && 0 <= j < spec_derive_rows(es, q).len()
                && lex_lt(
                row_key(#[trigger] spec_derive_rows(es, q)[i]),
                row_key(#[trigger] spec_derive_rows(es, q)[j]),
            ) ==> i < j,
{
    let kept = keep_entries(es, trim(q));
    let pre = heads_of(letters_of(kept)) + datas_of(kept);
    let rows = spec_derive_rows(es, q);
    lemma_sort_rows_sorted(pre);
    lemma_upper_rows_keys(sort_rows(pre));
    assert forall|i: int, j: int|
        0 <= i < rows.len() && 0 <= j < rows.len() && lex_lt(
            row_key(#[trigger] rows[i]),
            row_key(#[trigger] rows[j]),
        ) implies i < j by {
        if i >= j {
            assert(lex_leq(row_key(rows[j]), row_key(rows[i])));
            crate::chars::lemma_lex_antisymmetric(row_key(rows[i]), row_key(rows[j]));
        }
    }
}

/// A row is a data row.
pub open spec fn is_data_row(r: RowModel) -> bool {
    r is Data
}

/// A data row whose key contains the query; headings never match.
pub open spec fn data_matches(r: RowModel, q: Seq<char>) -> bool {
    match r {
        RowModel::Data(k, _) => contains_seq(k, q),
        RowModel::Heading(_) => false,
    }
}

/// The rows satisfying a predicate, in order.
pub open spec fn filter_rows(rs: Seq<RowModel>, p: spec_fn(RowModel) -> bool) -> Seq<RowModel>
    decreases rs.len(),
{
    if rs.len() == 0 {
        rs
    } else if p(rs[0]) {
        seq![rs[0]] + filter_rows(rs.drop_first(), p)
    } else {
        filter_rows(rs.drop_first(), p)
    }
}

/// The data rows of a derived sequence.
pub open spec fn data_rows_of(rs: Seq<RowModel>) -> Seq<RowModel> {
    filter_rows(rs, |r: RowModel| is_data_row(r))
}

/// A client-side filter over derived rows: the data rows whose key
/// contains the query.
pub open spec fn client_filter(rs: Seq<RowModel>, q: Seq<char>) -> Seq<RowModel> {
    filter_rows(rs, |r: RowModel| data_matches(r, q))
}

proof fn lemma_filter_elems(rs: Seq<RowModel>, p: spec_fn(RowModel) -> bool)
    ensures
        filter_rows(rs, p).len() <= rs.len(),
        forall|m: int|
            0 <= m < filter_rows(rs, p).len() ==> exists|n: int|
                0 <= n < rs.len() && #[trigger] filter_rows(rs, p)[m] == rs[n],
    decreases rs.len(),
{
    if rs.len() > 0 {
        lemma_filter_elems(rs.drop_first(), p);
        let f = filter_rows(rs, p);
        let fr = filter_rows(rs.drop_first(), p);
        assert forall|m: int| 0 <= m < f.len() implies exists|n: int|
            0 <= n < rs.len() && #[trigger] f[m] == rs[n] by {
            if p(rs[0]) && m == 0 {
                assert(f[0] == rs[0]);
            } else {
                let m0: int = if p(rs[0]) {
                    m - 1
                } else {
                    m
                };
                assert(f[m] == fr[m0]);
                let n = choose|n: int|
                    0 <= n < rs.drop_first().len() && fr[m0] == rs.drop_first()[n];
                assert(f[m] == rs[n + 1]);
            }
        }
    }
}

proof fn lemma_filter_snoc(s: Seq<RowModel>, x: RowModel, p: spec_fn(RowModel) -> bool)
    ensures
        filter_rows(s.push(x), p) == if p(x) {
            filter_rows(s, p).push(x)
        } else {
            filter_rows(s, p)
        },
    decreases s.len(),
{
    if s.len() == 0 {
        assert(s =~= Seq::<RowModel>::empty());
        assert(s.push(x)[0] == x);
        assert(s.push(x).drop_first() =~= s);
        if p(x) {
            assert(filter_rows(s.push(x), p) =~= filter_rows(s, p).push(x));
        }
    } else {
        lemma_filter_snoc(s.drop_first(), x, p);
        assert(s.push(x).drop_first() =~= s.drop_first().push(x));
        assert(s.push(x)[0] == s[0]);
        if p(x) {
            if p(s[0]) {
                assert(filter_rows(s.push(x), p) =~= filter_rows(s, p).push(x));
            }
        }
    }
}

proof fn lemma_filter_insert(x: RowModel, rs: Seq<RowModel>, p: spec_fn(RowModel) -> bool)
    requires
        sorted_rows(rs),
    ensures
        filter_rows(insert_row(x, rs), p) == if p(x) {
            insert_row(x, filter_rows(rs, p))
        } else {
            filter_rows(rs, p)
        },
    decreases rs.len(),
{
    if rs.len() == 0 {
        assert(rs =~= Seq::<RowModel>::empty());
        assert(insert_row(x, rs) =~= seq![x]);
        assert(seq![x].drop_first() =~= rs);
        assert(seq![x][0] == x);
        if p(x) {
            assert(filter_rows(insert_row(x, rs), p) =~= insert_row(x, filter_rows(rs, p)));
        }
    } else if lex_leq(row_key(rs[0]), row_key(x)) {
        let rest = rs.drop_first();
        assert(forall|i: int, j: int|
            0 <= i <= j < rest.len() ==> lex_leq(
                row_key(#[trigger] rest[i]),
                row_key(#[trigger] rest[j]),
            ));
        lemma_filter_insert(x, rest, p);
        let r = insert_row(x, rs);
        assert(r == seq![rs[0]] + insert_row(x, rest));
        assert(r[0] == rs[0]);
        assert(r.drop_first() =~= insert_row(x, rest));
        if p(x) {
            if p(rs[0]) {
                assert(filter_rows(rs, p)[0] == rs[0]);
                assert(filter_rows(rs, p).drop_first() =~= filter_rows(rest, p));
                assert(insert_row(x, filter_rows(rs, p)) == seq![rs[0]] + insert_row(
                    x,
                    filter_rows(rest, p),
                ));
            }
        }
    } else {
        let r = insert_row(x, rs);
        assert(r == seq![x] + rs);
        assert(r[0] == x);
        assert(r.drop_first() =~= rs);
        if p(x) {
            let f = filter_rows(rs, p);
            lemma_filter_elems(rs, p);
            if f.len() == 0 {
                assert(filter_rows(r, p) =~= insert_row(x, f));
            } else {
                let n = choose|n: int| 0 <= n < rs.len() && f[0] == rs[n];
                assert(lex_leq(row_key(rs[0]), row_key(rs[n])));
                if lex_leq(row_key(f[0]), row_key(x)) {
                    lemma_lex_transitive(row_key(rs[0]), row_key(f[0]), row_key(x));
                    assert(false);
                }
                assert(insert_row(x, f) == seq![x] + f);
                assert(filter_rows(r, p) =~= seq![x] + f);
            }
        }
    }
}

proof fn lemma_filter_sort(l: Seq<RowModel>, p: spec_fn(RowModel) -> bool)
    ensures
        filter_rows(sort_rows(l), p) == sort_rows(filter_rows(l, p)),
    decreases l.len(),
{
    if l.len() > 0 {
        let dl = l.drop_last();
        lemma_filter_sort(dl, p);
        lemma_sort_rows_sorted(dl);
        lemma_filter_insert(l.last(), sort_rows(dl), p);
        assert(dl.push(l.last()) =~= l);
        lemma_filter_snoc(dl, l.last(), p);
        if p(l.last()) {
            let fl = filter_rows(l, p);
            assert(fl == filter_rows(dl, p).push(l.last()));
            assert(fl.drop_last() =~= filter_rows(dl, p));
            assert(fl.last() == l.last());
        }
    }
}

proof fn lemma_filter_upper(rs: Seq<RowModel>, p: spec_fn(RowModel) -> bool)
    requires
        forall|r: RowModel| #[trigger] p(upper_heading(r)) == p(r),
        forall|r: RowModel| #[trigger] p(r) ==> upper_heading(r) == r,
    ensures
        filter_rows(upper_rows(rs), p) == filter_rows(rs, p),
    decreases rs.len(),
{
    if rs.len() > 0 {
        let dl = rs.drop_last();
        lemma_filter_upper(dl, p);
        lemma_upper_push(dl, rs.last());
        assert(dl.push(rs.last()) =~= rs);
        lemma_filter_snoc(upper_rows(dl), upper_heading(rs.last()), p);
        lemma_filter_snoc(dl, rs.last(), p);
    }
}

proof fn lemma_filter_heads(ls: Seq<char>, rs: Seq<RowModel>, p: spec_fn(RowModel) -> bool)
    requires
        forall|c: char| !#[trigger] p(heading_of(c)),
    ensures
        filter_rows(heads_of(ls) + rs, p) == filter_rows(rs, p),
    decreases ls.len(),
{
    if ls.len() == 0 {
        assert(heads_of(ls) + rs =~= rs);
    } else {
        lemma_filter_heads(ls.drop_first(), rs, p);
        let whole = heads_of(ls) + rs;
        assert(whole[0] == heading_of(ls[0]));
        assert(whole.drop_first() =~= heads_of(ls.drop_first()) + rs);
    }
}

proof fn lemma_filter_all(rs: Seq<RowModel>, p: spec_fn(RowModel) -> bool)
    requires
        forall|m: int| 0 <= m < rs.len() ==> #[trigger] p(rs[m]),
    ensures
        filter_rows(rs, p) == rs,
    decreases rs.len(),
{
    if rs.len() > 0 {
        assert(forall|m: int|
            0 <= m < rs.drop_first().len() ==> #[trigger] p(rs.drop_first()[m]));
        lemma_filter_all(rs.drop_first(), p);
        assert(filter_rows(rs, p) =~= rs);
    }
}

proof fn lemma_filter_datas(es: Seq<EntryModel>, q: Seq<char>)
    ensures
        filter_rows(datas_of(es), |r: RowModel| data_matches(r, q)) == datas_of(
            keep_entries(es, q),
        ),
    decreases es.len(),
{
    let p = |r: RowModel| data_matches(r, q);
    if es.len() > 0 {
        let dl = es.drop_last();
        lemma_filter_datas(dl, q);
        lemma_datas_push(dl, es.last());
        assert(dl.push(es.last()) =~= es);
        lemma_filter_snoc(datas_of(dl), data_row_of(es.last()), p);
        assert(p(data_row_of(es.last())) == entry_matches(es.last(), q));
        if entry_matches(es.last(), q) {
            lemma_datas_push(keep_entries(dl, q), es.last());
        }
    }
}

proof fn lemma_keep_all(es: Seq<EntryModel>)
    ensures
        keep_entries(es, Seq::<char>::empty()) == es,
    decreases es.len(),
{
    if es.len() > 0 {
        lemma_keep_all(es.drop_last());
        lemma_contains_empty(es.last().key);
        assert(keep_entries(es, Seq::<char>::empty()) =~= es);
    }
}

/// Filtering commutes with derivation: deriving with the empty query and
/// then filtering the data rows client-side by the normalized query yields
/// exactly the data rows of deriving with the query itself.
pub proof fn lemma_filter_commutes_with_derivation(es: Seq<EntryModel>, q: Seq<char>)
    ensures
        client_filter(spec_derive_rows(es, Seq::<char>::empty()), trim(q)) == data_rows_of(
            spec_derive_rows(es, q),
        ),
{
    let tq = trim(q);
    let pm = |r: RowModel| data_matches(r, tq);
    let pd = |r: RowModel| is_data_row(r);
    let kept = keep_entries(es, tq);
    lemma_keep_all(es);
    assert(trim(Seq::<char>::empty()) == Seq::<char>::empty());

    let pre0 = heads_of(letters_of(es)) + datas_of(es);
    assert forall|r: RowModel| #[trigger] pm(upper_heading(r)) == pm(r) by {
        match r {
            RowModel::Heading(_) => {},
            RowModel::Data(_, _) => {},
        }
    }
    assert(forall|r: RowModel| #[trigger] pm(r) ==> upper_heading(r) == r);
    lemma_filter_upper(sort_rows(pre0), pm);
    lemma_filter_sort(pre0, pm);
    assert(forall|c: char| !#[trigger] pm(heading_of(c)));
    lemma_filter_heads(letters_of(es), datas_of(es), pm);
    lemma_filter_datas(es, tq);
    assert(client_filter(spec_derive_rows(es, Seq::<char>::empty()), tq) == sort_rows(
        datas_of(kept),
    ));

    let pre1 = heads_of(letters_of(kept)) + datas_of(kept);
    assert forall|r: RowModel| #[trigger] pd(upper_heading(r)) == pd(r) by {
        match r {
            RowModel::Heading(_) => {},
            RowModel::Data(_, _) => {},
        }
    }
    assert(forall|r: RowModel| #[trigger] pd(r) ==> upper_heading(r) == r);
    lemma_filter_upper(sort_rows(pre1), pd);
    lemma_filter_sort(pre1, pd);
    assert(forall|c: char| !#[trigger] pd(heading_of(c)));
    lemma_filter_heads(letters_of(kept), datas_of(kept), pd);
    assert forall|m: int| 0 <= m < datas_of(kept).len() implies #[trigger] pd(
        datas_of(kept)[m],
    ) by {
        assert(datas_of(kept)[m] == data_row_of(kept[m]));
    }
    lemma_filter_all(datas_of(kept), pd);
    assert(data_rows_of(spec_derive_rows(es, q)) == sort_rows(datas_of(kept)));
}

} // verus!
