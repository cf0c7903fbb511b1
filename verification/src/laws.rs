//! Laws of the document model: parsing an entry line makes its key readable,
//! and serializing any document built from sufficiently plain names, keys and
//! values, then re-parsing the text, yields the very same document — same
//! section order, same key order, same values.

use vstd::prelude::*;
use crate::ordered_hashmap::{
    assoc_has, assoc_idx, assoc_upsert, distinct_keys, lemma_assoc_idx, lemma_assoc_idx_first,
    lemma_assoc_idx_by_keys, lemma_upsert_get, keys_of,
};
use crate::parser::{LineKind, parse_line_spec, brk_start, brk_end};
use crate::text::{
    lines_of, strip_cr, trim, trim_start, trim_end, find_ch, lemma_find_ch, lemma_trim_fixed,
    lemma_trim_fixed_ends, lemma_trim_start, lemma_trim_end,
};
use crate::{
    DocView, SecView, doc_add_entry, doc_lookup, doc_wf, parse_doc_step, parse_doc_fold,
    parse_doc, doc_text, sec_text, entry_text,
};

verus! {

/// Folding any well-formed `key = value` line into any document puts the
/// line's key and value — the trimmed texts around its first `'='` — into
/// the cursor's section, where lookup then finds exactly that value.
pub proof fn lemma_parse_then_lookup(
    d: DocView,
    cur: Seq<char>,
    line: Seq<char>,
    k: Seq<char>,
    v: Seq<char>,
)
    requires
        parse_line_spec(line) == LineKind::Pair(k, v),
    ensures
        parse_doc_step(d, cur, line).0 == doc_add_entry(d, cur, k, v),
        doc_lookup(doc_add_entry(d, cur, k, v), cur, k) == Some(v),
{
    if assoc_has(d, cur) {
        let i = assoc_idx(d, cur);
        lemma_assoc_idx(d, cur);
        let d2 = d.update(i, (cur, assoc_upsert(d[i].1, k, v)));
        assert(keys_of(d2) =~= keys_of(d));
        lemma_assoc_idx_by_keys(d2, d, cur);
        lemma_upsert_get(d[i].1, k, v);
    } else {
        lemma_assoc_idx(d, cur);
        let sec0 = Seq::<(Seq<char>, Seq<char>)>::empty().push((k, v));
        let d2 = d.push((cur, sec0));
        assert forall|j: int| 0 <= j < d.len() implies d2[j].0 != cur by {
            assert(d2[j] == d[j]);
        }
        lemma_assoc_idx_first(d2, cur, d.len() as int);
        assert(assoc_idx(sec0, k) == 0);
    }
}

/// A character plain enough for a section name to survive the round trip.
pub open spec fn name_char(c: char) -> bool {
    c != '[' && c != ']' && c != ';' && c != '\n' && c != '\r'
}

/// A character plain enough for a key.
pub open spec fn key_char(c: char) -> bool {
    c != '=' && c != ';' && c != '\n' && c != '\r' && c != '['
}

/// A character plain enough for a value; values may hold `'='` and brackets.
pub open spec fn value_char(c: char) -> bool {
    c != ';' && c != '\n' && c != '\r'
}

/// A section name that survives the round trip: nonempty and of plain
/// characters.
pub open spec fn clean_name(n: Seq<char>) -> bool {
    n.len() > 0 && (forall|i: int| 0 <= i < n.len() ==> name_char(#[trigger] n[i]))
}

/// A key that survives the round trip: nonempty, its own trim, and of plain
/// characters.
pub open spec fn clean_key(k: Seq<char>) -> bool {
    k.len() > 0 && trim(k) == k && (forall|i: int| 0 <= i < k.len() ==> key_char(#[trigger] k[i]))
}

/// A value that survives the round trip: its own trim and of plain
/// characters; it may be empty.
pub open spec fn clean_value(v: Seq<char>) -> bool {
    trim(v) == v && (forall|i: int| 0 <= i < v.len() ==> value_char(#[trigger] v[i]))
}

/// A document whose text reproduces it exactly: well-formed, with clean
/// section names, keys and values.
pub open spec fn round_trip_safe(d: DocView) -> bool {
    &&& doc_wf(d)
    &&& forall|i: int| 0 <= i < d.len() ==> clean_name(#[trigger] d[i].0)
    &&& forall|i: int, j: int|
        0 <= i < d.len() && 0 <= j < d[i].1.len() ==> clean_key(#[trigger] d[i].1[j].0)
            && clean_value(d[i].1[j].1)
}

/// The header line of a section.
pub open spec fn header_line(name: Seq<char>) -> Seq<char> {
    seq!['['] + name + seq![']']
}

/// Folding a single line is one assembler step.
proof fn lemma_fold_one(d: DocView, cur: Seq<char>, line: Seq<char>)
    ensures
        parse_doc_fold(d, cur, seq![line]) == parse_doc_step(d, cur, line),
{
    let st = parse_doc_step(d, cur, line);
    assert(seq![line][0] == line);
    assert(seq![line].drop_first() =~= Seq::<Seq<char>>::empty());
    assert(parse_doc_fold(st.0, st.1, Seq::<Seq<char>>::empty()) == st);
}

/// A sequence equal to its own trim is fixed by `trim_start` and `trim_end`
/// separately.
proof fn lemma_trim_parts(s: Seq<char>)
    requires
        trim(s) == s,
    ensures
        trim_start(s) == s,
        trim_end(s) == s,
{
    lemma_trim_start(s);
    lemma_trim_end(trim_start(s));
    assert(trim_start(s).len() == s.len());
    assert(s.skip(0) =~= s);
    lemma_trim_end(s);
    assert(trim_end(s).len() == s.len());
    assert(s.take(s.len() as int) =~= s);
}

/// A header line of plain characters is classified as that section's header.
pub proof fn lemma_header_classified(name: Seq<char>)
    requires
        forall|i: int| 0 <= i < name.len() ==> name_char(#[trigger] name[i]),
    ensures
        parse_line_spec(header_line(name)) == LineKind::Header(name),
{
    let line = header_line(name);
    let n = name.len() as int;
    assert(line.len() == n + 2);
    assert(line[0] == '[');
    assert(line.last() == ']');
    assert forall|i: int| 0 <= i < line.len() implies line[i] != ';' by {
        if 1 <= i <= n {
            assert(line[i] == name[i - 1]);
        }
    }
    lemma_find_ch(line, ';');
    lemma_trim_fixed(line);
    // the content is the whole line; strip its brackets
    assert(line.drop_first() =~= name + seq![']']);
    assert(brk_start(line) == brk_start(name + seq![']']));
    if name.len() > 0 {
        assert((name + seq![']'])[0] == name[0]);
        assert(name_char(name[0]));
        assert(brk_start(name + seq![']']) == name + seq![']']);
        assert((name + seq![']']).drop_last() =~= name);
        assert(brk_end(name + seq![']']) == brk_end(name));
        assert(name.last() != ']' && name.last() != '[');
        assert(brk_end(name) == name);
    } else {
        assert(name + seq![']'] =~= seq![']']);
        assert(seq![']'].drop_first() =~= Seq::<char>::empty());
        assert(brk_start(Seq::<char>::empty()) == Seq::<char>::empty());
        assert(brk_start(name + seq![']']) == Seq::<char>::empty());
        assert(brk_end(Seq::<char>::empty()) =~= name);
    }
}

/// An entry line built from a clean key and value is classified as exactly
/// that pair.
pub proof fn lemma_entry_classified(k: Seq<char>, v: Seq<char>)
    requires
        clean_key(k),
        clean_value(v),
    ensures
        parse_line_spec(entry_text(k, v)) == LineKind::Pair(k, v),
{
    let line = entry_text(k, v);
    let nk = k.len() as int;
    let nv = v.len() as int;
    assert(line.len() == nk + 3 + nv);
    assert forall|i: int| 0 <= i < line.len() implies line[i] != ';' && line[i] != '\n' by {
        if i < nk {
            assert(line[i] == k[i]);
        } else if i >= nk + 3 {
            assert(line[i] == v[i - nk - 3]);
        } else {
            assert(line[i] == seq![' ', '=', ' '][i - nk]);
        }
    }
    lemma_find_ch(line, ';');
    lemma_trim_fixed_ends(k);
    lemma_trim_parts(k);
    if v.len() > 0 {
        lemma_trim_fixed_ends(v);
        lemma_trim_parts(v);
    }
    assert(line[0] == k[0]);
    // content: the line itself, save a trailing blank when the value is empty
    let content = if v.len() == 0 {
        k + seq![' ', '=']
    } else {
        line
    };
    if v.len() == 0 {
        assert(line =~= (k + seq![' ', '=']) + seq![' ']);
        assert(trim_start(line) == line);
        assert(line.drop_last() =~= k + seq![' ', '=']);
        assert(trim_end(line) == trim_end(k + seq![' ', '=']));
        assert((k + seq![' ', '=']).last() == '=');
        assert(trim_end(k + seq![' ', '=']) == k + seq![' ', '=']);
        assert(trim(line) == content);
    } else {
        assert(line.last() == v.last());
        lemma_trim_fixed(line);
        assert(trim(line) == content);
    }
    assert(content[0] == k[0]);
    assert(content[0] != '[');
    // the first '=' stands right after the key and its blank
    assert(content[nk + 1] == '=');
    assert forall|i: int| 0 <= i < nk + 1 implies content[i] != '=' by {
        if i < nk {
            assert(content[i] == k[i]);
        } else {
            assert(content[i] == ' ');
        }
    }
    lemma_find_ch(content, '=');
    assert(find_ch(content, '=') == nk + 1);
    // key side: `k ` trims back to `k`
    assert(content.take(nk + 1) =~= k + seq![' ']);
    assert(trim_start(k + seq![' ']) == k + seq![' ']) by {
        if k.len() > 0 {
            assert((k + seq![' '])[0] == k[0]);
        }
    }
    assert((k + seq![' ']).drop_last() =~= k);
    assert(trim_end(k + seq![' ']) == trim_end(k));
    assert(trim(content.take(nk + 1)) == k);
    // value side: ` v` trims back to `v`
    if v.len() == 0 {
        assert(content.skip(nk + 2) =~= v);
        assert(trim(content.skip(nk + 2)) =~= v);
    } else {
        assert(content.skip(nk + 2) =~= seq![' '] + v);
        assert((seq![' '] + v).drop_first() =~= v);
        assert(trim_start(seq![' '] + v) == trim_start(v));
        assert(trim(content.skip(nk + 2)) == v);
    }
}

/// The lines of one section's entries, in order.
pub open spec fn item_lines(items: SecView) -> Seq<Seq<char>>
    decreases items.len(),
{
    if items.len() == 0 {
        Seq::<Seq<char>>::empty()
    } else {
        item_lines(items.drop_last()).push(entry_text(items.last().0, items.last().1))
    }
}

/// The lines of a document's text: per section a header line and its entry
/// lines, a blank line before every section but the first.
pub open spec fn doc_lines(d: DocView) -> Seq<Seq<char>>
    decreases d.len(),
{
    if d.len() == 0 {
        Seq::<Seq<char>>::empty()
    } else if d.len() == 1 {
        seq![header_line(d[0].0)] + item_lines(d[0].1)
    } else {
        doc_lines(d.drop_last()) + seq![Seq::<char>::empty(), header_line(d.last().0)]
            + item_lines(d.last().1)
    }
}

/// Splitting into lines distributes over a newline.
pub proof fn lemma_lines_split(a: Seq<char>, b: Seq<char>)
    ensures
        lines_of(a + seq!['\n'] + b) == lines_of(a + seq!['\n']) + lines_of(b),
    decreases a.len(),
{
    let s = a + seq!['\n'] + b;
    let t = a + seq!['\n'];
    lemma_find_ch(s, '\n');
    lemma_find_ch(t, '\n');
    lemma_find_ch(a, '\n');
    let fa = find_ch(a, '\n');
    if fa >= 0 {
        assert(s[fa] == a[fa]);
        assert(t[fa] == a[fa]);
        assert forall|j: int| 0 <= j < fa implies s[j] != '\n' && t[j] != '\n' by {
            assert(s[j] == a[j]);
            assert(t[j] == a[j]);
        }
        assert(find_ch(s, '\n') == fa);
        assert(find_ch(t, '\n') == fa);
        assert(s.take(fa) =~= a.take(fa));
        assert(t.take(fa) =~= a.take(fa));
        assert(s.skip(fa + 1) =~= a.skip(fa + 1) + seq!['\n'] + b);
        assert(t.skip(fa + 1) =~= a.skip(fa + 1) + seq!['\n']);
        lemma_lines_split(a.skip(fa + 1), b);
        assert(lines_of(s) == seq![strip_cr(a.take(fa))] + (lines_of(a.skip(fa + 1) + seq!['\n'])
            + lines_of(b)));
        assert(seq![strip_cr(a.take(fa))] + (lines_of(a.skip(fa + 1) + seq!['\n']) + lines_of(b))
            =~= (seq![strip_cr(a.take(fa))] + lines_of(a.skip(fa + 1) + seq!['\n'])) + lines_of(
            b,
        ));
    } else {
        let n = a.len() as int;
        assert(s[n] == '\n');
        assert(t[n] == '\n');
        assert forall|j: int| 0 <= j < n implies s[j] != '\n' && t[j] != '\n' by {
            assert(s[j] == a[j]);
            assert(t[j] == a[j]);
        }
        assert(find_ch(s, '\n') == n);
        assert(find_ch(t, '\n') == n);
        assert(s.take(n) =~= a);
        assert(t.take(n) =~= a);
        assert(s.skip(n + 1) =~= b);
        assert(t.skip(n + 1) =~= Seq::<char>::empty());
        assert(lines_of(Seq::<char>::empty()) == Seq::<Seq<char>>::empty());
        assert(seq![strip_cr(a)] + Seq::<Seq<char>>::empty() =~= seq![strip_cr(a)]);
        assert(lines_of(t) == seq![strip_cr(a)]);
        assert(lines_of(s) == seq![strip_cr(a)] + lines_of(b));
    }
}

/// Terminating a text that does not end in a line break with one newline
/// leaves its lines unchanged.
pub proof fn lemma_lines_terminate(x: Seq<char>)
    requires
        x.len() > 0,
        x.last() != '\n',
        x.last() != '\r',
    ensures
        lines_of(x + seq!['\n']) == lines_of(x),
    decreases x.len(),
{
    let t = x + seq!['\n'];
    lemma_find_ch(x, '\n');
    lemma_find_ch(t, '\n');
    let f = find_ch(x, '\n');
    if f >= 0 {
        assert(f < x.len() - 1);
        assert(t[f] == x[f]);
        assert forall|j: int| 0 <= j < f implies t[j] != '\n' by {
            assert(t[j] == x[j]);
        }
        assert(find_ch(t, '\n') == f);
        assert(t.take(f) =~= x.take(f));
        assert(t.skip(f + 1) =~= x.skip(f + 1) + seq!['\n']);
        assert(x.skip(f + 1).len() > 0);
        assert(x.skip(f + 1).last() == x.last());
        lemma_lines_terminate(x.skip(f + 1));
    } else {
        let n = x.len() as int;
        assert(t[n] == '\n');
        assert forall|j: int| 0 <= j < n implies t[j] != '\n' by {
            assert(t[j] == x[j]);
        }
        assert(find_ch(t, '\n') == n);
        assert(t.take(n) =~= x);
        assert(t.skip(n + 1) =~= Seq::<char>::empty());
        assert(strip_cr(x) == x);
        assert(lines_of(Seq::<char>::empty()) == Seq::<Seq<char>>::empty());
        assert(seq![x] + Seq::<Seq<char>>::empty() =~= seq![x]);
        assert(lines_of(t) == seq![x]);
        assert(lines_of(x) == seq![x]);
    }
}

/// The text of one section: nonempty, ends in no line break, and its lines
/// are the header line followed by the entry lines.
pub proof fn lemma_sec_lines(name: Seq<char>, items: SecView)
    requires
        forall|i: int| 0 <= i < name.len() ==> name_char(#[trigger] name[i]),
        forall|j: int|
            0 <= j < items.len() ==> clean_key(#[trigger] items[j].0) && clean_value(items[j].1),
    ensures
        lines_of(sec_text(name, items)) == seq![header_line(name)] + item_lines(items),
        sec_text(name, items).len() > 0,
        sec_text(name, items).last() != '\n',
        sec_text(name, items).last() != '\r',
    decreases items.len(),
{
    if items.len() == 0 {
        let h = sec_text(name, items);
        assert(h =~= header_line(name));
        assert(h.last() == ']');
        assert forall|i: int| 0 <= i < h.len() implies h[i] != '\n' by {
            if 1 <= i <= name.len() {
                assert(h[i] == name[i - 1]);
            }
        }
        lemma_find_ch(h, '\n');
        assert(lines_of(h) == seq![h]);
        assert(seq![header_line(name)] + item_lines(items) =~= seq![h]);
    } else {
        let hd = items.drop_last();
        let k = items.last().0;
        let v = items.last().1;
        let e = entry_text(k, v);
        assert forall|j: int|
            0 <= j < hd.len() implies clean_key(#[trigger] hd[j].0) && clean_value(hd[j].1) by {
            assert(hd[j] == items[j]);
        }
        lemma_sec_lines(name, hd);
        let prev = sec_text(name, hd);
        assert(sec_text(name, items) =~= prev + seq!['\n'] + e);
        lemma_lines_split(prev, e);
        lemma_lines_terminate(prev);
        // the entry line is one line
        assert(clean_key(k) && clean_value(v));
        assert(e.len() > 0);
        assert forall|i: int| 0 <= i < e.len() implies e[i] != '\n' && e[i] != '\r' by {
            if i < k.len() {
                assert(e[i] == k[i]);
            } else if i >= k.len() + 3 {
                assert(e[i] == v[i - k.len() - 3]);
            } else {
                assert(e[i] == seq![' ', '=', ' '][i - k.len()]);
            }
        }
        lemma_find_ch(e, '\n');
        assert(lines_of(e) == seq![e]);
        assert(lines_of(sec_text(name, items)) == (seq![header_line(name)] + item_lines(hd))
            + seq![e]);
        assert((seq![header_line(name)] + item_lines(hd)) + seq![e] =~= seq![header_line(name)]
            + item_lines(items));
        assert(sec_text(name, items).last() == e.last());
        assert(e.last() != '\n' && e.last() != '\r');
    }
}

/// The text of a document: its lines are `doc_lines`, and when the document
/// is nonempty the text is nonempty and ends in no line break.
pub proof fn lemma_doc_lines(d: DocView)
    requires
        round_trip_safe(d),
    ensures
        lines_of(doc_text(d)) == doc_lines(d),
        d.len() > 0 ==> doc_text(d).len() > 0 && doc_text(d).last() != '\n' && doc_text(d).last()
            != '\r',
    decreases d.len(),
{
    if d.len() == 0 {
    } else if d.len() == 1 {
        assert(clean_name(d[0].0));
        lemma_sec_lines(d[0].0, d[0].1);
        assert(doc_text(d) == sec_text(d[0].0, d[0].1));
    } else {
        let dl = d.drop_last();
        let name = d.last().0;
        let items = d.last().1;
        assert forall|i: int| 0 <= i < dl.len() implies clean_name(#[trigger] dl[i].0) by {
            assert(dl[i] == d[i]);
        }
        assert forall|i: int, j: int|
            0 <= i < dl.len() && 0 <= j < dl[i].1.len() implies clean_key(
            #[trigger] dl[i].1[j].0,
        ) && clean_value(dl[i].1[j].1) by {
            assert(dl[i] == d[i]);
        }
        assert forall|i: int, j: int| 0 <= i < j < dl.len() implies dl[i].0 != dl[j].0 by {
            assert(dl[i] == d[i]);
            assert(dl[j] == d[j]);
        }
        assert forall|i: int| 0 <= i < dl.len() implies distinct_keys(#[trigger] dl[i].1) by {
            assert(dl[i] == d[i]);
        }
        lemma_doc_lines(dl);
        assert(clean_name(name));
        lemma_sec_lines(name, items);
        let a = doc_text(dl);
        let sect = sec_text(name, items);
        assert(doc_text(d) == a + seq!['\n', '\n'] + sect);
        assert(a + seq!['\n', '\n'] + sect =~= a + seq!['\n'] + (seq!['\n'] + sect));
        lemma_lines_split(a, seq!['\n'] + sect);
        lemma_lines_terminate(a);
        // a leading newline makes one empty first line
        assert((seq!['\n'] + sect)[0] == '\n');
        assert(find_ch(seq!['\n'] + sect, '\n') == 0);
        assert((seq!['\n'] + sect).take(0) =~= Seq::<char>::empty());
        assert((seq!['\n'] + sect).skip(1) =~= sect);
        assert(lines_of(seq!['\n'] + sect) == seq![Seq::<char>::empty()] + lines_of(sect));
        assert(lines_of(doc_text(d)) == doc_lines(dl) + (seq![Seq::<char>::empty()] + (seq![
            header_line(name),
        ] + item_lines(items))));
        assert(doc_lines(dl) + (seq![Seq::<char>::empty()] + (seq![header_line(name)]
            + item_lines(items))) =~= doc_lines(d));
        assert(doc_text(d).last() == sect.last());
    }
}

/// Folding lines concatenates: the second run starts from the first run's
/// state.
pub proof fn lemma_fold_concat(d: DocView, cur: Seq<char>, a: Seq<Seq<char>>, b: Seq<Seq<char>>)
    ensures
        parse_doc_fold(d, cur, a + b) == parse_doc_fold(
            parse_doc_fold(d, cur, a).0,
            parse_doc_fold(d, cur, a).1,
            b,
        ),
    decreases a.len(),
{
    if a.len() == 0 {
        assert(a + b =~= b);
    } else {
        assert((a + b)[0] == a[0]);
        assert((a + b).drop_first() =~= a.drop_first() + b);
        let st = parse_doc_step(d, cur, a[0]);
        lemma_fold_concat(st.0, st.1, a.drop_first(), b);
    }
}

/// Folding a section's entry lines after its header fills exactly that
/// section, entry by entry, in order.
proof fn lemma_fold_items(d0: DocView, name: Seq<char>, acc: SecView, items: SecView)
    requires
        forall|j: int| 0 <= j < d0.len() ==> (#[trigger] d0[j].0) != name,
        forall|j: int|
            0 <= j < items.len() ==> clean_key(#[trigger] items[j].0) && clean_value(items[j].1),
        distinct_keys(items),
        forall|a: int, j: int|
            0 <= a < acc.len() && 0 <= j < items.len() ==> (#[trigger] acc[a]).0 != (
            #[trigger] items[j]).0,
    ensures
        parse_doc_fold(d0.push((name, acc)), name, item_lines(items)) == (
            d0.push((name, acc + items)),
            name,
        ),
    decreases items.len(),
{
    if items.len() == 0 {
        assert(acc + items =~= acc);
    } else {
        let hd = items.drop_last();
        let k = items.last().0;
        let v = items.last().1;
        assert forall|j: int|
            0 <= j < hd.len() implies clean_key(#[trigger] hd[j].0) && clean_value(hd[j].1) by {
            assert(hd[j] == items[j]);
        }
        assert forall|a: int, b: int| 0 <= a < b < hd.len() implies hd[a].0 != hd[b].0 by {
            assert(hd[a] == items[a]);
            assert(hd[b] == items[b]);
        }
        assert forall|a: int, j: int|
            0 <= a < acc.len() && 0 <= j < hd.len() implies (#[trigger] acc[a]).0 != (
        #[trigger] hd[j]).0 by {
            assert(hd[j] == items[j]);
        }
        lemma_fold_items(d0, name, acc, hd);
        assert(item_lines(items) =~= item_lines(hd) + seq![entry_text(k, v)]);
        lemma_fold_concat(d0.push((name, acc)), name, item_lines(hd), seq![entry_text(k, v)]);
        // one entry line
        let dd = d0.push((name, acc + hd));
        lemma_entry_classified(k, v);
        lemma_fold_one(dd, name, entry_text(k, v));
        assert forall|j: int| 0 <= j < d0.len() implies dd[j].0 != name by {
            assert(dd[j] == d0[j]);
        }
        lemma_assoc_idx_first(dd, name, d0.len() as int);
        assert(parse_doc_step(dd, name, entry_text(k, v)).0 == doc_add_entry(dd, name, k, v));
        assert(doc_add_entry(dd, name, k, v) == dd.update(
            d0.len() as int,
            (name, assoc_upsert(acc + hd, k, v)),
        ));
        assert(assoc_upsert(acc + hd, k, v) == (acc + hd).push((k, v))) by {
            assert forall|j: int| 0 <= j < (acc + hd).len() implies (acc + hd)[j].0 != k by {
                if j < acc.len() {
                    assert((acc + hd)[j].0 == acc[j].0);
                    assert(acc[j].0 != items[items.len() - 1].0);
                } else {
                    assert((acc + hd)[j].0 == hd[j - acc.len()].0);
                    assert(hd[j - acc.len()] == items[j - acc.len()]);
                    assert(items[j - acc.len()].0 != items[items.len() - 1].0);
                }
            }
            lemma_assoc_idx(acc + hd, k);
        }
        assert((acc + hd).push((k, v)) =~= acc + items);
        assert(dd.update(d0.len() as int, (name, acc + items)) =~= d0.push((name, acc + items)));
    }
}

/// Serializing a round-trip-safe document and re-parsing the text yields the
/// same document: same section order, same key order, same values.
pub proof fn lemma_round_trip(d: DocView)
    requires
        round_trip_safe(d),
    ensures
        parse_doc(doc_text(d)) == d,
{
    lemma_doc_lines(d);
    lemma_fold_doc(d);
}

/// Folding the lines of a round-trip-safe document from the empty state
/// rebuilds it.
proof fn lemma_fold_doc(d: DocView)
    requires
        round_trip_safe(d),
    ensures
        parse_doc_fold(Seq::empty(), Seq::empty(), doc_lines(d)).0 == d,
    decreases d.len(),
{
    if d.len() == 0 {
    } else {
        let dl = d.drop_last();
        let name = d.last().0;
        let items = d.last().1;
        assert(clean_name(name));
        assert forall|j: int|
            0 <= j < items.len() implies clean_key(#[trigger] items[j].0) && clean_value(
            items[j].1,
        ) by {
            assert(d[d.len() - 1].1[j] == items[j]);
        }
        assert(distinct_keys(items)) by {
            assert(d[d.len() - 1].1 == items);
        }
        lemma_header_classified(name);
        if d.len() == 1 {
            assert(doc_lines(d) == seq![header_line(name)] + item_lines(items));
            let e0 = Seq::<(Seq<char>, SecView)>::empty();
            lemma_fold_concat(e0, Seq::empty(), seq![header_line(name)], item_lines(items));
            lemma_fold_one(e0, Seq::empty(), header_line(name));
            lemma_assoc_idx(e0, name);
            assert(parse_doc_step(e0, Seq::empty(), header_line(name)) == (
                e0.push((name, Seq::<(Seq<char>, Seq<char>)>::empty())),
                name,
            ));
            lemma_fold_items(e0, name, Seq::empty(), items);
            assert(Seq::<(Seq<char>, Seq<char>)>::empty() + items =~= items);
            assert(e0.push((name, items)) =~= d);
        } else {
            assert forall|i: int, j: int| 0 <= i < j < dl.len() implies dl[i].0 != dl[j].0 by {
                assert(dl[i] == d[i]);
                assert(dl[j] == d[j]);
            }
            assert forall|i: int| 0 <= i < dl.len() implies distinct_keys(#[trigger] dl[i].1) by {
                assert(dl[i] == d[i]);
            }
            assert forall|i: int| 0 <= i < dl.len() implies clean_name(#[trigger] dl[i].0) by {
                assert(dl[i] == d[i]);
            }
            assert forall|i: int, j: int|
                0 <= i < dl.len() && 0 <= j < dl[i].1.len() implies clean_key(
                #[trigger] dl[i].1[j].0,
            ) && clean_value(dl[i].1[j].1) by {
                assert(dl[i] == d[i]);
            }
            lemma_fold_doc(dl);
            let st1 = parse_doc_fold(Seq::empty(), Seq::empty(), doc_lines(dl));
            let rest = seq![Seq::<char>::empty(), header_line(name)] + item_lines(items);
            assert(doc_lines(d) =~= doc_lines(dl) + rest);
            lemma_fold_concat(Seq::empty(), Seq::empty(), doc_lines(dl), rest);
            // the blank separator line does nothing
            assert(rest[0] == Seq::<char>::empty());
            assert(parse_line_spec(Seq::<char>::empty()) is Blank) by {
                lemma_find_ch(Seq::<char>::empty(), ';');
            }
            assert(parse_doc_step(dl, st1.1, rest[0]) == (dl, st1.1));
            assert(rest.drop_first() =~= seq![header_line(name)] + item_lines(items));
            lemma_fold_concat(dl, st1.1, seq![rest[0]], rest.drop_first());
            assert(seq![rest[0]] + rest.drop_first() =~= rest);
            lemma_fold_one(dl, st1.1, rest[0]);
            // the header line opens the new section
            lemma_fold_concat(dl, st1.1, seq![header_line(name)], item_lines(items));
            lemma_fold_one(dl, st1.1, header_line(name));
            assert forall|j: int| 0 <= j < dl.len() implies dl[j].0 != name by {
                assert(dl[j] == d[j]);
                assert(d[j].0 != d[d.len() - 1].0);
            }
            lemma_assoc_idx(dl, name);
            assert(parse_doc_step(dl, st1.1, header_line(name)) == (
                dl.push((name, Seq::<(Seq<char>, Seq<char>)>::empty())),
                name,
            ));
            lemma_fold_items(dl, name, Seq::empty(), items);
            assert(Seq::<(Seq<char>, Seq<char>)>::empty() + items =~= items);
            assert(dl.push((name, items)) =~= d);
        }
    }
}

} // verus!
