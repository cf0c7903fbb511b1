//! A tiny INI-file library: a line parser, an insertion-order-preserving
//! string map, an escape-aware list tokenizer, and typed value access,
//! with machine-checked contracts throughout.
//!
//! A document is modelled as a sequence of sections in first-appearance
//! order, each a sequence of key/value pairs in first-insertion order, all
//! over character sequences; `parse_doc` and `doc_text` define parsing and
//! serialization on that model, and `Ini` is proved against them.

pub mod laws;
pub mod ordered_hashmap;
pub mod parser;
pub mod text;
pub mod tokenizer;
pub mod value;

use vstd::prelude::*;

use crate::ordered_hashmap::{
    OrderedHashMap, Iter, IterMut, assoc_has, assoc_idx, assoc_get, assoc_upsert, keys_of,
    distinct_keys, views_of, lemma_assoc_idx, lemma_assoc_idx_by_keys,
};
use crate::parser::{Parsed, LineKind, parse_line_spec, parse_line_chars};
use crate::text::{lines_of, to_chars, split_lines, append_str, chars_to_string};
use crate::tokenizer::{Tokenizer, tokenize};
use crate::value::IniValue;

verus! {

/// One section at runtime: keys to raw values, in first-insertion order.
pub type Section = OrderedHashMap<String>;

/// The model of a section: its key/value pairs as character sequences.
pub type SecView = Seq<(Seq<char>, Seq<char>)>;

/// The model of a document: its named sections in order.
pub type DocView = Seq<(Seq<char>, SecView)>;

/// The model of a runtime section.
pub open spec fn sec_view(es: Seq<(Seq<char>, String)>) -> SecView {
    es.map_values(|p: (Seq<char>, String)| (p.0, p.1@))
}

/// The model of a runtime section table.
pub open spec fn doc_of(es: Seq<(Seq<char>, Section)>) -> DocView {
    es.map_values(|p: (Seq<char>, Section)| (p.0, sec_view(p.1.entries())))
}

/// The raw value stored under `key` in section `sec`, if both exist.
pub open spec fn doc_lookup(d: DocView, sec: Seq<char>, key: Seq<char>) -> Option<Seq<char>> {
    match assoc_get(d, sec) {
        Some(s) => assoc_get(s, key),
        None => None,
    }
}

/// Upsert `(k, v)` in section `sec` of `d`, creating the section at the end
/// when absent.
pub open spec fn doc_add_entry(d: DocView, sec: Seq<char>, k: Seq<char>, v: Seq<char>) -> DocView {
    if assoc_has(d, sec) {
        d.update(assoc_idx(d, sec), (sec, assoc_upsert(d[assoc_idx(d, sec)].1, k, v)))
    } else {
        d.push((sec, Seq::<(Seq<char>, Seq<char>)>::empty().push((k, v))))
    }
}

/// Record section `name`, empty, at the end of `d` unless already present.
pub open spec fn doc_add_section(d: DocView, name: Seq<char>) -> DocView {
    if assoc_has(d, name) {
        d
    } else {
        d.push((name, Seq::<(Seq<char>, Seq<char>)>::empty()))
    }
}

/// One assembler step: a header records its section and moves the cursor, an
/// entry is upserted under the cursor's section, anything else is skipped.
pub open spec fn parse_doc_step(d: DocView, cur: Seq<char>, line: Seq<char>) -> (DocView, Seq<
    char,
>) {
    match parse_line_spec(line) {
        LineKind::Header(name) => (doc_add_section(d, name), name),
        LineKind::Pair(k, v) => (doc_add_entry(d, cur, k, v), cur),
        _ => (d, cur),
    }
}

/// The assembler folded over `lines`, from document `d` and cursor `cur`.
pub open spec fn parse_doc_fold(d: DocView, cur: Seq<char>, lines: Seq<Seq<char>>) -> (DocView, Seq<
    char,
>)
    decreases lines.len(),
{
    if lines.len() == 0 {
        (d, cur)
    } else {
        let st = parse_doc_step(d, cur, lines[0]);
        parse_doc_fold(st.0, st.1, lines.drop_first())
    }
}

/// The document denoted by a text buffer: the assembler folded over its
/// lines, from the empty document and the empty-named section.
pub open spec fn parse_doc(text: Seq<char>) -> DocView {
    parse_doc_fold(Seq::empty(), Seq::empty(), lines_of(text)).0
}

/// Distinct section names, and distinct keys within every section.
pub open spec fn doc_wf(d: DocView) -> bool {
    &&& distinct_keys(d)
    &&& forall|i: int| 0 <= i < d.len() ==> distinct_keys(#[trigger] d[i].1)
}

/// `sec_view` keeps the keys.
pub proof fn lemma_sec_view_keys(es: Seq<(Seq<char>, String)>)
    ensures
        keys_of(sec_view(es)) == keys_of(es),
{
    assert(keys_of(sec_view(es)) =~= keys_of(es));
}

/// `doc_of` keeps the keys.
pub proof fn lemma_doc_of_keys(es: Seq<(Seq<char>, Section)>)
    ensures
        keys_of(doc_of(es)) == keys_of(es),
{
    assert(keys_of(doc_of(es)) =~= keys_of(es));
}

/// Lookup through `sec_view` is lookup in the section, viewed.
pub proof fn lemma_sec_view_get(es: Seq<(Seq<char>, String)>, k: Seq<char>)
    ensures
        assoc_get(sec_view(es), k) == match assoc_get(es, k) {
            Some(v) => Some(v@),
            None => None::<Seq<char>>,
        },
{
    lemma_sec_view_keys(es);
    lemma_assoc_idx_by_keys(sec_view(es), es, k);
    lemma_assoc_idx(es, k);
}

/// Upsert through `sec_view` is upsert in the section, viewed.
pub proof fn lemma_sec_view_upsert(es: Seq<(Seq<char>, String)>, k: Seq<char>, v: String)
    ensures
        sec_view(assoc_upsert(es, k, v)) == assoc_upsert(sec_view(es), k, v@),
{
    lemma_sec_view_keys(es);
    lemma_assoc_idx_by_keys(sec_view(es), es, k);
    lemma_assoc_idx(es, k);
    if assoc_has(es, k) {
        assert(sec_view(assoc_upsert(es, k, v)) =~= assoc_upsert(sec_view(es), k, v@));
    } else {
        assert(sec_view(assoc_upsert(es, k, v)) =~= assoc_upsert(sec_view(es), k, v@));
    }
}

/// The text of one entry line body: `key = value`.
pub open spec fn entry_text(k: Seq<char>, v: Seq<char>) -> Seq<char> {
    k + seq![' ', '=', ' '] + v
}

/// The entry lines of a section, each preceded by its newline.
pub open spec fn sec_items_text(items: SecView) -> Seq<char>
    decreases items.len(),
{
    if items.len() == 0 {
        Seq::<char>::empty()
    } else {
        sec_items_text(items.drop_last()) + seq!['\n'] + entry_text(
            items.last().0,
            items.last().1,
        )
    }
}

/// The text of one section: its header line and its entry lines.
pub open spec fn sec_text(name: Seq<char>, items: SecView) -> Seq<char> {
    seq!['['] + name + seq![']'] + sec_items_text(items)
}

/// The serialized document: section texts separated by blank lines, with no
/// trailing newline.
pub open spec fn doc_text(d: DocView) -> Seq<char>
    decreases d.len(),
{
    if d.len() == 0 {
        Seq::<char>::empty()
    } else if d.len() == 1 {
        sec_text(d[0].0, d[0].1)
    } else {
        doc_text(d.drop_last()) + seq!['\n', '\n'] + sec_text(d.last().0, d.last().1)
    }
}

/// The elements of `parts` joined by `sep`.
pub open spec fn join_with(parts: Seq<Seq<char>>, sep: Seq<char>) -> Seq<char>
    decreases parts.len(),
{
    if parts.len() == 0 {
        Seq::<char>::empty()
    } else if parts.len() == 1 {
        parts[0]
    } else {
        join_with(parts.drop_last(), sep) + sep + parts.last()
    }
}

/// Every token is accepted as a `T`.
pub open spec fn vec_accepts<T: IniValue>(toks: Seq<Seq<char>>) -> bool {
    forall|i: int| 0 <= i < toks.len() ==> T::accepts(#[trigger] toks[i])
}

/// `vs` are the values the tokens denote, one for one.
pub open spec fn vec_denotes<T: IniValue>(toks: Seq<Seq<char>>, vs: Seq<T>) -> bool {
    vs.len() == toks.len() && forall|i: int|
        0 <= i < toks.len() ==> T::denotes(#[trigger] toks[i], &vs[i])
}

/// The 0-based number and message of each malformed line, from line `i` on.
pub open spec fn diags_from(lines: Seq<Seq<char>>, i: int) -> Seq<(int, Seq<char>)>
    decreases lines.len() - i,
{
    if i < 0 || i >= lines.len() {
        Seq::<(int, Seq<char>)>::empty()
    } else {
        let rest = diags_from(lines, i + 1);
        match parse_line_spec(lines[i]) {
            LineKind::Bad(m) => seq![(i, m)] + rest,
            _ => rest,
        }
    }
}

/// Line numbers and messages, as character sequences.
pub open spec fn diag_views(ds: Seq<(usize, String)>) -> Seq<(int, Seq<char>)> {
    ds.map_values(|p: (usize, String)| (p.0 as int, p.1@))
}

/// The parse diagnostics of `buf`: for each malformed line, its 0-based
/// line number and its message, in line order. `Ini::from_buffer` skips
/// such lines; this reports them.
pub fn parse_report(buf: &str) -> (r: Vec<(usize, String)>)
    ensures
        diag_views(r@) == diags_from(lines_of(buf@), 0),
{
    let chars = to_chars(buf);
    let lines = split_lines(&chars);
    let ghost line_views = lines@.map_values(|l: Vec<char>| l@);
    let mut r: Vec<(usize, String)> = Vec::new();
    let n = lines.len();
    let mut i: usize = 0;
    proof {
        assert(diag_views(r@) + diags_from(line_views, 0) =~= diags_from(line_views, 0));
    }
    while i < n
        invariant
            i <= n == lines@.len(),
            line_views == lines@.map_values(|l: Vec<char>| l@),
            diags_from(line_views, 0) == diag_views(r@) + diags_from(line_views, i as int),
        decreases n - i,
    {
        let ghost prev = r@;
        match parse_line_chars(&lines[i]) {
            Parsed::Error(m) => {
                r.push((i, m));
                proof {
                    assert(diag_views(r@) =~= diag_views(prev).push((i as int, r@[prev.len() as int].1@)));
                    assert(diag_views(prev) + (seq![(i as int, r@[prev.len() as int].1@)]
                        + diags_from(line_views, i + 1)) =~= diag_views(r@) + diags_from(
                        line_views,
                        i + 1,
                    ));
                }
            },
            _ => {},
        }
        i += 1;
    }
    proof {
        assert(diags_from(line_views, n as int) =~= Seq::<(int, Seq<char>)>::empty());
        assert(diag_views(r@) + Seq::<(int, Seq<char>)>::empty() =~= diag_views(r@));
    }
    r
}

/// INI-file data: named sections of key/value entries, both in
/// first-appearance order, plus the builder's current section name.
pub struct Ini {
    data: OrderedHashMap<Section>,
    last_section_name: String,
}

impl Ini {
    /// The document this value holds.
    pub closed spec fn doc(&self) -> DocView {
        doc_of(self.data.entries())
    }

    /// The section that `item` calls currently add to.
    pub closed spec fn cursor(&self) -> Seq<char> {
        self.last_section_name@
    }

    /// The section table and every section are well-formed.
    pub closed spec fn wf(&self) -> bool {
        &&& self.data.wf()
        &&& forall|i: int|
            0 <= i < self.data.entries().len() ==> (#[trigger] self.data.entries()[i].1).wf()
    }

    /// A well-formed `Ini` has a well-formed document model.
    pub proof fn lemma_wf_doc(&self)
        requires
            self.wf(),
        ensures
            doc_wf(self.doc()),
    {
        self.data.lemma_wf_distinct();
        lemma_doc_of_keys(self.data.entries());
        assert forall|i: int, j: int| 0 <= i < j < self.doc().len() implies self.doc()[i].0
            != self.doc()[j].0 by {
            assert(self.doc()[i].0 == self.data.entries()[i].0);
            assert(self.doc()[j].0 == self.data.entries()[j].0);
        }
        assert forall|i: int| 0 <= i < self.doc().len() implies distinct_keys(
            #[trigger] self.doc()[i].1,
        ) by {
            let es = self.data.entries()[i].1.entries();
            assert(self.data.entries()[i].1.wf());
            self.data.entries()[i].1.lemma_wf_distinct();
            assert(self.doc()[i].1 == sec_view(es));
            assert forall|a: int, b: int| 0 <= a < b < self.doc()[i].1.len() implies self
                .doc()[i].1[a].0 != self.doc()[i].1[b].0 by {
                assert(self.doc()[i].1[a].0 == es[a].0);
                assert(self.doc()[i].1[b].0 == es[b].0);
            }
        }
    }

    /// An empty document; the cursor starts at the empty section name.
    pub fn new() -> (r: Ini)
        ensures
            r.wf(),
            r.doc() == Seq::<(Seq<char>, SecView)>::empty(),
            r.cursor() == Seq::<char>::empty(),
    {
        let r = Ini { data: OrderedHashMap::new(), last_section_name: String::new() };
        proof {
            assert(r.doc() =~= Seq::<(Seq<char>, SecView)>::empty());
        }
        r
    }

    /// Move the cursor: following `item` calls add to section `name`. This
    /// records nothing in the document itself.
    pub fn section(self, name: &str) -> (r: Ini)
        requires
            self.wf(),
        ensures
            r.wf(),
            r.doc() == self.doc(),
            r.cursor() == name@,
    {
        let mut s = self;
        s.last_section_name = String::from_str(name);
        s
    }

    /// Upsert `(key, value)` in the cursor's section, creating that section
    /// at the end of the document when this is its first entry.
    fn add_pair(&mut self, key: String, value: String)
        requires
            old(self).wf(),
        ensures
            final(self).wf(),
            final(self).doc() == doc_add_entry(old(self).doc(), old(self).cursor(), key@, value@),
            final(self).cursor() == old(self).cursor(),
    {
        proof {
            self.data.lemma_wf_distinct();
            lemma_doc_of_keys(self.data.entries());
            lemma_assoc_idx_by_keys(self.doc(), self.data.entries(), self.last_section_name@);
        }
        let ghost es0 = self.data.entries();
        let ghost doc0 = self.doc();
        let ghost cur = self.last_section_name@;
        let ghost keyv = key@;
        let ghost valv = value@;
        let ghost val0 = value;
        let sec_name = self.last_section_name.clone();
        let sec = self.data.entry(sec_name, OrderedHashMap::new());
        let ghost sec0 = *sec;
        proof {
            lemma_assoc_idx(es0, cur);
            if assoc_has(es0, cur) {
                assert(es0[assoc_idx(es0, cur)].1.wf());
            }
            assert(sec0.wf());
        }
        sec.insert(key, value);
        proof {
            lemma_sec_view_upsert(sec0.entries(), keyv, val0);
            if assoc_has(es0, cur) {
                let i = assoc_idx(es0, cur);
                assert(self.data.entries() == es0.update(
                    i,
                    (cur, self.data.entries()[i].1),
                ));
                assert(self.data.entries()[i].1.entries() == assoc_upsert(
                    sec0.entries(),
                    keyv,
                    val0,
                ));
                assert(assoc_get(es0, cur) == Some(sec0));
                assert(doc0[i].1 == sec_view(sec0.entries()));
                assert(self.doc() =~= doc_add_entry(doc0, cur, keyv, valv));
            } else {
                assert(sec0.entries() == Seq::<(Seq<char>, String)>::empty());
                assert(assoc_upsert(sec0.entries(), keyv, val0) == Seq::<(
                    Seq<char>,
                    String,
                )>::empty().push((keyv, val0)));
                assert(sec_view(Seq::<(Seq<char>, String)>::empty().push((keyv, val0))) =~= Seq::<
                    (Seq<char>, Seq<char>),
                >::empty().push((keyv, valv)));
                assert(self.doc() =~= doc_add_entry(doc0, cur, keyv, valv));
            }
            assert forall|i: int| 0 <= i < self.data.entries().len() implies (
            #[trigger] self.data.entries()[i].1).wf() by {
                if assoc_has(es0, cur) {
                    if i != assoc_idx(es0, cur) {
                        assert(self.data.entries()[i].1 == es0[i].1);
                    }
                } else {
                    if i < es0.len() {
                        assert(self.data.entries()[i].1 == es0[i].1);
                    }
                }
            }
        }
    }

    /// Record section `name`, empty, unless already present, and move the
    /// cursor to it.
    fn enter_section(&mut self, name: String)
        requires
            old(self).wf(),
        ensures
            final(self).wf(),
            final(self).doc() == doc_add_section(old(self).doc(), name@),
            final(self).cursor() == name@,
    {
        proof {
            self.data.lemma_wf_distinct();
            lemma_doc_of_keys(self.data.entries());
            lemma_assoc_idx_by_keys(self.doc(), self.data.entries(), name@);
        }
        let ghost es0 = self.data.entries();
        let ghost doc0 = self.doc();
        let ghost namev = name@;
        self.last_section_name = name.clone();
        let _slot = self.data.entry(name, OrderedHashMap::new());
        proof {
            lemma_assoc_idx(es0, namev);
            if assoc_has(es0, namev) {
                let i = assoc_idx(es0, namev);
                assert(self.data.entries() == es0.update(i, (namev, self.data.entries()[i].1)));
                assert(self.data.entries()[i].1 == es0[i].1);
                assert(self.data.entries() =~= es0);
                assert(self.doc() == doc0);
            } else {
                assert(self.data.entries() == es0.push((namev, self.data.entries()[es0.len() as int].1)));
                assert(self.data.entries()[es0.len() as int].1.entries() == Seq::<(
                    Seq<char>,
                    String,
                )>::empty());
                assert(sec_view(Seq::<(Seq<char>, String)>::empty()) =~= Seq::<(
                    Seq<char>,
                    Seq<char>,
                )>::empty());
                assert(self.doc() =~= doc_add_section(doc0, namev));
            }
            assert forall|i: int| 0 <= i < self.data.entries().len() implies (
            #[trigger] self.data.entries()[i].1).wf() by {
                if i < es0.len() {
                    assert(self.data.entries()[i].1 == es0[i].1);
                }
            }
        }
    }

    /// Upsert `(name, value)` in the cursor's section; the builder form of
    /// one `key = value` line.
    pub fn item(self, name: &str, value: &str) -> (r: Ini)
        requires
            self.wf(),
        ensures
            r.wf(),
            r.doc() == doc_add_entry(self.doc(), self.cursor(), name@, value@),
            r.cursor() == self.cursor(),
    {
        let mut s = self;
        s.add_pair(String::from_str(name), String::from_str(value));
        s
    }

    /// The document denoted by `buf`: each line classified by the line
    /// grammar and folded in; malformed lines are skipped, not fatal.
    pub fn from_buffer(buf: &str) -> (r: Ini)
        ensures
            r.wf(),
            r.doc() == parse_doc(buf@),
            r.cursor() == parse_doc_fold(
                Seq::empty(),
                Seq::empty(),
                lines_of(buf@),
            ).1,
    {
        let chars = to_chars(buf);
        let lines = split_lines(&chars);
        let ghost line_views = lines@.map_values(|l: Vec<char>| l@);
        let mut ini = Ini::new();
        let n = lines.len();
        let mut i: usize = 0;
        proof {
            assert(line_views.skip(0) =~= line_views);
        }
        while i < n
            invariant
                i <= n == lines@.len(),
                line_views == lines@.map_values(|l: Vec<char>| l@),
                ini.wf(),
                parse_doc_fold(Seq::empty(), Seq::empty(), line_views) == parse_doc_fold(
                    ini.doc(),
                    ini.cursor(),
                    line_views.skip(i as int),
                ),
            decreases n - i,
        {
            let ghost rest = line_views.skip(i as int);
            proof {
                assert(rest[0] == line_views[i as int]);
                assert(rest.drop_first() =~= line_views.skip(i + 1));
            }
            match parse_line_chars(&lines[i]) {
                Parsed::Section(name) => {
                    ini.enter_section(name);
                },
                Parsed::Value(k, v) => {
                    ini.add_pair(k, v);
                },
                _ => {},
            }
            i += 1;
        }
        proof {
            assert(line_views.skip(n as int) =~= Seq::<Seq<char>>::empty());
        }
        ini
    }

    /// The raw text stored under `key` in section `section`, if both exist.
    fn get_raw<'a>(&'a self, section: &str, key: &str) -> (r: Option<&'a String>)
        requires
            self.wf(),
        ensures
            match r {
                Some(v) => doc_lookup(self.doc(), section@, key@) == Some(v@),
                None => doc_lookup(self.doc(), section@, key@) is None,
            },
    {
        proof {
            self.data.lemma_wf_distinct();
            lemma_doc_of_keys(self.data.entries());
            lemma_assoc_idx_by_keys(self.doc(), self.data.entries(), section@);
            lemma_assoc_idx(self.data.entries(), section@);
        }
        match self.data.get(section) {
            Some(sec) => {
                proof {
                    let i = assoc_idx(self.data.entries(), section@);
                    assert(*sec == self.data.entries()[i].1);
                    assert(sec.wf());
                    assert(self.doc()[i].1 == sec_view(sec.entries()));
                    assert(assoc_get(self.doc(), section@) == Some(sec_view(sec.entries())));
                    lemma_sec_view_get(sec.entries(), key@);
                }
                sec.get(key)
            },
            None => None,
        }
    }

    /// The value under `key` in `section`, read as a `T`: `None` when the
    /// section or key is missing or the text is not accepted as a `T`.
    pub fn get<T: IniValue>(&self, section: &str, key: &str) -> (r: Option<T>)
        requires
            self.wf(),
        ensures
            match doc_lookup(self.doc(), section@, key@) {
                Some(raw) => {
                    &&& (r is Some <==> T::accepts(raw))
                    &&& match r {
                        Some(v) => T::denotes(raw, &v),
                        None => true,
                    }
                },
                None => r is None,
            },
    {
        match self.get_raw(section, key) {
            Some(x) => T::from_text(x.as_str()),
            None => None,
        }
    }

    /// The serialized document: `[name]` then `key = value` lines per
    /// section, a blank line between sections, no trailing newline.
    pub fn to_buffer(&self) -> (r: String)
        requires
            self.wf(),
        ensures
            r@ == doc_text(self.doc()),
    {
        let mut out: Vec<char> = Vec::new();
        let n = self.data.len();
        let mut i: usize = 0;
        proof {
            assert(self.doc().len() == self.data.entries().len());
            assert(doc_text(self.doc().take(0)) =~= Seq::<char>::empty());
        }
        while i < n
            invariant
                self.wf(),
                i <= n == self.doc().len(),
                out@ == doc_text(self.doc().take(i as int)),
            decreases n - i,
        {
            let ghost d = self.doc();
            let ghost base = if i > 0 {
                doc_text(d.take(i as int)) + seq!['\n', '\n']
            } else {
                doc_text(d.take(i as int))
            };
            if i > 0 {
                out.push('\n');
                out.push('\n');
            }
            let (name, sec) = self.data.get_at(i);
            out.push('[');
            append_str(&mut out, name.as_str());
            out.push(']');
            let ghost items = d[i as int].1;
            proof {
                assert(items == sec_view(sec.entries()));
                assert(d[i as int].0 == name@);
                assert(out@ =~= base + seq!['['] + name@ + seq![']'] + sec_items_text(
                    items.take(0),
                ));
            }
            let m = sec.len();
            let mut j: usize = 0;
            while j < m
                invariant
                    self.wf(),
                    i < n == self.doc().len(),
                    d == self.doc(),
                    items == d[i as int].1,
                    items == sec_view(sec.entries()),
                    j <= m == items.len(),
                    m == sec.entries().len(),
                    out@ == base + seq!['['] + d[i as int].0 + seq![']'] + sec_items_text(
                        items.take(j as int),
                    ),
                decreases m - j,
            {
                let (k, v) = sec.get_at(j);
                out.push('\n');
                append_str(&mut out, k.as_str());
                out.push(' ');
                out.push('=');
                out.push(' ');
                append_str(&mut out, v.as_str());
                proof {
                    assert(items[j as int] == (sec.entries()[j as int].0, sec.entries()[
                        j as int].1@));
                    assert(items.take(j + 1).drop_last() =~= items.take(j as int));
                    assert(items.take(j + 1).last() == items[j as int]);
                    assert(out@ =~= base + seq!['['] + d[i as int].0 + seq![']']
                        + sec_items_text(items.take(j + 1)));
                }
                j += 1;
            }
            proof {
                assert(items.take(m as int) =~= items);
                assert(d.take(i + 1).drop_last() =~= d.take(i as int));
                assert(d.take(i + 1).last() == d[i as int]);
                assert(out@ =~= base + sec_text(d[i as int].0, items));
                if i == 0 {
                    assert(doc_text(d.take(1)) == sec_text(d[0].0, d[0].1));
                } else {
                    assert(doc_text(d.take(i + 1)) == doc_text(d.take(i as int)) + seq![
                        '\n',
                        '\n',
                    ] + sec_text(d[i as int].0, d[i as int].1));
                }
                assert(out@ =~= doc_text(d.take(i + 1)));
            }
            i += 1;
        }
        proof {
            assert(self.doc().take(n as int) =~= self.doc());
        }
        chars_to_string(&out)
    }

    /// Add `name` mapped to the elements of `vector` joined by `sep`; the
    /// elements themselves are stored verbatim, with no escaping added.
    pub fn item_vec_with_sep(self, name: &str, vector: &Vec<String>, sep: &str) -> (r: Ini)
        requires
            self.wf(),
        ensures
            r.wf(),
            r.doc() == doc_add_entry(
                self.doc(),
                self.cursor(),
                name@,
                join_with(views_of(vector@), sep@),
            ),
            r.cursor() == self.cursor(),
    {
        let ghost vv = views_of(vector@);
        let mut out: Vec<char> = Vec::new();
        let n = vector.len();
        let mut i: usize = 0;
        proof {
            assert(vv.len() == vector@.len());
            assert(out@ =~= join_with(vv.take(0), sep@));
        }
        while i < n
            invariant
                i <= n == vector@.len(),
                vv == views_of(vector@),
                out@ == join_with(vv.take(i as int), sep@),
            decreases n - i,
        {
            if i > 0 {
                append_str(&mut out, sep);
            }
            append_str(&mut out, vector[i].as_str());
            proof {
                assert(vv[i as int] == vector@[i as int]@);
                assert(vv.take(i + 1).drop_last() =~= vv.take(i as int));
                assert(vv.take(i + 1).last() == vv[i as int]);
                if i == 0 {
                    assert(join_with(vv.take(1), sep@) == vv[0]);
                    assert(out@ =~= vv[0]);
                }
            }
            i += 1;
        }
        proof {
            assert(vv.take(n as int) =~= vv);
        }
        let joined = chars_to_string(&out);
        let mut s = self;
        s.add_pair(String::from_str(name), joined);
        s
    }

    /// Add `name` mapped to the elements of `vector` joined by `", "`.
    pub fn item_vec(self, name: &str, vector: &Vec<String>) -> (r: Ini)
        requires
            self.wf(),
        ensures
            r.wf(),
            r.doc() == doc_add_entry(
                self.doc(),
                self.cursor(),
                name@,
                join_with(views_of(vector@), ", "@),
            ),
            r.cursor() == self.cursor(),
    {
        self.item_vec_with_sep(name, vector, ", ")
    }

    /// The value under `key` in `section`, split at unescaped `sep` and each
    /// token read as a `T`: `None` when the entry is missing or any token is
    /// not accepted — a partial vector is never returned.
    pub fn get_vec_with_sep<T: IniValue>(&self, section: &str, key: &str, sep: char) -> (r: Option<
        Vec<T>,
    >)
        requires
            self.wf(),
        ensures
            match doc_lookup(self.doc(), section@, key@) {
                Some(raw) => {
                    &&& (r is Some <==> vec_accepts::<T>(tokenize(raw, sep)))
                    &&& match r {
                        Some(vs) => vec_denotes::<T>(tokenize(raw, sep), vs@),
                        None => true,
                    }
                },
                None => r is None,
            },
    {
        let raw = match self.get_raw(section, key) {
            Some(x) => x,
            None => {
                return None;
            },
        };
        let ghost toks = tokenize(raw@, sep);
        let mut tk = Tokenizer::with_sep(raw.as_str(), sep);
        let mut out: Vec<T> = Vec::new();
        proof {
            assert(toks.skip(0) =~= toks);
        }
        loop
            invariant
                self.wf(),
                doc_lookup(self.doc(), section@, key@) == Some(raw@),
                toks == tokenize(raw@, sep),
                tk.separator() == sep,
                out@.len() <= toks.len(),
                tk.remaining() == toks.skip(out@.len() as int),
                forall|j: int|
                    0 <= j < out@.len() ==> T::accepts(#[trigger] toks[j]) && T::denotes(
                        toks[j],
                        &out@[j],
                    ),
            decreases toks.len() - out@.len(),
        {
            let ghost done = out@.len() as int;
            let t = match tk.next() {
                Some(t) => t,
                None => {
                    return Some(out);
                },
            };
            proof {
                assert(toks.skip(done)[0] == toks[done]);
                assert(toks.skip(done).drop_first() =~= toks.skip(done + 1));
            }
            match T::from_text(t.as_str()) {
                Some(v) => {
                    out.push(v);
                },
                None => {
                    proof {
                        assert(!T::accepts(toks[done]));
                    }
                    return None;
                },
            }
        }
    }

    /// The value under `key` in `section` as a list of `T`, split at
    /// unescaped commas.
    pub fn get_vec<T: IniValue>(&self, section: &str, key: &str) -> (r: Option<Vec<T>>)
        requires
            self.wf(),
        ensures
            match doc_lookup(self.doc(), section@, key@) {
                Some(raw) => {
                    &&& (r is Some <==> vec_accepts::<T>(tokenize(raw, ',')))
                    &&& match r {
                        Some(vs) => vec_denotes::<T>(tokenize(raw, ','), vs@),
                        None => true,
                    }
                },
                None => r is None,
            },
    {
        self.get_vec_with_sep(section, key, ',')
    }

    /// A cursor over the entries of section `section`, in first-insertion
    /// order, if that section exists.
    pub fn iter_section<'a>(&'a self, section: &str) -> (r: Option<Iter<'a, String>>)
        requires
            self.wf(),
        ensures
            r is Some <==> assoc_has(self.doc(), section@),
            match r {
                Some(it) => assoc_get(self.doc(), section@) == Some(sec_view(it.remaining())),
                None => true,
            },
    {
        proof {
            self.data.lemma_wf_distinct();
            lemma_doc_of_keys(self.data.entries());
            lemma_assoc_idx_by_keys(self.doc(), self.data.entries(), section@);
            lemma_assoc_idx(self.data.entries(), section@);
        }
        match self.data.get(section) {
            Some(sec) => {
                proof {
                    let i = assoc_idx(self.data.entries(), section@);
                    assert(*sec == self.data.entries()[i].1);
                    assert(self.doc()[i].1 == sec_view(sec.entries()));
                }
                Some(sec.iter())
            },
            None => None,
        }
    }

    /// A cursor over all sections, in first-appearance order.
    pub fn iter<'a>(&'a self) -> (r: IniIter<'a>)
        ensures
            doc_of(r.remaining()) == self.doc(),
    {
        IniIter { inner: self.data.iter() }
    }

    /// A position cursor over the sections, for replacing values in place.
    pub fn iter_mut(&mut self) -> (r: IniIterMut)
        ensures
            final(self).doc() == old(self).doc(),
            final(self).cursor() == old(self).cursor(),
            final(self).wf() == old(self).wf(),
            r.position() == 0,
    {
        let it = IniIterMut { inner: self.data.iter_mut() };
        it
    }
}

/// A read-only cursor over the sections, yielding each name together with a
/// cursor over its entries.
pub struct IniIter<'a> {
    inner: Iter<'a, Section>,
}

impl<'a> IniIter<'a> {
    /// The sections not yet yielded.
    pub closed spec fn remaining(&self) -> Seq<(Seq<char>, Section)> {
        self.inner.remaining()
    }

    /// The next section in order, if one is left.
    pub fn next(&mut self) -> (r: Option<(&'a String, Iter<'a, String>)>)
        ensures
            old(self).remaining().len() == 0 ==> r is None && final(self).remaining() == old(
                self,
            ).remaining(),
            old(self).remaining().len() > 0 ==> match r {
                Some(kv) => kv.0@ == old(self).remaining()[0].0 && kv.1.remaining() == old(
                    self,
                ).remaining()[0].1.entries() && final(self).remaining() == old(
                    self,
                ).remaining().drop_first(),
                None => false,
            },
    {
        match self.inner.next() {
            Some((name, sec)) => Some((name, sec.iter())),
            None => None,
        }
    }
}

/// A position cursor for editing a document section by section: each `next`
/// call hands back one section name and the section itself, mutable in
/// place; the section order never changes.
pub struct IniIterMut {
    inner: IterMut,
}

impl IniIterMut {
    /// The position of the next section to yield.
    pub closed spec fn position(&self) -> int {
        self.inner.position()
    }

    /// Whether a `next` call on `ini` has a section left to yield.
    pub fn has_next(&self, ini: &Ini) -> (r: bool)
        ensures
            r == (self.position() < ini.doc().len()),
    {
        self.inner.has_next(&ini.data)
    }

    /// The next section of `ini`, its entries mutable in place.
    pub fn next<'a>(&mut self, ini: &'a mut Ini) -> (r: (String, &'a mut Section))
        requires
            old(ini).wf(),
            old(self).position() < old(ini).doc().len(),
        ensures
            ({
                let i = old(self).position();
                &&& r.0@ == old(ini).doc()[i].0
                &&& (*r.1).wf()
                &&& sec_view((*r.1).entries()) == old(ini).doc()[i].1
                &&& final(ini).doc() =~= old(ini).doc().update(
                    i,
                    (r.0@, sec_view(final(r.1).entries())),
                )
                &&& final(ini).cursor() == old(ini).cursor()
                &&& (final(r.1).wf() ==> final(ini).wf())
                &&& final(self).position() == i + 1
            }),
    {
        proof {
            let i = old(self).position();
            old(self).inner.lemma_position_nonneg();
            assert(old(ini).doc().len() == old(ini).data.entries().len());
            assert(old(ini).doc()[i] == (
                old(ini).data.entries()[i].0,
                sec_view(old(ini).data.entries()[i].1.entries()),
            ));
            assert(old(ini).data.entries()[i].1.wf());
        }
        let (name, sec) = self.inner.next(&mut ini.data);
        (name, sec)
    }
}

impl Default for Ini {
    /// Same as `Ini::new`.
    fn default() -> (r: Ini)
        ensures
            r.wf(),
            r.doc() == Seq::<(Seq<char>, SecView)>::empty(),
            r.cursor() == Seq::<char>::empty(),
    {
        Ini::new()
    }
}

} // verus!
