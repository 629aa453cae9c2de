//! Login-history text built from entries, in any layout of white space, and
//! what reading it back gives: one block per entry, in order, holding that
//! entry's pairs only.
use vstd::prelude::*;
use crate::edit::{free_of, join_nl, lemma_lines_join, lemma_split_front, lemma_split_none};
use crate::text::{all_digits, is_space, lines_of, lower_of, split_on, strip_cr, trim, trim_end, trim_start};
use crate::vdf::{
    assoc_insert, close_brace, has_key, keys_unique, lemma_assoc_insert, open_brace,
    parse_blocks, scan_lines, scan_step, Blocks, Fields, ScanState,
};

verus! {

/// One entry of a login history: its numeric id and its key/value pairs.
pub struct Entry {
    pub id: Seq<char>,
    pub fields: Seq<(Seq<char>, Seq<char>)>,
}

/// How a history is laid out: the white space before each entry line
/// (twice before a pair), the white space between a key and its value, and
/// the root block's name.
pub struct Layout {
    pub pad: Seq<char>,
    pub gap: Seq<char>,
    pub name: Seq<char>,
}

/// White space without line feeds.
pub open spec fn blank(s: Seq<char>) -> bool {
    forall|i: int| 0 <= i < s.len() ==> is_space(#[trigger] s[i]) && s[i] != '\n'
}

pub open spec fn layout_ok(lay: Layout) -> bool {
    blank(lay.pad) && blank(lay.gap) && free_of(lay.name, '"') && free_of(lay.name, '\n')
}

pub open spec fn quoted(s: Seq<char>) -> Seq<char> {
    seq!['"'] + s + seq!['"']
}

pub open spec fn field_line(lay: Layout, k: Seq<char>, v: Seq<char>) -> Seq<char> {
    lay.pad + lay.pad + (quoted(k) + lay.gap + quoted(v))
}

pub open spec fn field_lines(lay: Layout, fs: Fields) -> Seq<Seq<char>> {
    fs.map_values(|p: (Seq<char>, Seq<char>)| field_line(lay, p.0, p.1))
}

/// An entry's lines: its quoted id, an opening brace, one line per pair,
/// a closing brace.
pub open spec fn entry_lines(lay: Layout, e: Entry) -> Seq<Seq<char>> {
    seq![lay.pad + quoted(e.id), lay.pad + seq!['{']] + field_lines(lay, e.fields) + seq![
        lay.pad + seq!['}'],
    ]
}

pub open spec fn entries_lines(lay: Layout, es: Seq<Entry>) -> Seq<Seq<char>>
    decreases es.len(),
{
    if es.len() == 0 {
        seq![]
    } else {
        entries_lines(lay, es.drop_last()) + entry_lines(lay, es.last())
    }
}

pub open spec fn history_lines(lay: Layout, es: Seq<Entry>) -> Seq<Seq<char>> {
    seq![quoted(lay.name), seq!['{']] + entries_lines(lay, es) + seq![seq!['}']]
}

/// The text of a login history holding `es`, one line each, in layout
/// `lay`.
pub open spec fn history_text(lay: Layout, es: Seq<Entry>) -> Seq<char> {
    join_nl(history_lines(lay, es))
}

/// Entries that such a text can hold: all-digit ids, no id twice, and keys
/// and values without quotes or line feeds.
pub open spec fn well_formed(es: Seq<Entry>) -> bool {
    &&& forall|i: int| 0 <= i < es.len() ==> all_digits(#[trigger] es[i].id)
    &&& forall|i: int, j: int| 0 <= i < j < es.len() ==> #[trigger] es[i].id != #[trigger] es[j].id
    &&& forall|i: int, j: int|
        0 <= i < es.len() && 0 <= j < es[i].fields.len() ==> {
            &&& free_of(#[trigger] es[i].fields[j].0, '"')
            &&& free_of(es[i].fields[j].0, '\n')
            &&& free_of(es[i].fields[j].1, '"')
            &&& free_of(es[i].fields[j].1, '\n')
        }
}

/// The pairs that reading an entry's lines gathers.
pub open spec fn read_fields(fs: Fields) -> Fields
    decreases fs.len(),
{
    if fs.len() == 0 {
        seq![]
    } else {
        assoc_insert(read_fields(fs.drop_last()), lower_of(fs.last().0), fs.last().1)
    }
}

pub open spec fn scan_from(st: ScanState, lines: Seq<Seq<char>>) -> ScanState
    decreases lines.len(),
{
    if lines.len() == 0 {
        st
    } else {
        scan_step(scan_from(st, lines.drop_last()), lines.last())
    }
}

proof fn lemma_scan_from_concat(st: ScanState, a: Seq<Seq<char>>, b: Seq<Seq<char>>)
    ensures
        scan_from(st, a + b) == scan_from(scan_from(st, a), b),
    decreases b.len(),
{
    if b.len() == 0 {
        assert(a + b =~= a);
    } else {
        lemma_scan_from_concat(st, a, b.drop_last());
        assert((a + b).drop_last() =~= a + b.drop_last());
        assert((a + b).last() == b.last());
    }
}

proof fn lemma_scan_lines_from(lines: Seq<Seq<char>>)
    ensures
        scan_lines(lines) == scan_from(
            (ScanState { depth: 0, current: None, fields: seq![], blocks: seq![] }),
            lines,
        ),
    decreases lines.len(),
{
    if lines.len() > 0 {
        lemma_scan_lines_from(lines.drop_last());
    }
}

proof fn lemma_trim_pad(w: Seq<char>, x: Seq<char>)
    requires
        forall|i: int| 0 <= i < w.len() ==> is_space(#[trigger] w[i]),
        x.len() > 0,
        !is_space(x[0]),
        !is_space(x.last()),
    ensures
        trim(w + x) == x,
    decreases w.len(),
{
    let t = w + x;
    if w.len() > 0 {
        let d = w.drop_first();
        assert forall|i: int| 0 <= i < d.len() implies is_space(#[trigger] d[i]) by {
            assert(d[i] == w[i + 1]);
        }
        assert(t.drop_first() =~= d + x);
        lemma_trim_pad(d, x);
        assert(is_space(t[0]));
        assert(trim_start(t) == trim_start(t.drop_first()));
    } else {
        assert(t =~= x);
        assert(trim_start(x) == x);
        assert(trim_end(x) == x);
    }
}

proof fn lemma_blank_twice(w: Seq<char>)
    requires
        blank(w),
    ensures
        blank(w + w),
{
    assert forall|i: int| 0 <= i < (w + w).len() implies is_space(#[trigger] (w + w)[i]) && (w
        + w)[i] != '\n' by {
        if i < w.len() {
            assert((w + w)[i] == w[i]);
        } else {
            assert((w + w)[i] == w[i - w.len()]);
        }
    }
}

proof fn lemma_split_quoted(s: Seq<char>)
    requires
        free_of(s, '"'),
    ensures
        split_on(quoted(s), '"') == seq![Seq::<char>::empty(), s, Seq::<char>::empty()],
{
    let e = Seq::<char>::empty();
    assert(free_of(e, '"'));
    assert(quoted(s) =~= e + seq!['"'] + (s + seq!['"'] + e));
    lemma_split_front(e, s + seq!['"'] + e, '"');
    lemma_split_front(s, e, '"');
    lemma_split_none(e, '"');
    assert(split_on(quoted(s), '"') =~= seq![e, s, e]);
}

proof fn lemma_split_field(k: Seq<char>, v: Seq<char>, tt: Seq<char>)
    requires
        free_of(k, '"'),
        free_of(v, '"'),
        blank(tt),
    ensures
        split_on(quoted(k) + tt + quoted(v), '"').len() == 5,
        split_on(quoted(k) + tt + quoted(v), '"')[1] == k,
        split_on(quoted(k) + tt + quoted(v), '"')[3] == v,
{
    let e = Seq::<char>::empty();
    assert(free_of(e, '"'));
    assert forall|i: int| 0 <= i < tt.len() implies #[trigger] tt[i] != '"' by {
        assert(is_space(tt[i]));
    }
    let t = quoted(k) + tt + quoted(v);
    let r3 = v + seq!['"'] + e;
    let r2 = tt + seq!['"'] + r3;
    let r1 = k + seq!['"'] + r2;
    assert(t =~= e + seq!['"'] + r1);
    lemma_split_front(e, r1, '"');
    lemma_split_front(k, r2, '"');
    lemma_split_front(tt, r3, '"');
    lemma_split_front(v, e, '"');
    lemma_split_none(e, '"');
    assert(split_on(t, '"') =~= seq![e, k, tt, v, e]);
}

proof fn lemma_read_fields_keys(fs: Fields)
    ensures
        keys_unique(read_fields(fs)),
        forall|key: Seq<char>|
            #[trigger] has_key(read_fields(fs), key) ==> exists|j: int|
                0 <= j < fs.len() && key == lower_of(#[trigger] fs[j].0),
    decreases fs.len(),
{
    if fs.len() > 0 {
        let d = fs.drop_last();
        lemma_read_fields_keys(d);
        lemma_assoc_insert(read_fields(d), lower_of(fs.last().0), fs.last().1);
        assert forall|key: Seq<char>| #[trigger] has_key(read_fields(fs), key) implies exists|j: int|
            0 <= j < fs.len() && key == lower_of(#[trigger] fs[j].0) by {
            if has_key(read_fields(d), key) {
                let j = choose|j: int| 0 <= j < d.len() && key == lower_of(#[trigger] d[j].0);
                assert(fs[j] == d[j]);
            } else {
                assert(key == lower_of(fs[fs.len() - 1].0));
            }
        }
    }
}

proof fn lemma_scan_fields(lay: Layout, id: Seq<char>, b: Blocks, fs: Fields)
    requires
        layout_ok(lay),
        forall|j: int|
            0 <= j < fs.len() ==> free_of(#[trigger] fs[j].0, '"') && free_of(fs[j].1, '"'),
    ensures
        scan_from((ScanState { depth: 2, current: Some(id), fields: seq![], blocks: b }), field_lines(lay, fs))
            == (ScanState { depth: 2, current: Some(id), fields: read_fields(fs), blocks: b }),
    decreases fs.len(),
{
    let st = ScanState { depth: 2, current: Some(id), fields: seq![], blocks: b };
    if fs.len() > 0 {
        let d = fs.drop_last();
        assert forall|j: int| 0 <= j < d.len() implies free_of(#[trigger] d[j].0, '"') && free_of(
            d[j].1,
            '"',
        ) by {
            assert(d[j] == fs[j]);
        }
        lemma_scan_fields(lay, id, b, d);
        assert(field_lines(lay, fs).drop_last() =~= field_lines(lay, d));
        let (k, v) = fs.last();
        assert(free_of(fs[fs.len() - 1].0, '"') && free_of(fs[fs.len() - 1].1, '"'));
        let l = field_lines(lay, fs).last();
        assert(l == field_line(lay, k, v));
        let inner = quoted(k) + lay.gap + quoted(v);
        lemma_blank_twice(lay.pad);
        assert(inner[0] == '"');
        assert(inner.last() == '"');
        lemma_trim_pad(lay.pad + lay.pad, inner);
        lemma_split_field(k, v, lay.gap);
        assert(inner != open_brace());
        assert(inner != close_brace());
    } else {
        assert(field_lines(lay, fs) =~= Seq::<Seq<char>>::empty());
    }
}

pub open spec fn entry_block(e: Entry) -> (Seq<char>, Fields) {
    (e.id, read_fields(e.fields))
}

proof fn lemma_scan_entry(lay: Layout, e: Entry, b: Blocks)
    requires
        layout_ok(lay),
        all_digits(e.id),
        !has_key(b, e.id),
        keys_unique(b),
        forall|j: int|
            0 <= j < e.fields.len() ==> free_of(#[trigger] e.fields[j].0, '"') && free_of(
                e.fields[j].1,
                '"',
            ),
    ensures
        scan_from((ScanState { depth: 1, current: None, fields: seq![], blocks: b }), entry_lines(lay, e))
            == (ScanState { depth: 1, current: None, fields: seq![], blocks: b.push(entry_block(e)) }),
        keys_unique(b.push(entry_block(e))),
{
    let s0 = ScanState { depth: 1, current: None, fields: seq![], blocks: b };
    let id_line = lay.pad + quoted(e.id);
    let open = lay.pad + seq!['{'];
    let close = lay.pad + seq!['}'];
    let head = seq![id_line, open];
    let body = field_lines(lay, e.fields);
    assert(entry_lines(lay, e) =~= head + body + seq![close]);
    lemma_scan_from_concat(s0, head + body, seq![close]);
    lemma_scan_from_concat(s0, head, body);
    // the id line
    assert(free_of(e.id, '"')) by {
        assert forall|i: int| 0 <= i < e.id.len() implies #[trigger] e.id[i] != '"' by {
            assert(crate::text::is_digit(e.id[i]));
        }
    }
    lemma_trim_pad(lay.pad, quoted(e.id));
    lemma_split_quoted(e.id);
    assert(quoted(e.id) != open_brace());
    assert(quoted(e.id) != close_brace());
    assert(head.drop_last() =~= seq![id_line]);
    assert(seq![id_line].drop_last() =~= Seq::<Seq<char>>::empty());
    let s1 = ScanState { depth: 1, current: Some(e.id), fields: seq![], blocks: b };
    assert(scan_from(s0, Seq::<Seq<char>>::empty()) == s0);
    assert(seq![id_line].last() == id_line);
    assert(trim(id_line) == quoted(e.id));
    let parts = split_on(trim(id_line), '"');
    assert(parts.len() == 3 && parts[1] == e.id);
    assert(scan_step(s0, id_line) == s1);
    assert(scan_from(s0, seq![id_line]) == scan_step(s0, id_line));
    assert(scan_from(s0, seq![id_line]) == s1);

    // the opening brace
    lemma_trim_pad(lay.pad, seq!['{']);
    assert(seq!['{'] =~= open_brace());
    let s2 = ScanState { depth: 2, current: Some(e.id), fields: seq![], blocks: b };
    assert(head.last() == open);
    assert(trim(open) == open_brace());
    assert(scan_step(s1, open) == s2);
    assert(scan_from(s0, head) == scan_step(scan_from(s0, head.drop_last()), open));
    assert(scan_from(s0, head) == s2);
    // the pairs
    lemma_scan_fields(lay, e.id, b, e.fields);
    // the closing brace
    lemma_trim_pad(lay.pad, seq!['}']);
    assert(seq!['}'] =~= close_brace());
    assert(seq!['}'] != open_brace());
    assert(seq![close].drop_last() =~= Seq::<Seq<char>>::empty());
    lemma_assoc_insert(b, e.id, read_fields(e.fields));
    let s3 = ScanState { depth: 2, current: Some(e.id), fields: read_fields(e.fields), blocks: b };
    assert(scan_from(s0, head + body) == s3);
    assert(trim(close) == close_brace());
    assert(assoc_insert(b, e.id, read_fields(e.fields)) == b.push(entry_block(e)));
    assert(scan_step(s3, close) == ScanState { depth: 1, current: None, fields: seq![], blocks: b.push(entry_block(e)) });
    assert(scan_from(s3, seq![close]) == scan_step(scan_from(s3, Seq::<Seq<char>>::empty()), close));
}

pub open spec fn entry_blocks(es: Seq<Entry>) -> Blocks {
    es.map_values(|e: Entry| entry_block(e))
}

proof fn lemma_scan_entries(lay: Layout, es: Seq<Entry>)
    requires
        layout_ok(lay),
        well_formed(es),
    ensures
        scan_from((ScanState { depth: 1, current: None, fields: seq![], blocks: seq![] }), entries_lines(lay, es))
            == (ScanState { depth: 1, current: None, fields: seq![], blocks: entry_blocks(es) }),
        keys_unique(entry_blocks(es)),
    decreases es.len(),
{
    let s0 = ScanState { depth: 1, current: None, fields: seq![], blocks: seq![] };
    if es.len() == 0 {
        assert(entry_blocks(es) =~= Seq::<(Seq<char>, Fields)>::empty());
    } else {
        let d = es.drop_last();
        assert(well_formed(d)) by {
            assert forall|i: int| 0 <= i < d.len() implies all_digits(#[trigger] d[i].id) by {
                assert(d[i] == es[i]);
            }
            assert forall|i: int, j: int| 0 <= i < j < d.len() implies #[trigger] d[i].id
                != #[trigger] d[j].id by {
                assert(d[i] == es[i] && d[j] == es[j]);
            }
            assert forall|i: int, j: int| 0 <= i < d.len() && 0 <= j < d[i].fields.len() implies {
                &&& free_of(#[trigger] d[i].fields[j].0, '"')
                &&& free_of(d[i].fields[j].0, '\n')
                &&& free_of(d[i].fields[j].1, '"')
                &&& free_of(d[i].fields[j].1, '\n')
            } by {
                assert(d[i] == es[i]);
            }
        }
        lemma_scan_entries(lay, d);
        lemma_scan_from_concat(s0, entries_lines(lay, d), entry_lines(lay, es.last()));
        let e = es.last();
        let b = entry_blocks(d);
        assert(!has_key(b, e.id)) by {
            if has_key(b, e.id) {
                let i = choose|i: int| 0 <= i < b.len() && #[trigger] b[i].0 == e.id;
                assert(b[i].0 == d[i].id);
                assert(d[i] == es[i]);
                assert(es[i].id != es[es.len() - 1].id);
            }
        }
        assert(all_digits(es[es.len() - 1].id));
        assert forall|j: int| 0 <= j < e.fields.len() implies free_of(#[trigger] e.fields[j].0, '"')
            && free_of(e.fields[j].1, '"') by {
            assert(free_of(es[es.len() - 1].fields[j].0, '"'));
        }
        lemma_scan_entry(lay, e, b);
        assert(b.push(entry_block(e)) =~= entry_blocks(es));
    }
}

pub open spec fn clean(l: Seq<char>) -> bool {
    free_of(l, '\n') && strip_cr(l) == l
}

proof fn lemma_free_concat(a: Seq<char>, b: Seq<char>, c: char)
    requires
        free_of(a, c),
        free_of(b, c),
    ensures
        free_of(a + b, c),
{
    assert forall|i: int| 0 <= i < (a + b).len() implies #[trigger] (a + b)[i] != c by {
        if i < a.len() {
            assert((a + b)[i] == a[i]);
        } else {
            assert((a + b)[i] == b[i - a.len()]);
        }
    }
}

proof fn lemma_quoted_clean(s: Seq<char>)
    requires
        free_of(s, '\n'),
    ensures
        free_of(quoted(s), '\n'),
        quoted(s).last() == '"',
{
    assert(free_of(seq!['"'], '\n'));
    lemma_free_concat(seq!['"'], s, '\n');
    lemma_free_concat(seq!['"'] + s, seq!['"'], '\n');
}

proof fn lemma_clean_concat(ls: Seq<Seq<char>>, ms: Seq<Seq<char>>)
    requires
        forall|i: int| 0 <= i < ls.len() ==> clean(#[trigger] ls[i]),
        forall|i: int| 0 <= i < ms.len() ==> clean(#[trigger] ms[i]),
    ensures
        forall|i: int| 0 <= i < (ls + ms).len() ==> clean(#[trigger] (ls + ms)[i]),
{
    assert forall|i: int| 0 <= i < (ls + ms).len() implies clean(#[trigger] (ls + ms)[i]) by {
        if i < ls.len() {
            assert((ls + ms)[i] == ls[i]);
        } else {
            assert((ls + ms)[i] == ms[i - ls.len()]);
        }
    }
}

proof fn lemma_entry_lines_clean(lay: Layout, e: Entry)
    requires
        layout_ok(lay),
        all_digits(e.id),
        forall|j: int|
            0 <= j < e.fields.len() ==> free_of(#[trigger] e.fields[j].0, '\n') && free_of(
                e.fields[j].1,
                '\n',
            ),
    ensures
        forall|i: int| 0 <= i < entry_lines(lay, e).len() ==> clean(#[trigger] entry_lines(lay, e)[i]),
{
    let tab = lay.pad;
    let tt = lay.pad + lay.pad;
    lemma_blank_twice(lay.pad);
    assert(free_of(tab, '\n'));
    assert(free_of(tt, '\n'));
    assert(free_of(lay.gap, '\n'));
    assert(free_of(e.id, '\n')) by {
        assert forall|i: int| 0 <= i < e.id.len() implies #[trigger] e.id[i] != '\n' by {
            assert(crate::text::is_digit(e.id[i]));
        }
    }
    lemma_quoted_clean(e.id);
    lemma_free_concat(tab, quoted(e.id), '\n');
    let id_line = tab + quoted(e.id);
    assert(id_line.last() == '"');
    let open = tab + seq!['{'];
    let close = tab + seq!['}'];
    assert(free_of(seq!['{'], '\n'));
    assert(free_of(seq!['}'], '\n'));
    lemma_free_concat(tab, seq!['{'], '\n');
    lemma_free_concat(tab, seq!['}'], '\n');
    assert(open.last() == '{');
    assert(close.last() == '}');
    let head = seq![id_line, open];
    assert forall|i: int| 0 <= i < head.len() implies clean(#[trigger] head[i]) by {}
    let body = field_lines(lay, e.fields);
    assert forall|i: int| 0 <= i < body.len() implies clean(#[trigger] body[i]) by {
        let (k, v) = e.fields[i];
        assert(free_of(e.fields[i].0, '\n') && free_of(e.fields[i].1, '\n'));
        lemma_quoted_clean(k);
        lemma_quoted_clean(v);
        lemma_free_concat(quoted(k), lay.gap, '\n');
        lemma_free_concat(quoted(k) + lay.gap, quoted(v), '\n');
        lemma_free_concat(tt, quoted(k) + lay.gap + quoted(v), '\n');
        assert(body[i] == field_line(lay, k, v));
        assert(field_line(lay, k, v) =~= tt + (quoted(k) + lay.gap + quoted(v)));
        assert(field_line(lay, k, v).last() == '"');
    }
    let tail = seq![close];
    assert forall|i: int| 0 <= i < tail.len() implies clean(#[trigger] tail[i]) by {}
    lemma_clean_concat(head, body);
    lemma_clean_concat(head + body, tail);
    assert(entry_lines(lay, e) =~= head + body + tail);
}

proof fn lemma_entries_lines_clean(lay: Layout, es: Seq<Entry>)
    requires
        layout_ok(lay),
        well_formed(es),
    ensures
        forall|i: int| 0 <= i < entries_lines(lay, es).len() ==> clean(#[trigger] entries_lines(lay, es)[i]),
    decreases es.len(),
{
    if es.len() > 0 {
        let d = es.drop_last();
        assert(well_formed(d)) by {
            assert forall|i: int| 0 <= i < d.len() implies all_digits(#[trigger] d[i].id) by {
                assert(d[i] == es[i]);
            }
            assert forall|i: int, j: int| 0 <= i < j < d.len() implies #[trigger] d[i].id
                != #[trigger] d[j].id by {
                assert(d[i] == es[i] && d[j] == es[j]);
            }
            assert forall|i: int, j: int| 0 <= i < d.len() && 0 <= j < d[i].fields.len() implies {
                &&& free_of(#[trigger] d[i].fields[j].0, '"')
                &&& free_of(d[i].fields[j].0, '\n')
                &&& free_of(d[i].fields[j].1, '"')
                &&& free_of(d[i].fields[j].1, '\n')
            } by {
                assert(d[i] == es[i]);
            }
        }
        lemma_entries_lines_clean(lay, d);
        let e = es.last();
        assert(all_digits(es[es.len() - 1].id));
        assert forall|j: int| 0 <= j < e.fields.len() implies free_of(#[trigger] e.fields[j].0, '\n')
            && free_of(e.fields[j].1, '\n') by {
            assert(free_of(es[es.len() - 1].fields[j].0, '\n'));
        }
        lemma_entry_lines_clean(lay, e);
        lemma_clean_concat(entries_lines(lay, d), entry_lines(lay, e));
    }
}

proof fn lemma_history_lines_clean(lay: Layout, es: Seq<Entry>)
    requires
        layout_ok(lay),
        well_formed(es),
    ensures
        forall|i: int| 0 <= i < history_lines(lay, es).len() ==> free_of(#[trigger] history_lines(lay, es)[i], '\n'),
        forall|i: int|
            0 <= i < history_lines(lay, es).len() ==> strip_cr(#[trigger] history_lines(lay, es)[i])
                == history_lines(lay, es)[i],
{
    let users = lay.name;
    lemma_quoted_clean(users);
    let head = seq![quoted(users), seq!['{']];
    assert(free_of(seq!['{'], '\n'));
    assert forall|i: int| 0 <= i < head.len() implies clean(#[trigger] head[i]) by {}
    let tail = seq![seq!['}']];
    assert(free_of(seq!['}'], '\n'));
    assert forall|i: int| 0 <= i < tail.len() implies clean(#[trigger] tail[i]) by {}
    lemma_entries_lines_clean(lay, es);
    lemma_clean_concat(head, entries_lines(lay, es));
    lemma_clean_concat(head + entries_lines(lay, es), tail);
    assert(history_lines(lay, es) =~= head + entries_lines(lay, es) + tail);
    assert forall|i: int| 0 <= i < history_lines(lay, es).len() implies free_of(
        #[trigger] history_lines(lay, es)[i],
        '\n',
    ) && strip_cr(history_lines(lay, es)[i]) == history_lines(lay, es)[i] by {
        assert(clean(history_lines(lay, es)[i]));
    }
}

/// Reading a well-formed login history, in any layout of white space, gives
/// one block per entry, in order, each under the entry's id and holding
/// exactly that entry's pairs, keys lower-cased, a later equal key winning;
/// so no key of another entry.
pub proof fn lemma_parse_history(lay: Layout, es: Seq<Entry>)
    requires
        layout_ok(lay),
        well_formed(es),
    ensures
        parse_blocks(history_text(lay, es)).len() == es.len(),
        forall|i: int| 0 <= i < es.len() ==> (#[trigger] parse_blocks(history_text(lay, es))[i]).0 == es[i].id,
        forall|i: int, key: Seq<char>|
            0 <= i < es.len() && #[trigger] has_key(parse_blocks(history_text(lay, es))[i].1, key)
                ==> exists|j: int| 0 <= j < es[i].fields.len() && key == lower_of(#[trigger] es[i].fields[j].0),
        forall|i: int|
            0 <= i < es.len() ==> (#[trigger] parse_blocks(history_text(lay, es))[i]).1 == read_fields(
                es[i].fields,
            ),
{
    let ls = history_lines(lay, es);
    lemma_history_lines_clean(lay, es);
    lemma_lines_join(ls);
    lemma_scan_lines_from(ls);
    let init = ScanState { depth: 0, current: None, fields: seq![], blocks: seq![] };
    let hdr = quoted(lay.name);
    let head = seq![hdr, seq!['{']];
    assert(ls =~= head + entries_lines(lay, es) + seq![seq!['}']]);
    lemma_scan_from_concat(init, head + entries_lines(lay, es), seq![seq!['}']]);
    lemma_scan_from_concat(init, head, entries_lines(lay, es));
    // the header line leaves the scan where it was
    let e0 = Seq::<char>::empty();
    assert(e0 + hdr =~= hdr);
    lemma_trim_pad(e0, hdr);
    lemma_split_quoted(lay.name);
    assert(hdr != open_brace());
    assert(hdr != close_brace());
    assert(seq!['{'] =~= open_brace());
    assert(trim(seq!['{']) == seq!['{']) by {
        lemma_trim_pad(e0, seq!['{']);
        assert(e0 + seq!['{'] =~= seq!['{']);
    }
    assert(head.drop_last() =~= seq![hdr]);
    assert(seq![hdr].drop_last() =~= Seq::<Seq<char>>::empty());
    let s1 = ScanState { depth: 1, current: None, fields: seq![], blocks: seq![] };
    assert(scan_from(init, Seq::<Seq<char>>::empty()) == init);
    assert(seq![hdr].last() == hdr);
    assert(trim(hdr) == hdr);
    let parts = split_on(trim(hdr), '"');
    assert(parts.len() == 3);
    assert(scan_step(init, hdr) == init);
    assert(scan_from(init, seq![hdr]) == init);
    assert(head.last() == seq!['{']);
    assert(scan_step(init, seq!['{']) == s1);
    assert(scan_from(init, head) == s1);
    lemma_scan_entries(lay, es);
    // the final closing brace files nothing
    assert(trim(seq!['}']) == seq!['}']) by {
        lemma_trim_pad(e0, seq!['}']);
        assert(e0 + seq!['}'] =~= seq!['}']);
    }
    assert(seq!['}'] =~= close_brace());
    assert(seq!['}'] != open_brace());
    assert(seq![seq!['}']].drop_last() =~= Seq::<Seq<char>>::empty());
    let s2 = ScanState { depth: 1, current: None, fields: seq![], blocks: entry_blocks(es) };
    assert(scan_from(init, head + entries_lines(lay, es)) == s2);
    let fin = ScanState { depth: 0, current: None, fields: seq![], blocks: entry_blocks(es) };
    assert(seq![seq!['}']].last() == seq!['}']);
    assert(scan_step(s2, seq!['}']) == fin);
    assert(scan_from(s2, seq![seq!['}']]) == scan_step(scan_from(s2, Seq::<Seq<char>>::empty()), seq!['}']));
    assert(scan_from(s2, Seq::<Seq<char>>::empty()) == s2);
    assert(scan_lines(ls) == fin);
    assert(lines_of(history_text(lay, es)) == ls);
    let blocks = parse_blocks(history_text(lay, es));
    assert(blocks == entry_blocks(es));
    assert forall|i: int, key: Seq<char>|
        0 <= i < es.len() && #[trigger] has_key(blocks[i].1, key) implies exists|j: int|
            0 <= j < es[i].fields.len() && key == lower_of(#[trigger] es[i].fields[j].0) by {
        lemma_read_fields_keys(es[i].fields);
    }
}

} // verus!
