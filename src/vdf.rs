//! The brace-nested key/value text format of the client's configuration files,
//! read by a lenient line scan that tracks brace depth.
use vstd::prelude::*;
use crate::text::{
    all_digits, chars_equal, chars_of, is_all_digits, lemma_lines_of_len, lines_of, lower_of,
    lowercase, split_chars, split_lines, split_on, string_of, trim, trim_chars,
};

verus! {

/// Key/value pairs of one block, keys unique.
pub type Fields = Seq<(Seq<char>, Seq<char>)>;

/// Blocks by numeric key, keys unique.
pub type Blocks = Seq<(Seq<char>, Fields)>;

/// Largest input, in characters, that the scanners take: a brace count must
/// fit in an `i64`.
pub open spec fn max_text() -> nat {
    0x7fff_ffff_ffff_fff0
}

pub open spec fn has_key<V>(s: Seq<(Seq<char>, V)>, k: Seq<char>) -> bool {
    exists|i: int| 0 <= i < s.len() && #[trigger] s[i].0 == k
}

pub open spec fn keys_unique<V>(s: Seq<(Seq<char>, V)>) -> bool {
    forall|i: int, j: int|
        0 <= i < s.len() && 0 <= j < s.len() && i != j ==> #[trigger] s[i].0 != #[trigger] s[j].0
}

pub open spec fn key_index<V>(s: Seq<(Seq<char>, V)>, k: Seq<char>) -> int {
    choose|i: int| 0 <= i < s.len() && #[trigger] s[i].0 == k
}

/// The association list `s` with `k` bound to `v`: in place where `k` is
/// bound, at the end where it is not.
pub open spec fn assoc_insert<V>(s: Seq<(Seq<char>, V)>, k: Seq<char>, v: V) -> Seq<
    (Seq<char>, V),
> {
    if has_key(s, k) {
        s.update(key_index(s, k), (k, v))
    } else {
        s.push((k, v))
    }
}

/// The value bound to `k`, if any.
pub open spec fn assoc_get<V>(s: Seq<(Seq<char>, V)>, k: Seq<char>) -> Option<V> {
    if has_key(s, k) {
        Some(s[key_index(s, k)].1)
    } else {
        None
    }
}

pub proof fn lemma_assoc_insert<V>(s: Seq<(Seq<char>, V)>, k: Seq<char>, v: V)
    requires
        keys_unique(s),
    ensures
        keys_unique(assoc_insert(s, k, v)),
        has_key(assoc_insert(s, k, v), k),
        forall|k2: Seq<char>| #[trigger] has_key(assoc_insert(s, k, v), k2) <==> (has_key(s, k2) || k2 == k),
{
    let r = assoc_insert(s, k, v);
    if has_key(s, k) {
        let i = key_index(s, k);
        assert(r[i].0 == k);
        assert forall|k2: Seq<char>| #[trigger] has_key(r, k2) <==> (has_key(s, k2) || k2 == k) by {
            if has_key(s, k2) {
                let j = choose|j: int| 0 <= j < s.len() && #[trigger] s[j].0 == k2;
                assert(r[j].0 == k2);
            }
            if has_key(r, k2) {
                let j = choose|j: int| 0 <= j < r.len() && #[trigger] r[j].0 == k2;
                assert(s[j].0 == k2);
            }
        }
    } else {
        assert(r[s.len() as int].0 == k);
        assert forall|k2: Seq<char>| #[trigger] has_key(r, k2) <==> (has_key(s, k2) || k2 == k) by {
            if has_key(s, k2) {
                let j = choose|j: int| 0 <= j < s.len() && #[trigger] s[j].0 == k2;
                assert(r[j].0 == k2);
            }
            if has_key(r, k2) && k2 != k {
                let j = choose|j: int| 0 <= j < r.len() && #[trigger] r[j].0 == k2;
                assert(s[j].0 == k2);
            }
        }
    }
}

/// Every block's pairs have unique keys.
pub open spec fn inner_unique(b: Blocks) -> bool {
    forall|j: int| 0 <= j < b.len() ==> keys_unique(#[trigger] b[j].1)
}

pub proof fn lemma_inner_unique_insert(b: Blocks, k: Seq<char>, v: Fields)
    requires
        inner_unique(b),
        keys_unique(v),
    ensures
        inner_unique(assoc_insert(b, k, v)),
{
    let r = assoc_insert(b, k, v);
    assert forall|j: int| 0 <= j < r.len() implies keys_unique(#[trigger] r[j].1) by {
        if has_key(b, k) {
            if j != key_index(b, k) {
                assert(r[j] == b[j]);
            }
        } else if j < b.len() {
            assert(r[j] == b[j]);
        }
    }
}

/// Index of the pair whose key is `k`.
pub fn find_key<V>(s: &Vec<(Vec<char>, V)>, k: &Vec<char>) -> (r: Option<usize>)
    ensures
        match r {
            Some(i) => i < s@.len() && s@[i as int].0@ == k@ && forall|j: int|
                0 <= j < i ==> #[trigger] s@[j].0@ != k@,
            None => forall|i: int| 0 <= i < s@.len() ==> #[trigger] s@[i].0@ != k@,
        },
{
    let mut i: usize = 0;
    while i < s.len()
        invariant
            0 <= i <= s@.len(),
            forall|j: int| 0 <= j < i ==> #[trigger] s@[j].0@ != k@,
        decreases s@.len() - i,
    {
        if chars_equal(&s[i].0, k) {
            return Some(i);
        }
        i = i + 1;
    }
    None
}

pub open spec fn fields_view(f: Seq<(Vec<char>, Vec<char>)>) -> Fields {
    f.map_values(|p: (Vec<char>, Vec<char>)| (p.0@, p.1@))
}

pub open spec fn blocks_view(b: Seq<(Vec<char>, Vec<(Vec<char>, Vec<char>)>)>) -> Blocks {
    b.map_values(|p: (Vec<char>, Vec<(Vec<char>, Vec<char>)>)| (p.0@, fields_view(p.1@)))
}

fn put_field(f: &mut Vec<(Vec<char>, Vec<char>)>, k: Vec<char>, v: Vec<char>)
    requires
        keys_unique(fields_view(old(f)@)),
    ensures
        fields_view(final(f)@) == assoc_insert(fields_view(old(f)@), k@, v@),
        keys_unique(fields_view(final(f)@)),
{
    let ghost fv = fields_view(f@);
    let ghost kv = k@;
    let ghost vv = v@;
    proof {
        lemma_assoc_insert(fv, kv, vv);
    }
    match find_key(f, &k) {
        Some(i) => {
            proof {
                assert(fv[i as int].0 == kv);
                let j = key_index(fv, kv);
                assert(fv[j].0 == kv);
            }
            f.set(i, (k, v));
            proof {
                assert(fields_view(f@) =~= fv.update(i as int, (kv, vv)));
            }
        },
        None => {
            proof {
                assert(!has_key(fv, kv));
            }
            f.push((k, v));
            proof {
                assert(fields_view(f@) =~= fv.push((kv, vv)));
            }
        },
    }
}

fn put_block(
    b: &mut Vec<(Vec<char>, Vec<(Vec<char>, Vec<char>)>)>,
    k: Vec<char>,
    v: Vec<(Vec<char>, Vec<char>)>,
)
    requires
        keys_unique(blocks_view(old(b)@)),
    ensures
        blocks_view(final(b)@) == assoc_insert(blocks_view(old(b)@), k@, fields_view(v@)),
        keys_unique(blocks_view(final(b)@)),
{
    let ghost bv = blocks_view(b@);
    let ghost kv = k@;
    let ghost vv = fields_view(v@);
    proof {
        lemma_assoc_insert(bv, kv, vv);
    }
    match find_key(b, &k) {
        Some(i) => {
            proof {
                assert(bv[i as int].0 == kv);
                let j = key_index(bv, kv);
                assert(bv[j].0 == kv);
            }
            b.set(i, (k, v));
            proof {
                assert(blocks_view(b@) =~= bv.update(i as int, (kv, vv)));
            }
        },
        None => {
            proof {
                assert(!has_key(bv, kv));
            }
            b.push((k, v));
            proof {
                assert(blocks_view(b@) =~= bv.push((kv, vv)));
            }
        },
    }
}

/// Where the scan stands after some lines.
pub struct ScanState {
    pub depth: int,
    pub current: Option<Seq<char>>,
    pub fields: Fields,
    pub blocks: Blocks,
}

pub open spec fn open_brace() -> Seq<char> {
    seq!['{']
}

pub open spec fn close_brace() -> Seq<char> {
    seq!['}']
}

/// One line of the scan. A lone `{` or `}` moves the depth; closing back to
/// depth 1 files the pending block under its key. A line of two quoted
/// strings at depth 2 adds a pair, its key lower-cased, to the pending block.
/// A line of one quoted all-digit string at depth 1 opens a pending block.
/// Anything else is skipped.
pub open spec fn scan_step(st: ScanState, line: Seq<char>) -> ScanState {
    let t = trim(line);
    if t == open_brace() {
        ScanState { depth: st.depth + 1, current: st.current, fields: st.fields, blocks: st.blocks }
    } else if t == close_brace() {
        if st.depth - 1 == 1 && st.current is Some {
            ScanState {
                depth: st.depth - 1,
                current: None,
                fields: seq![],
                blocks: assoc_insert(st.blocks, st.current->0, st.fields),
            }
        } else {
            ScanState {
                depth: st.depth - 1,
                current: st.current,
                fields: st.fields,
                blocks: st.blocks,
            }
        }
    } else {
        let parts = split_on(t, '"');
        if parts.len() >= 4 {
            if st.depth == 2 && st.current is Some {
                ScanState {
                    depth: st.depth,
                    current: st.current,
                    fields: assoc_insert(st.fields, lower_of(parts[1]), parts[3]),
                    blocks: st.blocks,
                }
            } else {
                st
            }
        } else if parts.len() >= 2 && st.depth == 1 && all_digits(parts[1]) {
            ScanState {
                depth: st.depth,
                current: Some(parts[1]),
                fields: st.fields,
                blocks: st.blocks,
            }
        } else {
            st
        }
    }
}

pub open spec fn scan_lines(lines: Seq<Seq<char>>) -> ScanState
    decreases lines.len(),
{
    if lines.len() == 0 {
        ScanState { depth: 0, current: None, fields: seq![], blocks: seq![] }
    } else {
        scan_step(scan_lines(lines.drop_last()), lines.last())
    }
}

/// The blocks that the scan files for a text.
pub open spec fn parse_blocks(content: Seq<char>) -> Blocks {
    scan_lines(lines_of(content)).blocks
}

proof fn lemma_take_last(lines: Seq<Seq<char>>, i: int)
    requires
        0 <= i < lines.len(),
    ensures
        lines.take(i + 1).drop_last() == lines.take(i),
        lines.take(i + 1).last() == lines[i],
{
    assert(lines.take(i + 1).drop_last() =~= lines.take(i));
}

/// The scan over characters.
pub fn parse_vdf_chars(content: &Vec<char>) -> (r: Vec<(Vec<char>, Vec<(Vec<char>, Vec<char>)>)>)
    requires
        content@.len() <= max_text(),
    ensures
        blocks_view(r@) == parse_blocks(content@),
        keys_unique(blocks_view(r@)),
        inner_unique(blocks_view(r@)),
{
    let lines = split_lines(content);
    let ghost ls = lines_of(content@);
    proof {
        lemma_lines_of_len(content@);
        assert(ls.take(0) =~= Seq::<Seq<char>>::empty());
    }
    let mut blocks: Vec<(Vec<char>, Vec<(Vec<char>, Vec<char>)>)> = Vec::new();
    let mut current: Option<Vec<char>> = None;
    let mut fields: Vec<(Vec<char>, Vec<char>)> = Vec::new();
    let mut depth: i64 = 0;
    let mut i: usize = 0;
    while i < lines.len()
        invariant
            lines@.len() == ls.len(),
            ls.len() <= max_text() + 1,
            forall|j: int| 0 <= j < lines@.len() ==> #[trigger] lines@[j]@ == ls[j],
            0 <= i <= lines@.len(),
            -(i as int) <= depth <= i as int,
            ({
                let st = scan_lines(ls.take(i as int));
                &&& st.depth == depth as int
                &&& st.current == match current {
                    Some(c) => Some(c@),
                    None => None::<Seq<char>>,
                }
                &&& st.fields == fields_view(fields@)
                &&& st.blocks == blocks_view(blocks@)
            }),
            keys_unique(fields_view(fields@)),
            keys_unique(blocks_view(blocks@)),
            inner_unique(blocks_view(blocks@)),
        decreases lines@.len() - i,
    {
        proof {
            lemma_take_last(ls, i as int);
        }
        let t = trim_chars(&lines[i]);
        if t.len() == 1 && t[0] == '{' {
            proof {
                assert(t@ =~= open_brace());
            }
            depth = depth + 1;
        } else if t.len() == 1 && t[0] == '}' {
            proof {
                assert(t@ =~= close_brace());
                assert(t@ != open_brace());
            }
            depth = depth - 1;
            if depth == 1 && current.is_some() {
                let id = current.take().unwrap();
                let done = fields;
                fields = Vec::new();
                proof {
                    lemma_inner_unique_insert(blocks_view(blocks@), id@, fields_view(done@));
                }
                put_block(&mut blocks, id, done);
                proof {
                    assert(fields_view(fields@) =~= Seq::<(Seq<char>, Seq<char>)>::empty());
                }
            }
        } else {
            proof {
                if t@ == open_brace() {
                    assert(t@.len() == 1 && t@[0] == '{');
                }
                if t@ == close_brace() {
                    assert(t@.len() == 1 && t@[0] == '}');
                }
            }
            let parts = split_chars(&t, '"');
            if parts.len() >= 4 {
                if depth == 2 && current.is_some() {
                    let key = lowercase(&parts[1]);
                    let value = parts[3].clone();
                    put_field(&mut fields, key, value);
                }
            } else if parts.len() >= 2 && depth == 1 && is_all_digits(&parts[1]) {
                current = Some(parts[1].clone());
            }
        }
        i = i + 1;
    }
    proof {
        assert(ls.take(ls.len() as int) =~= ls);
    }
    blocks
}

/// One `"key" "value"` pair of a block.
pub struct VdfField {
    pub key: String,
    pub value: String,
}

/// A block filed under a numeric key.
pub struct VdfBlock {
    pub id: String,
    pub fields: Vec<VdfField>,
}

pub open spec fn field_pairs(f: Seq<VdfField>) -> Fields {
    f.map_values(|x: VdfField| (x.key@, x.value@))
}

pub open spec fn block_pairs(b: Seq<VdfBlock>) -> Blocks {
    b.map_values(|x: VdfBlock| (x.id@, field_pairs(x.fields@)))
}

fn fields_to_strings(f: &Vec<(Vec<char>, Vec<char>)>) -> (r: Vec<VdfField>)
    ensures
        field_pairs(r@) == fields_view(f@),
{
    let mut r: Vec<VdfField> = Vec::new();
    let mut i: usize = 0;
    while i < f.len()
        invariant
            0 <= i <= f@.len(),
            field_pairs(r@) == fields_view(f@).take(i as int),
        decreases f@.len() - i,
    {
        let key = string_of(&f[i].0);
        let value = string_of(&f[i].1);
        let ghost old_r = r@;
        r.push(VdfField { key, value });
        proof {
            assert(field_pairs(r@) =~= field_pairs(old_r).push((f@[i as int].0@, f@[i as int].1@)));
            assert(fields_view(f@).take(i + 1) =~= fields_view(f@).take(i as int).push(
                fields_view(f@)[i as int],
            ));
        }
        i = i + 1;
        proof {
            assert(field_pairs(r@) =~= fields_view(f@).take(i as int));
        }
    }
    proof {
        assert(fields_view(f@).take(f@.len() as int) =~= fields_view(f@));
    }
    r
}

/// Reads the numeric-keyed blocks of a login-history text: for each, its
/// key/value pairs with keys lower-cased. Malformed parts are skipped, never
/// an error.
pub fn parse_vdf(content: &str) -> (r: Vec<VdfBlock>)
    requires
        content@.len() <= max_text(),
    ensures
        block_pairs(r@) == parse_blocks(content@),
        keys_unique(block_pairs(r@)),
        inner_unique(block_pairs(r@)),
{
    let chars = chars_of(content);
    let b = parse_vdf_chars(&chars);
    let mut r: Vec<VdfBlock> = Vec::new();
    let mut i: usize = 0;
    while i < b.len()
        invariant
            0 <= i <= b@.len(),
            block_pairs(r@) == blocks_view(b@).take(i as int),
        decreases b@.len() - i,
    {
        let id = string_of(&b[i].0);
        let fields = fields_to_strings(&b[i].1);
        let ghost old_r = r@;
        r.push(VdfBlock { id, fields });
        proof {
            assert(block_pairs(r@) =~= block_pairs(old_r).push(
                (b@[i as int].0@, fields_view(b@[i as int].1@)),
            ));
            assert(blocks_view(b@).take(i + 1) =~= blocks_view(b@).take(i as int).push(
                blocks_view(b@)[i as int],
            ));
        }
        i = i + 1;
        proof {
            assert(block_pairs(r@) =~= blocks_view(b@).take(i as int));
        }
    }
    proof {
        assert(blocks_view(b@).take(b@.len() as int) =~= blocks_view(b@));
    }
    r
}

} // verus!
