//! In-place edits of configuration text: removing one login entry, and setting
//! the first persona-state value.
use vstd::prelude::*;
use crate::text::{
    chars_equal, chars_of, find_char, lemma_find_char_at, lemma_find_char_bounds,
    lemma_split_on_len, lemma_trim_strip_cr, lines_of, split_chars,
    split_on, string_of, strip_cr, trim, trim_chars,
};
use crate::vdf::{
    close_brace, has_key, keys_unique, lemma_assoc_insert, max_text, open_brace, parse_blocks,
    scan_lines, scan_step,
};

verus! {

/// Lines joined with a line feed between each two.
pub open spec fn join_sep(ls: Seq<Seq<char>>) -> Seq<char>
    decreases ls.len(),
{
    if ls.len() == 0 {
        seq![]
    } else if ls.len() == 1 {
        ls[0]
    } else {
        join_sep(ls.drop_last()) + seq!['\n'] + ls.last()
    }
}

/// Lines each followed by a line feed.
pub open spec fn join_nl(ls: Seq<Seq<char>>) -> Seq<char>
    decreases ls.len(),
{
    if ls.len() == 0 {
        seq![]
    } else {
        join_nl(ls.drop_last()) + ls.last() + seq!['\n']
    }
}

pub fn append_chars(out: &mut Vec<char>, s: &Vec<char>)
    ensures
        final(out)@ == old(out)@ + s@,
{
    let ghost o = out@;
    let mut i: usize = 0;
    while i < s.len()
        invariant
            0 <= i <= s@.len(),
            out@ == o + s@.subrange(0, i as int),
        decreases s@.len() - i,
    {
        out.push(s[i]);
        i = i + 1;
        proof {
            assert(out@ =~= o + s@.subrange(0, i as int));
        }
    }
    proof {
        assert(s@.subrange(0, s@.len() as int) =~= s@);
    }
}

/// Where the removal scan stands after some lines.
pub struct RemoveState {
    pub depth: int,
    pub skipping: bool,
    pub skip_depth: int,
    pub removed: bool,
    pub kept: Seq<Seq<char>>,
}

/// One line of the removal scan: while skipping, braces are counted until the
/// depth returns to where skipping began; otherwise a line at depth 1 whose
/// first quoted string is `id` starts skipping, and any other line is kept.
pub open spec fn remove_step(st: RemoveState, line: Seq<char>, id: Seq<char>) -> RemoveState {
    let t = trim(line);
    if st.skipping {
        if t == open_brace() {
            RemoveState { depth: st.depth + 1, ..st }
        } else if t == close_brace() {
            RemoveState {
                depth: st.depth - 1,
                skipping: st.depth - 1 != st.skip_depth,
                ..st
            }
        } else {
            st
        }
    } else {
        let parts = split_on(t, '"');
        if st.depth == 1 && parts.len() >= 2 && parts[1] == id {
            RemoveState { skipping: true, skip_depth: st.depth, removed: true, ..st }
        } else {
            RemoveState {
                depth: if t == open_brace() {
                    st.depth + 1
                } else if t == close_brace() {
                    st.depth - 1
                } else {
                    st.depth
                },
                kept: st.kept.push(line),
                ..st
            }
        }
    }
}

pub open spec fn remove_scan(lines: Seq<Seq<char>>, id: Seq<char>) -> RemoveState
    decreases lines.len(),
{
    if lines.len() == 0 {
        RemoveState { depth: 0, skipping: false, skip_depth: 0, removed: false, kept: seq![] }
    } else {
        remove_step(remove_scan(lines.drop_last(), id), lines.last(), id)
    }
}

/// The text with the entry `id` taken out, and whether there was one: the
/// kept lines, each with its own ending (a carriage return stays), joined by
/// the line feeds that stood between them.
pub open spec fn remove_entry_spec(content: Seq<char>, id: Seq<char>) -> (Seq<char>, bool) {
    let st = remove_scan(split_on(content, '\n'), id);
    (join_sep(st.kept), st.removed)
}

proof fn lemma_take_step(lines: Seq<Seq<char>>, i: int)
    requires
        0 <= i < lines.len(),
    ensures
        lines.take(i + 1).drop_last() == lines.take(i),
        lines.take(i + 1).last() == lines[i],
{
    assert(lines.take(i + 1).drop_last() =~= lines.take(i));
}

/// Takes the top-level entry keyed `steam_id` out of a login-history text,
/// keeping every other line as it was.
pub fn remove_loginuser_entry(content: &str, steam_id: &str) -> (r: (String, bool))
    requires
        content@.len() <= max_text(),
    ensures
        (r.0@, r.1) == remove_entry_spec(content@, steam_id@),
{
    let chars = chars_of(content);
    let id = chars_of(steam_id);
    let lines = split_chars(&chars, '\n');
    let ghost ls = split_on(content@, '\n');
    proof {
        lemma_split_on_len(content@, '\n');
        assert(ls.take(0) =~= Seq::<Seq<char>>::empty());
    }
    let mut out: Vec<char> = Vec::new();
    let mut n_kept: usize = 0;
    let mut depth: i64 = 0;
    let mut skipping = false;
    let mut skip_depth: i64 = 0;
    let mut removed = false;
    let mut i: usize = 0;
    while i < lines.len()
        invariant
            lines@.len() == ls.len(),
            ls.len() <= max_text() + 1,
            forall|j: int| 0 <= j < lines@.len() ==> #[trigger] lines@[j]@ == ls[j],
            0 <= i <= lines@.len(),
            0 <= n_kept <= i,
            -(i as int) <= depth <= i as int,
            -(i as int) <= skip_depth <= i as int,
            ({
                let st = remove_scan(ls.take(i as int), id@);
                &&& st.depth == depth as int
                &&& st.skipping == skipping
                &&& st.skip_depth == skip_depth as int
                &&& st.removed == removed
                &&& st.kept.len() == n_kept
                &&& join_sep(st.kept) == out@
            }),
        decreases lines@.len() - i,
    {
        proof {
            lemma_take_step(ls, i as int);
        }
        let line = &lines[i];
        let t = trim_chars(line);
        let is_open = t.len() == 1 && t[0] == '{';
        let is_close = t.len() == 1 && t[0] == '}';
        proof {
            if is_open {
                assert(t@ =~= open_brace());
            }
            if is_close {
                assert(t@ =~= close_brace());
            }
            if t@ == open_brace() {
                assert(t@.len() == 1 && t@[0] == '{');
            }
            if t@ == close_brace() {
                assert(t@.len() == 1 && t@[0] == '}');
            }
        }
        if skipping {
            if is_open {
                depth = depth + 1;
            } else if is_close {
                depth = depth - 1;
                if depth == skip_depth {
                    skipping = false;
                }
            }
        } else {
            let parts = split_chars(&t, '"');
            if depth == 1 && parts.len() >= 2 && chars_equal(&parts[1], &id) {
                skipping = true;
                skip_depth = depth;
                removed = true;
            } else {
                let ghost before = out@;
                let ghost kept = remove_scan(ls.take(i as int), id@).kept;
                if n_kept > 0 {
                    out.push('\n');
                }
                append_chars(&mut out, line);
                proof {
                    let k2 = kept.push(line@);
                    assert(k2.drop_last() =~= kept);
                    if n_kept == 0 {
                        assert(out@ =~= line@);
                    } else {
                        assert(out@ =~= before + seq!['\n'] + line@);
                    }
                }
                n_kept = n_kept + 1;
                if is_open {
                    depth = depth + 1;
                } else if is_close {
                    depth = depth - 1;
                }
            }
        }
        i = i + 1;
    }
    proof {
        assert(ls.take(ls.len() as int) =~= ls);
    }
    (string_of(&out), removed)
}

/// The persona-state key, quotes included.
pub open spec fn persona_key() -> Seq<char> {
    seq!['"', 'P', 'e', 'r', 's', 'o', 'n', 'a', 'S', 't', 'a', 't', 'e', '"']
}

pub open spec fn occurs_at(l: Seq<char>, key: Seq<char>, i: int) -> bool {
    0 <= i && i + key.len() <= l.len() && l.subrange(i, i + key.len()) == key
}

pub open spec fn contains_seq(l: Seq<char>, key: Seq<char>) -> bool {
    exists|i: int| #[trigger] occurs_at(l, key, i)
}

/// Index of the last `c` in `s`, or -1.
pub open spec fn last_index(s: Seq<char>, c: char) -> int
    decreases s.len(),
{
    if s.len() == 0 {
        -1
    } else if s.last() == c {
        s.len() - 1
    } else {
        last_index(s.drop_last(), c)
    }
}

proof fn lemma_last_index_at(s: Seq<char>, c: char, k: int)
    requires
        -1 <= k < s.len(),
        k >= 0 ==> s[k] == c,
        forall|j: int| k < j < s.len() ==> s[j] != c,
    ensures
        last_index(s, c) == k,
    decreases s.len(),
{
    if s.len() > 0 && s.last() != c {
        lemma_last_index_at(s.drop_last(), c, k);
    }
}

/// The opening quote of a line's last quoted value.
pub open spec fn value_start(l: Seq<char>) -> int {
    last_index(l.take(last_index(l, '"')), '"')
}

/// A line that holds the key and a quoted value to replace.
pub open spec fn patchable(l: Seq<char>) -> bool {
    contains_seq(l, persona_key()) && last_index(l, '"') >= 0 && value_start(l) >= 0
}

/// The line with the text between its last two quotes replaced by `state`.
pub open spec fn patch_line(l: Seq<char>, state: Seq<char>) -> Seq<char> {
    l.take(value_start(l) + 1) + state + l.skip(last_index(l, '"'))
}

/// A state digit from `0` to `7`.
pub open spec fn valid_state(state: Seq<char>) -> bool {
    state.len() == 1 && '0' <= state[0] && state[0] <= '7'
}

pub open spec fn first_patchable(ls: Seq<Seq<char>>, k: int) -> bool {
    0 <= k < ls.len() && patchable(ls[k]) && forall|j: int| 0 <= j < k ==> !patchable(#[trigger] ls[j])
}

/// The new text, where there is a line to patch and the state is valid: the
/// text with the value of its first patchable line replaced, every other
/// character kept (line endings and the final line feed, or its absence,
/// included).
pub open spec fn patch_spec(content: Seq<char>, state: Seq<char>) -> Option<Seq<char>> {
    let ls = split_on(content, '\n');
    if valid_state(state) && exists|k: int| first_patchable(ls, k) {
        let k = choose|k: int| first_patchable(ls, k);
        Some(join_sep(ls.update(k, patch_line(ls[k], state))))
    } else {
        None
    }
}

pub fn occurs_at_exec(l: &Vec<char>, key: &Vec<char>, i: usize) -> (r: bool)
    ensures
        r == occurs_at(l@, key@, i as int),
{
    if key.len() > l.len() || i > l.len() - key.len() {
        return false;
    }
    let ln = l.len();
    let mut j: usize = 0;
    while j < key.len()
        invariant
            ln == l@.len(),
            0 <= j <= key@.len(),
            i + key@.len() <= l@.len(),
            forall|m: int| 0 <= m < j ==> l@[i + m] == key@[m],
        decreases key@.len() - j,
    {
        if l[i + j] != key[j] {
            assert(l@.subrange(i as int, i + key@.len())[j as int] != key@[j as int]);
            return false;
        }
        j = j + 1;
    }
    assert(l@.subrange(i as int, i + key@.len()) =~= key@);
    true
}

pub fn contains_exec(l: &Vec<char>, key: &Vec<char>) -> (r: bool)
    ensures
        r == contains_seq(l@, key@),
{
    let mut i: usize = 0;
    while i < l.len()
        invariant
            0 <= i <= l@.len(),
            forall|m: int| 0 <= m < i ==> !occurs_at(l@, key@, m),
        decreases l@.len() - i,
    {
        if occurs_at_exec(l, key, i) {
            return true;
        }
        i = i + 1;
    }
    if occurs_at_exec(l, key, i) {
        return true;
    }
    assert forall|m: int| !(#[trigger] occurs_at(l@, key@, m)) by {
        if m > l@.len() {
        }
    }
    false
}

fn last_index_exec(s: &Vec<char>, end: usize, c: char) -> (r: Option<usize>)
    requires
        end <= s@.len(),
    ensures
        match r {
            Some(k) => k < end && last_index(s@.take(end as int), c) == k,
            None => last_index(s@.take(end as int), c) == -1,
        },
{
    let mut k: usize = end;
    while k > 0
        invariant
            0 <= k <= end <= s@.len(),
            forall|j: int| k <= j < end ==> s@[j] != c,
        decreases k,
    {
        if s[k - 1] == c {
            proof {
                lemma_last_index_at(s@.take(end as int), c, k - 1);
            }
            return Some(k - 1);
        }
        k = k - 1;
    }
    proof {
        lemma_last_index_at(s@.take(end as int), c, -1);
    }
    None
}

/// Sets the first persona-state value of a per-account configuration text to
/// `state`. `None` where the state is not a digit from `0` to `7` or no line
/// holds the key: then nothing is to be written.
pub fn patch_persona_state(content: &str, state: &str) -> (r: Option<String>)
    ensures
        match r {
            Some(t) => patch_spec(content@, state@) == Some(t@),
            None => patch_spec(content@, state@) is None,
        },
{
    let st = chars_of(state);
    if !(st.len() == 1 && '0' <= st[0] && st[0] <= '7') {
        return None;
    }
    let key = chars_of("\"PersonaState\"");
    proof {
        reveal_strlit("\"PersonaState\"");
        assert(key@ =~= persona_key());
    }
    let chars = chars_of(content);
    let lines = split_chars(&chars, '\n');
    let ghost ls = split_on(content@, '\n');
    let mut out: Vec<char> = Vec::new();
    let mut found = false;
    let ghost mut fk: int = 0;
    let mut i: usize = 0;
    proof {
        assert(ls.take(0) =~= Seq::<Seq<char>>::empty());
    }
    while i < lines.len()
        invariant
            lines@.len() == ls.len(),
            forall|j: int| 0 <= j < lines@.len() ==> #[trigger] lines@[j]@ == ls[j],
            0 <= i <= lines@.len(),
            key@ == persona_key(),
            !found ==> forall|j: int| 0 <= j < i ==> !patchable(#[trigger] ls[j]),
            !found ==> out@ == join_sep(ls.take(i as int)),
            found ==> 0 <= fk < i && first_patchable(ls, fk),
            found ==> out@ == join_sep(ls.take(i as int).update(fk, patch_line(ls[fk], st@))),
        decreases lines@.len() - i,
    {
        let line = &lines[i];
        let ghost before = out@;
        if i > 0 {
            out.push('\n');
        }
        let ghost sep = out@;
        let mut done = false;
        proof {
            assert(line@.take(line@.len() as int) =~= line@);
        }
        if !found && contains_exec(line, &key) {
            if let Some(pos) = last_index_exec(line, line.len(), '"') {
                if let Some(start) = last_index_exec(line, pos, '"') {
                    let head = crate::text::copy_range(line, 0, start + 1);
                    let tail = crate::text::copy_range(line, pos, line.len());
                    append_chars(&mut out, &head);
                    append_chars(&mut out, &st);
                    append_chars(&mut out, &tail);
                    proof {
                        fk = i as int;
                        assert(patchable(ls[fk]));
                        let p = patch_line(ls[fk], st@);
                        assert(p =~= head@ + st@ + tail@);
                        let u = ls.take(i + 1).update(fk, p);
                        assert(u.drop_last() =~= ls.take(i as int));
                        assert(u.last() == p);
                        if i == 0 {
                            assert(out@ =~= p);
                        } else {
                            assert(out@ =~= before + seq!['\n'] + p);
                        }
                    }
                    found = true;
                    done = true;
                }
            }
        }
        if !done {
            append_chars(&mut out, line);
            proof {
                if found {
                    let u = ls.take(i + 1).update(fk, patch_line(ls[fk], st@));
                    assert(u.drop_last() =~= ls.take(i as int).update(fk, patch_line(ls[fk], st@)));
                    assert(u.last() == ls[i as int]);
                    assert(out@ =~= before + seq!['\n'] + ls[i as int]);
                } else {
                    assert(!patchable(ls[i as int]));
                    let u = ls.take(i + 1);
                    assert(u.drop_last() =~= ls.take(i as int));
                    if i == 0 {
                        assert(out@ =~= ls[i as int]);
                    } else {
                        assert(out@ =~= before + seq!['\n'] + ls[i as int]);
                    }
                }
            }
        }
        i = i + 1;
    }
    proof {
        assert(ls.take(ls.len() as int) =~= ls);
    }
    if found {
        proof {
            let k = choose|k: int| first_patchable(ls, k);
            if k < fk {
                assert(!patchable(ls[k]));
            }
            if k > fk {
                assert(!patchable(ls[fk]));
            }
        }
        Some(string_of(&out))
    } else {
        proof {
            if exists|k: int| first_patchable(ls, k) {
                let k = choose|k: int| first_patchable(ls, k);
                assert(!patchable(ls[k]));
            }
        }
        None
    }
}

pub open spec fn free_of(s: Seq<char>, c: char) -> bool {
    forall|i: int| 0 <= i < s.len() ==> #[trigger] s[i] != c
}

pub proof fn lemma_split_front(a: Seq<char>, b: Seq<char>, c: char)
    requires
        free_of(a, c),
    ensures
        split_on(a + seq![c] + b, c) == seq![a] + split_on(b, c),
{
    let s = a + seq![c] + b;
    lemma_find_char_at(s, c, a.len() as int);
    assert(s.subrange(0, a.len() as int) =~= a);
    assert(s.subrange(a.len() as int + 1, s.len() as int) =~= b);
}

pub proof fn lemma_split_none(a: Seq<char>, c: char)
    requires
        free_of(a, c),
    ensures
        split_on(a, c) == seq![a],
{
    lemma_find_char_at(a, c, a.len() as int);
}

proof fn lemma_join_nl_front(ls: Seq<Seq<char>>)
    requires
        ls.len() >= 1,
    ensures
        join_nl(ls) == ls[0] + seq!['\n'] + join_nl(ls.drop_first()),
    decreases ls.len(),
{
    if ls.len() == 1 {
        assert(ls.drop_first() =~= Seq::<Seq<char>>::empty());
        assert(ls.drop_last() =~= Seq::<Seq<char>>::empty());
        assert(join_nl(ls.drop_last()) == Seq::<char>::empty());
        assert(join_nl(ls) == join_nl(ls.drop_last()) + ls.last() + seq!['\n']);
        assert(join_nl(ls.drop_first()) == Seq::<char>::empty());
        assert(join_nl(ls) =~= ls[0] + seq!['\n'] + join_nl(ls.drop_first()));
    } else {
        lemma_join_nl_front(ls.drop_last());
        assert(ls.drop_last().drop_first() =~= ls.drop_first().drop_last());
        assert(ls.drop_first().last() == ls.last());
        assert(ls.drop_last()[0] == ls[0]);
        assert(join_nl(ls) =~= ls[0] + seq!['\n'] + join_nl(ls.drop_first()));
    }
}

proof fn lemma_split_join(ls: Seq<Seq<char>>)
    requires
        forall|i: int| 0 <= i < ls.len() ==> free_of(#[trigger] ls[i], '\n'),
    ensures
        split_on(join_nl(ls), '\n') == ls.push(seq![]),
    decreases ls.len(),
{
    if ls.len() == 0 {
        lemma_split_none(seq![], '\n');
        assert(ls.push(seq![]) =~= seq![Seq::<char>::empty()]);
    } else {
        lemma_join_nl_front(ls);
        let rest = ls.drop_first();
        assert forall|i: int| 0 <= i < rest.len() implies free_of(#[trigger] rest[i], '\n') by {
            assert(rest[i] == ls[i + 1]);
        }
        lemma_split_join(rest);
        assert(free_of(ls[0], '\n'));
        lemma_split_front(ls[0], join_nl(rest), '\n');
        assert(seq![ls[0]] + rest.push(seq![]) =~= ls.push(seq![]));
    }
}

/// Lines without line feeds and not ending in a carriage return come back
/// unchanged from being written one per line and read again.
pub proof fn lemma_lines_join(ls: Seq<Seq<char>>)
    requires
        forall|i: int| 0 <= i < ls.len() ==> free_of(#[trigger] ls[i], '\n'),
        forall|i: int| 0 <= i < ls.len() ==> strip_cr(#[trigger] ls[i]) == ls[i],
    ensures
        lines_of(join_nl(ls)) == ls,
{
    lemma_split_join(ls);
    if ls.len() == 0 {
    } else {
        lemma_join_nl_front(ls);
        let p = ls.push(seq![]);
        assert(p.drop_last() =~= ls);
        assert(p.drop_last().map_values(|l: Seq<char>| strip_cr(l)) =~= ls);
    }
}

proof fn lemma_split_pieces_free(s: Seq<char>, c: char)
    ensures
        forall|i: int| 0 <= i < split_on(s, c).len() ==> free_of(#[trigger] split_on(s, c)[i], c),
    decreases s.len(),
{
    lemma_find_char_bounds(s, c);
    let k = find_char(s, c);
    if k < s.len() {
        let rest = s.subrange(k + 1, s.len() as int);
        lemma_split_pieces_free(rest, c);
        assert forall|i: int| 0 <= i < split_on(s, c).len() implies free_of(
            #[trigger] split_on(s, c)[i],
            c,
        ) by {
            if i > 0 {
                assert(split_on(s, c)[i] == split_on(rest, c)[i - 1]);
            } else {
                assert(split_on(s, c)[0] == s.subrange(0, k));
            }
        }
    }
}

proof fn lemma_last_index_bounds(s: Seq<char>, c: char)
    ensures
        -1 <= last_index(s, c) < s.len(),
        last_index(s, c) >= 0 ==> s[last_index(s, c)] == c,
        forall|j: int| last_index(s, c) < j < s.len() ==> s[j] != c,
    decreases s.len(),
{
    if s.len() > 0 && s.last() != c {
        lemma_last_index_bounds(s.drop_last(), c);
        assert forall|j: int| last_index(s, c) < j < s.len() implies s[j] != c by {
            if j < s.len() - 1 {
                assert(s[j] == s.drop_last()[j]);
            }
        }
    }
}

/// The key lies before the value's opening quote.
pub open spec fn key_before_value(l: Seq<char>) -> bool {
    contains_seq(l.take(value_start(l) + 1), persona_key())
}

proof fn lemma_patch_line_shape(l: Seq<char>, state: Seq<char>)
    requires
        last_index(l, '"') >= 0,
        value_start(l) >= 0,
        valid_state(state),
    ensures
        last_index(patch_line(l, state), '"') >= 0,
        value_start(patch_line(l, state)) == value_start(l),
        patch_line(patch_line(l, state), state) == patch_line(l, state),
        patch_line(l, state).take(value_start(l) + 1) == l.take(value_start(l) + 1),
{
    let li = last_index(l, '"');
    let vs = value_start(l);
    let head = l.take(li);
    lemma_last_index_bounds(l, '"');
    lemma_last_index_bounds(head, '"');
    let n = patch_line(l, state);
    assert(n =~= l.take(vs + 1) + state + l.skip(li));
    assert(n[vs + 2] == l[li]);
    assert forall|j: int| vs + 2 < j < n.len() implies n[j] != '"' by {
        assert(n[j] == l[li + j - vs - 2]);
    }
    lemma_last_index_at(n, '"', vs + 2);
    let nh = n.take(vs + 2);
    assert(nh =~= l.take(vs + 1) + state);
    assert(nh[vs] == l[vs]);
    assert(l[vs] == head[vs]);
    assert(nh[vs + 1] == state[0]);
    lemma_last_index_at(nh, '"', vs);
    assert(n.take(vs + 1) =~= l.take(vs + 1));
    assert(patch_line(n, state) =~= n);
}

proof fn lemma_prefix_contains(a: Seq<char>, b: Seq<char>, key: Seq<char>)
    requires
        contains_seq(a, key),
        a.len() <= b.len(),
        b.take(a.len() as int) == a,
    ensures
        contains_seq(b, key),
{
    let i = choose|i: int| #[trigger] occurs_at(a, key, i);
    assert(b.subrange(i, i + key.len()) =~= a.subrange(i, i + key.len()));
    assert(occurs_at(b, key, i));
}

proof fn lemma_patch_line_clean(l: Seq<char>, state: Seq<char>)
    requires
        last_index(l, '"') >= 0,
        value_start(l) >= 0,
        valid_state(state),
        free_of(l, '\n'),
    ensures
        free_of(patch_line(l, state), '\n'),
{
    let li = last_index(l, '"');
    let vs = value_start(l);
    lemma_last_index_bounds(l, '"');
    lemma_last_index_bounds(l.take(li), '"');
    let n = patch_line(l, state);
    assert(n =~= l.take(vs + 1) + state + l.skip(li));
    assert forall|j: int| 0 <= j < n.len() implies #[trigger] n[j] != '\n' by {
        if j <= vs {
            assert(n[j] == l[j]);
        } else if j > vs + 1 {
            assert(n[j] == l[li + j - vs - 2]);
        }
    }
}

proof fn lemma_patch_line_again(l: Seq<char>, state: Seq<char>)
    requires
        patchable(l),
        key_before_value(l),
        valid_state(state),
        free_of(l, '\n'),
    ensures
        patchable(patch_line(l, state)),
        patch_line(patch_line(l, state), state) == patch_line(l, state),
        free_of(patch_line(l, state), '\n'),
{
    let n = patch_line(l, state);
    lemma_patch_line_shape(l, state);
    lemma_patch_line_clean(l, state);
    let vs = value_start(l);
    lemma_last_index_bounds(l, '"');
    lemma_last_index_bounds(l.take(last_index(l, '"')), '"');
    assert(n.len() >= vs + 1);
    assert(n.take(vs + 1).len() == vs + 1);
    lemma_prefix_contains(n.take(vs + 1), n, persona_key());
}

/// What the file holds after a persona patch: the new text where there is
/// one, else the text as it was.
pub open spec fn after_patch(content: Seq<char>, state: Seq<char>) -> Seq<char> {
    match patch_spec(content, state) {
        Some(t) => t,
        None => content,
    }
}

/// Setting the persona state twice to the same value leaves the file as
/// setting it once does, for files whose persona-state lines hold the key
/// before their value.
pub proof fn lemma_patch_idempotent(content: Seq<char>, state: Seq<char>)
    requires
        forall|i: int|
            0 <= i < split_on(content, '\n').len() && patchable(
                #[trigger] split_on(content, '\n')[i],
            ) ==> key_before_value(split_on(content, '\n')[i]),
    ensures
        after_patch(after_patch(content, state), state) == after_patch(content, state),
{
    let ls = split_on(content, '\n');
    if patch_spec(content, state) is Some {
        let k = choose|k: int| first_patchable(ls, k);
        let l = ls[k];
        let nl = patch_line(l, state);
        let ls2 = ls.update(k, nl);
        lemma_split_pieces_free(content, '\n');
        lemma_patch_line_again(l, state);
        assert forall|i: int| 0 <= i < ls2.len() implies free_of(#[trigger] ls2[i], '\n') by {
            if i != k {
                assert(ls2[i] == ls[i]);
            }
        }
        lemma_split_join_sep(ls2);
        assert(first_patchable(ls2, k)) by {
            assert forall|j: int| 0 <= j < k implies !patchable(#[trigger] ls2[j]) by {
                assert(ls2[j] == ls[j]);
            }
        }
        let k2 = choose|k2: int| first_patchable(ls2, k2);
        if k2 < k {
            assert(ls2[k2] == ls[k2]);
        }
        if k2 > k {
            assert(!patchable(ls2[k]));
        }
        assert(ls2.update(k, patch_line(ls2[k], state)) =~= ls2);
    }
}

/// Lines without line feeds, joined by line feeds, split back into
/// themselves.
proof fn lemma_split_join_sep(k: Seq<Seq<char>>)
    requires
        k.len() > 0,
        forall|i: int| 0 <= i < k.len() ==> free_of(#[trigger] k[i], '\n'),
    ensures
        split_on(join_sep(k), '\n') == k,
{
    lemma_join_nl_sep(k);
    lemma_split_join(k);
    lemma_split_push(join_sep(k), '\n', '\n');
    let a = split_on(join_sep(k), '\n');
    assert(a.push(seq![]) == k.push(seq![]));
    assert(a =~= a.push(seq![]).drop_last());
    assert(k =~= k.push(seq![]).drop_last());
}

proof fn lemma_split_push(a: Seq<char>, x: char, c: char)
    ensures
        split_on(a.push(x), c) == if x == c {
            split_on(a, c).push(seq![])
        } else {
            split_on(a, c).update(split_on(a, c).len() - 1, split_on(a, c).last().push(x))
        },
    decreases a.len(),
{
    lemma_find_char_bounds(a, c);
    lemma_split_on_len(a, c);
    let k = find_char(a, c);
    let b = a.push(x);
    if k < a.len() {
        lemma_find_char_at(b, c, k);
        let rest = a.subrange(k + 1, a.len() as int);
        assert(b.subrange(k + 1, b.len() as int) =~= rest.push(x));
        assert(b.subrange(0, k) =~= a.subrange(0, k));
        lemma_split_push(rest, x, c);
        lemma_split_on_len(rest, c);
        if x == c {
            assert(split_on(b, c) =~= split_on(a, c).push(seq![]));
        } else {
            assert(split_on(b, c) =~= split_on(a, c).update(
                split_on(a, c).len() - 1,
                split_on(a, c).last().push(x),
            ));
        }
    } else {
        lemma_find_char_at(a, c, a.len() as int);
        if x == c {
            lemma_find_char_at(b, c, a.len() as int);
            assert(b.subrange(0, a.len() as int) =~= a);
            assert(b.subrange(a.len() as int + 1, b.len() as int) =~= Seq::<char>::empty());
            lemma_split_none(Seq::<char>::empty(), c);
            assert(split_on(b, c) =~= split_on(a, c).push(seq![]));
        } else {
            assert forall|i: int| 0 <= i < b.len() implies #[trigger] b[i] != c by {
                if i < a.len() {
                    assert(b[i] == a[i]);
                }
            }
            lemma_find_char_at(b, c, b.len() as int);
            assert(split_on(b, c) =~= split_on(a, c).update(0, a.push(x)));
        }
    }
}

proof fn lemma_join_sep_front(ls: Seq<Seq<char>>)
    requires
        ls.len() >= 2,
    ensures
        join_sep(ls) == ls[0] + seq!['\n'] + join_sep(ls.drop_first()),
    decreases ls.len(),
{
    if ls.len() == 2 {
        assert(ls.drop_last() =~= seq![ls[0]]);
        assert(ls.drop_first() =~= seq![ls[1]]);
        assert(join_sep(ls.drop_last()) == ls[0]);
        assert(join_sep(ls.drop_first()) == ls[1]);
        assert(join_sep(ls) == join_sep(ls.drop_last()) + seq!['\n'] + ls.last());
    } else {
        lemma_join_sep_front(ls.drop_last());
        let dl = ls.drop_last();
        let df = ls.drop_first();
        assert(dl.drop_first() =~= df.drop_last());
        assert(df.last() == ls.last());
        assert(dl[0] == ls[0]);
        assert(join_sep(ls) == join_sep(dl) + seq!['\n'] + ls.last());
        assert(join_sep(df) == join_sep(df.drop_last()) + seq!['\n'] + df.last());
        assert(join_sep(ls) =~= ls[0] + seq!['\n'] + join_sep(df));
    }
}

/// Joining the pieces of a split at line feeds gives the text back.
proof fn lemma_join_split(c: Seq<char>)
    ensures
        join_sep(split_on(c, '\n')) == c,
    decreases c.len(),
{
    lemma_find_char_bounds(c, '\n');
    let k = find_char(c, '\n');
    if k < c.len() {
        let rest = c.subrange(k + 1, c.len() as int);
        lemma_join_split(rest);
        lemma_split_on_len(rest, '\n');
        let p = split_on(c, '\n');
        assert(p.drop_first() =~= split_on(rest, '\n'));
        lemma_join_sep_front(p);
        assert(c =~= c.subrange(0, k) + seq!['\n'] + rest);
    }
}

proof fn lemma_unremoved_keeps_all(lines: Seq<Seq<char>>, id: Seq<char>)
    ensures
        remove_scan(lines, id).skipping ==> remove_scan(lines, id).removed,
        !remove_scan(lines, id).removed ==> remove_scan(lines, id).kept == lines,
    decreases lines.len(),
{
    if lines.len() > 0 {
        lemma_unremoved_keeps_all(lines.drop_last(), id);
        if !remove_scan(lines, id).removed {
            assert(lines.drop_last().push(lines.last()) =~= lines);
        }
    }
}

/// Removing an id that no top-level line names gives the text back byte for
/// byte.
pub proof fn lemma_remove_absent_keeps_text(content: Seq<char>, id: Seq<char>)
    ensures
        !remove_entry_spec(content, id).1 ==> remove_entry_spec(content, id).0 == content,
{
    lemma_unremoved_keeps_all(split_on(content, '\n'), id);
    lemma_join_split(content);
}

/// Two line lists that trim to the same lines.
pub open spec fn trim_eq(a: Seq<Seq<char>>, b: Seq<Seq<char>>) -> bool {
    a.len() == b.len() && forall|i: int| 0 <= i < a.len() ==> trim(#[trigger] a[i]) == trim(b[i])
}

proof fn lemma_scan_trim_eq(a: Seq<Seq<char>>, b: Seq<Seq<char>>)
    requires
        trim_eq(a, b),
    ensures
        scan_lines(a) == scan_lines(b),
    decreases a.len(),
{
    if a.len() > 0 {
        assert(trim_eq(a.drop_last(), b.drop_last())) by {
            assert forall|i: int| 0 <= i < a.len() - 1 implies trim(#[trigger] a.drop_last()[i])
                == trim(b.drop_last()[i]) by {
                assert(a.drop_last()[i] == a[i]);
                assert(b.drop_last()[i] == b[i]);
            }
        }
        lemma_scan_trim_eq(a.drop_last(), b.drop_last());
        assert(trim(a.last()) == trim(b.last()));
    }
}

proof fn lemma_scan_blank(a: Seq<Seq<char>>, l: Seq<char>)
    requires
        trim(l).len() == 0,
    ensures
        scan_lines(a.push(l)) == scan_lines(a),
{
    assert(a.push(l).drop_last() =~= a);
    let t = trim(l);
    assert(t =~= Seq::<char>::empty());
    lemma_split_none(t, '"');
    assert(t != open_brace());
    assert(t != close_brace());
}

proof fn lemma_join_nl_sep(ls: Seq<Seq<char>>)
    requires
        ls.len() >= 1,
    ensures
        join_nl(ls) == join_sep(ls).push('\n'),
    decreases ls.len(),
{
    if ls.len() == 1 {
        assert(ls.drop_last() =~= Seq::<Seq<char>>::empty());
        assert(join_nl(ls) == join_nl(ls.drop_last()) + ls.last() + seq!['\n']);
        assert(join_nl(ls) =~= join_sep(ls).push('\n'));
    } else {
        lemma_join_nl_sep(ls.drop_last());
        assert(join_nl(ls) == join_nl(ls.drop_last()) + ls.last() + seq!['\n']);
        assert(join_sep(ls) == join_sep(ls.drop_last()) + seq!['\n'] + ls.last());
        assert(join_nl(ls) =~= join_sep(ls).push('\n'));
    }
}

/// Parsing the text that a removal writes gives what parsing its kept lines
/// gives.
proof fn lemma_scan_rejoined(k: Seq<Seq<char>>, final_nl: bool)
    requires
        forall|i: int| 0 <= i < k.len() ==> free_of(#[trigger] k[i], '\n'),
    ensures
        scan_lines(lines_of(if final_nl {
            join_sep(k).push('\n')
        } else {
            join_sep(k)
        })) == scan_lines(k),
{
    let x = if final_nl {
        join_sep(k).push('\n')
    } else {
        join_sep(k)
    };
    if k.len() == 0 {
        if final_nl {
            assert(x =~= seq!['\n']);
            lemma_split_push(Seq::<char>::empty(), '\n', '\n');
            lemma_split_none(Seq::<char>::empty(), '\n');
            assert(Seq::<char>::empty().push('\n') =~= x);
            let p = split_on(x, '\n');
            assert(p =~= seq![Seq::<char>::empty(), Seq::<char>::empty()]);
            assert(lines_of(x) =~= seq![strip_cr(Seq::<char>::empty())]);
            lemma_scan_blank(Seq::<Seq<char>>::empty(), Seq::<char>::empty());
            assert(seq![Seq::<char>::empty()] =~= Seq::<Seq<char>>::empty().push(Seq::<char>::empty()));
        }
    } else {
        lemma_join_nl_sep(k);
        lemma_split_join(k);
        lemma_split_push(join_sep(k), '\n', '\n');
        let a = split_on(join_sep(k), '\n');
        assert(a.push(seq![]) == k.push(seq![]));
        assert(a =~= a.push(seq![]).drop_last());
        assert(k =~= k.push(seq![]).drop_last());
        assert(a == k);
        let lk = lines_of(x);
        if final_nl {
            assert(x == join_nl(k));
            let p = k.push(seq![]);
            assert(p.drop_last() =~= k);
            assert(trim_eq(lk, k)) by {
                assert forall|i: int| 0 <= i < lk.len() implies trim(#[trigger] lk[i]) == trim(
                    k[i],
                ) by {
                    lemma_trim_strip_cr(k[i]);
                }
            }
            lemma_scan_trim_eq(lk, k);
        } else {
            if x.len() == 0 {
                assert(k.len() == 1 && k[0].len() == 0) by {
                    if k.len() >= 2 {
                        lemma_join_sep_front(k);
                    }
                }
                lemma_scan_blank(Seq::<Seq<char>>::empty(), k[0]);
                assert(k =~= Seq::<Seq<char>>::empty().push(k[0]));
            } else if k.last().len() == 0 {
                let d = k.drop_last();
                assert(trim_eq(lk, d)) by {
                    assert forall|i: int| 0 <= i < lk.len() implies trim(#[trigger] lk[i]) == trim(
                        d[i],
                    ) by {
                        lemma_trim_strip_cr(k[i]);
                    }
                }
                lemma_scan_trim_eq(lk, d);
                lemma_scan_blank(d, k.last());
                assert(d.push(k.last()) =~= k);
            } else {
                assert(trim_eq(lk, k)) by {
                    assert forall|i: int| 0 <= i < lk.len() implies trim(#[trigger] lk[i]) == trim(
                        k[i],
                    ) by {
                        if i < k.len() - 1 {
                            lemma_trim_strip_cr(k[i]);
                        }
                    }
                }
                lemma_scan_trim_eq(lk, k);
            }
        }
    }
}

/// What the removal scan and the parse of the kept lines have in common:
/// the parse stands at the depth where the removal resumes keeping, and it
/// never takes up the removed id.
proof fn lemma_remove_scan_parse(lines: Seq<Seq<char>>, id: Seq<char>)
    requires
        forall|i: int| 0 <= i < lines.len() ==> free_of(#[trigger] lines[i], '\n'),
    ensures
        ({
            let st = remove_scan(lines, id);
            let ps = scan_lines(st.kept);
            &&& ps.depth == if st.skipping {
                st.skip_depth
            } else {
                st.depth
            }
            &&& ps.current != Some(id)
            &&& !has_key(ps.blocks, id)
            &&& keys_unique(ps.blocks)
            &&& forall|i: int| 0 <= i < st.kept.len() ==> free_of(#[trigger] st.kept[i], '\n')
        }),
    decreases lines.len(),
{
    if lines.len() > 0 {
        let prev = lines.drop_last();
        assert forall|i: int| 0 <= i < prev.len() implies free_of(#[trigger] prev[i], '\n') by {
            assert(prev[i] == lines[i]);
        }
        lemma_remove_scan_parse(prev, id);
        let st0 = remove_scan(prev, id);
        let ps0 = scan_lines(st0.kept);
        let l = lines.last();
        let t = trim(l);
        let st = remove_scan(lines, id);
        if !st0.skipping {
            let parts = split_on(t, '"');
            if !(st0.depth == 1 && parts.len() >= 2 && parts[1] == id) {
                let k = st0.kept.push(l);
                assert(k.drop_last() =~= st0.kept);
                assert(st.kept == k);
                let ps = scan_lines(k);
                assert(ps == scan_step(ps0, l));
                if t == close_brace() {
                    if ps0.depth - 1 == 1 && ps0.current is Some {
                        lemma_assoc_insert(ps0.blocks, ps0.current->0, ps0.fields);
                    }
                }
                assert forall|i: int| 0 <= i < k.len() implies free_of(#[trigger] k[i], '\n') by {
                    if i < k.len() - 1 {
                        assert(k[i] == st0.kept[i]);
                    }
                }
            }
        }
    }
}

/// After removing an entry, parsing the text finds no block for its id.
pub proof fn lemma_removed_id_gone(content: Seq<char>, id: Seq<char>)
    ensures
        !has_key(parse_blocks(remove_entry_spec(content, id).0), id),
{
    let ls = split_on(content, '\n');
    lemma_split_pieces_free(content, '\n');
    lemma_remove_scan_parse(ls, id);
    let st = remove_scan(ls, id);
    lemma_scan_rejoined(st.kept, false);
}

} // verus!
