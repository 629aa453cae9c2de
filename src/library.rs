//! Library folders and game ownership: the roots that hold installed games,
//! the names that app manifests give, the games an account has settings for,
//! and the plan for copying one game's settings between accounts.
use vstd::prelude::*;
use crate::accounts::{account_dir_name, decimal_of, low_bits, parse_u64_spec};
use crate::error::AppError;
use crate::order::{
    is_permutation, lemma_lex_irreflexive, lemma_lex_total,
    lemma_lex_transitive, lex_less, lex_lt, sorted_order, sorted_stably,
};
use crate::text::{
    all_digits, chars_equal, chars_of, is_all_digits, lines_of, lower_of, lowercase, split_chars,
    split_lines, split_on, string_of, trim, trim_chars,
};
use crate::vdf::find_key;

verus! {

/// `str::replace("\\\\", "\\")`: each pair of backslashes, read left to
/// right, becomes one.
pub open spec fn unescape(s: Seq<char>) -> Seq<char>
    decreases s.len(),
{
    if s.len() == 0 {
        seq![]
    } else if s.len() >= 2 && s[0] == '\\' && s[1] == '\\' {
        seq!['\\'] + unescape(s.skip(2))
    } else {
        seq![s[0]] + unescape(s.skip(1))
    }
}

fn unescape_chars(s: &Vec<char>) -> (r: Vec<char>)
    ensures
        r@ == unescape(s@),
{
    let n = s.len();
    let mut out: Vec<char> = Vec::new();
    let mut i: usize = 0;
    proof {
        assert(s@.skip(0) =~= s@);
    }
    while i < n
        invariant
            0 <= i <= n == s@.len(),
            unescape(s@) == out@ + unescape(s@.skip(i as int)),
        decreases n - i,
    {
        let ghost t = s@.skip(i as int);
        let ghost before = out@;
        if i + 1 < n && s[i] == '\\' && s[i + 1] == '\\' {
            out.push('\\');
            proof {
                assert(t.skip(2) =~= s@.skip(i + 2));
                assert(out@ + unescape(s@.skip(i + 2)) =~= before + unescape(t));
            }
            i = i + 2;
        } else {
            out.push(s[i]);
            proof {
                assert(t.skip(1) =~= s@.skip(i + 1));
                assert(out@ + unescape(s@.skip(i + 1)) =~= before + unescape(t));
            }
            i = i + 1;
        }
    }
    proof {
        assert(out@ + unescape(s@.skip(n as int)) =~= out@);
    }
    out
}

/// Turns each doubled backslash of a path read from a manifest into one.
pub fn unescape_vdf_path(input: &str) -> (r: String)
    ensures
        r@ == unescape(input@),
{
    let chars = chars_of(input);
    string_of(&unescape_chars(&chars))
}

pub open spec fn is_upper(c: char) -> bool {
    'A' <= c && c <= 'Z'
}

/// `str::eq_ignore_ascii_case`.
pub open spec fn eq_ignore_case(a: Seq<char>, b: Seq<char>) -> bool {
    a.len() == b.len() && forall|i: int|
        0 <= i < a.len() ==> {
            ||| a[i] == b[i]
            ||| (is_upper(a[i]) && (b[i] as u32) == (a[i] as u32) + 32)
            ||| (is_upper(b[i]) && (a[i] as u32) == (b[i] as u32) + 32)
        }
}

fn eq_ignore_case_exec(a: &Vec<char>, b: &Vec<char>) -> (r: bool)
    ensures
        r == eq_ignore_case(a@, b@),
{
    if a.len() != b.len() {
        return false;
    }
    let mut i: usize = 0;
    while i < a.len()
        invariant
            0 <= i <= a@.len() == b@.len(),
            forall|j: int|
                0 <= j < i ==> {
                    ||| a@[j] == b@[j]
                    ||| (is_upper(a@[j]) && (b@[j] as u32) == (a@[j] as u32) + 32)
                    ||| (is_upper(b@[j]) && (a@[j] as u32) == (b@[j] as u32) + 32)
                },
        decreases a@.len() - i,
    {
        let x = a[i];
        let y = b[i];
        let ok = x == y || ('A' <= x && x <= 'Z' && (y as u32) == (x as u32) + 32) || ('A' <= y
            && y <= 'Z' && (x as u32) == (y as u32) + 32);
        if !ok {
            return false;
        }
        i = i + 1;
    }
    true
}

/// Whether a library root's last path component names its app-manifest
/// folder itself: `steamapps`, ignoring ASCII case.
pub fn is_steamapps_name(last: &str) -> (r: bool)
    ensures
        r == eq_ignore_case(last@, "steamapps"@),
{
    eq_ignore_case_exec(&chars_of(last), &chars_of("steamapps"))
}

/// A line of the form `"key" "value"` whose key matches `key` up to ASCII
/// case, read after trimming.
pub open spec fn keyed_line(line: Seq<char>, key: Seq<char>) -> bool {
    let t = trim(line);
    let parts = split_on(t, '"');
    t.len() > 0 && t[0] == '"' && parts.len() >= 4 && eq_ignore_case(parts[1], key)
}

/// The value of a keyed line.
pub open spec fn line_value(line: Seq<char>) -> Seq<char> {
    split_on(trim(line), '"')[3]
}

pub open spec fn first_keyed(ls: Seq<Seq<char>>, key: Seq<char>, k: int) -> bool {
    &&& 0 <= k < ls.len()
    &&& keyed_line(ls[k], key)
    &&& forall|j: int| 0 <= j < k ==> !keyed_line(#[trigger] ls[j], key)
}

/// The value of the first line keyed `key`, if any.
pub open spec fn manifest_value(content: Seq<char>, key: Seq<char>) -> Option<Seq<char>> {
    let ls = lines_of(content);
    if exists|k: int| first_keyed(ls, key, k) {
        Some(line_value(ls[choose|k: int| first_keyed(ls, key, k)]))
    } else {
        None
    }
}

/// Checks one line; gives its value where it is keyed `key`.
fn keyed_value(line: &Vec<char>, key: &Vec<char>) -> (r: Option<Vec<char>>)
    ensures
        match r {
            Some(v) => keyed_line(line@, key@) && v@ == line_value(line@),
            None => !keyed_line(line@, key@),
        },
{
    let t = trim_chars(line);
    if t.len() == 0 || t[0] != '"' {
        return None;
    }
    let parts = split_chars(&t, '"');
    if parts.len() >= 4 && eq_ignore_case_exec(&parts[1], key) {
        Some(parts[3].clone())
    } else {
        None
    }
}

fn manifest_value_chars(content: &Vec<char>, key: &Vec<char>) -> (r: Option<Vec<char>>)
    ensures
        match r {
            Some(v) => manifest_value(content@, key@) == Some(v@),
            None => manifest_value(content@, key@) is None,
        },
{
    let lines = split_lines(content);
    let ghost ls = lines_of(content@);
    let mut i: usize = 0;
    while i < lines.len()
        invariant
            ls == lines_of(content@),
            lines@.len() == ls.len(),
            forall|j: int| 0 <= j < lines@.len() ==> #[trigger] lines@[j]@ == ls[j],
            0 <= i <= lines@.len(),
            forall|j: int| 0 <= j < i ==> !keyed_line(#[trigger] ls[j], key@),
        decreases lines@.len() - i,
    {
        match keyed_value(&lines[i], key) {
            Some(v) => {
                proof {
                    assert(lines@[i as int]@ == ls[i as int]);
                    assert(first_keyed(ls, key@, i as int));
                    let k = choose|k: int| first_keyed(ls, key@, k);
                    if k < i {
                        assert(!keyed_line(ls[k], key@));
                    }
                    if k > i {
                        assert(!keyed_line(ls[i as int], key@));
                    }
                    assert(lines@[i as int]@ == ls[i as int]);
                    assert(k == i);
                    assert(line_value(ls[k]) == v@);
                    assert(exists|k: int| first_keyed(ls, key@, k));
                    assert(manifest_value(content@, key@) == Some(v@));
                }
                return Some(v);
            },
            None => {},
        }
        i = i + 1;
    }
    proof {
        if exists|k: int| first_keyed(ls, key@, k) {
            let k = choose|k: int| first_keyed(ls, key@, k);
            assert(!keyed_line(ls[k], key@));
        }
    }
    None
}

/// The value of the first `"key" "value"` line whose key matches `key`
/// ignoring ASCII case.
pub fn extract_manifest_value(content: &str, key: &str) -> (r: Option<String>)
    ensures
        match r {
            Some(v) => manifest_value(content@, key@) == Some(v@),
            None => manifest_value(content@, key@) is None,
        },
{
    let c = chars_of(content);
    let k = chars_of(key);
    match manifest_value_chars(&c, &k) {
        Some(v) => Some(string_of(&v)),
        None => None,
    }
}

/// The library paths that a library-manifest text declares, in order: each
/// `"path"` value, trimmed, unescaped, where not empty.
pub open spec fn declared_paths(ls: Seq<Seq<char>>) -> Seq<Seq<char>>
    decreases ls.len(),
{
    if ls.len() == 0 {
        seq![]
    } else {
        let prev = declared_paths(ls.drop_last());
        let l = ls.last();
        if keyed_line(l, "path"@) && trim(line_value(l)).len() > 0 {
            prev.push(unescape(trim(line_value(l))))
        } else {
            prev
        }
    }
}

pub open spec fn strings_view(v: Seq<String>) -> Seq<Seq<char>> {
    v.map_values(|s: String| s@)
}

/// A path separator read as a backslash.
pub open spec fn unify_sep(c: char) -> char {
    if c == '/' {
        '\\'
    } else {
        c
    }
}

/// A path without trailing separators, but for the one after a drive.
pub open spec fn trim_seps(s: Seq<char>) -> Seq<char>
    decreases s.len(),
{
    if s.len() > 1 && s.last() == '\\' && s[s.len() - 2] != ':' {
        trim_seps(s.drop_last())
    } else {
        s
    }
}

/// What two spellings of one folder share: `/` read as `\`, trailing
/// separators dropped.
pub open spec fn path_key(p: Seq<char>) -> Seq<char> {
    trim_seps(p.map_values(|c: char| unify_sep(c)))
}

fn key_of(p: &Vec<char>) -> (r: Vec<char>)
    ensures
        r@ == path_key(p@),
{
    let ghost full = p@.map_values(|c: char| unify_sep(c));
    let mut u: Vec<char> = Vec::new();
    let mut i: usize = 0;
    while i < p.len()
        invariant
            0 <= i <= p@.len(),
            full == p@.map_values(|c: char| unify_sep(c)),
            u@ == full.take(i as int),
        decreases p@.len() - i,
    {
        let c = if p[i] == '/' {
            '\\'
        } else {
            p[i]
        };
        u.push(c);
        i = i + 1;
        proof {
            assert(u@ =~= full.take(i as int));
        }
    }
    proof {
        assert(full.take(p@.len() as int) =~= full);
    }
    while u.len() > 1 && u[u.len() - 1] == '\\' && u[u.len() - 2] != ':'
        invariant
            trim_seps(u@) == trim_seps(full),
        decreases u@.len(),
    {
        proof {
            assert(trim_seps(u@) == trim_seps(u@.drop_last()));
        }
        u.pop();
    }
    u
}

pub open spec fn pairs_view(v: Seq<(Vec<char>, Vec<char>)>) -> Seq<(Seq<char>, Seq<char>)> {
    v.map_values(|p: (Vec<char>, Vec<char>)| (p.0@, p.1@))
}

/// `y` is the first candidate with its key.
pub open spec fn first_of_key(cands: Seq<Seq<char>>, y: Seq<char>) -> bool {
    exists|i: int|
        0 <= i < cands.len() && cands[i] == y && forall|j: int|
            0 <= j < i ==> path_key(#[trigger] cands[j]) != path_key(y)
}

/// Some root has key `key`.
pub open spec fn covered(r: Seq<(Seq<char>, Seq<char>)>, key: Seq<char>) -> bool {
    exists|k: int| 0 <= k < r.len() && #[trigger] r[k].0 == key
}

/// The roots so far, as (key, path): keys sorted without repeats, each path
/// the first candidate with its key, each candidate's key present.
pub open spec fn roots_ok(r: Seq<(Seq<char>, Seq<char>)>, cands: Seq<Seq<char>>) -> bool {
    &&& forall|k: int| 0 <= k < r.len() ==> #[trigger] r[k].0 == path_key(r[k].1)
    &&& forall|p: int, q: int| 0 <= p < q < r.len() ==> lex_lt(#[trigger] r[p].0, #[trigger] r[q].0)
    &&& forall|k: int| 0 <= k < r.len() ==> first_of_key(cands, #[trigger] r[k].1)
    &&& forall|i: int|
        0 <= i < cands.len() ==> covered(r, path_key(#[trigger] cands[i]))
}

proof fn lemma_first_of_key_push(cands: Seq<Seq<char>>, x: Seq<char>, y: Seq<char>)
    requires
        first_of_key(cands, y),
    ensures
        first_of_key(cands.push(x), y),
{
    let i = choose|i: int|
        0 <= i < cands.len() && cands[i] == y && forall|j: int|
            0 <= j < i ==> path_key(#[trigger] cands[j]) != path_key(y);
    let c2 = cands.push(x);
    assert(c2[i] == y);
    assert forall|j: int| 0 <= j < i implies path_key(#[trigger] c2[j]) != path_key(y) by {
        assert(c2[j] == cands[j]);
    }
}

proof fn lemma_roots_keep(ov: Seq<(Seq<char>, Seq<char>)>, cands: Seq<Seq<char>>, x: Seq<char>, pos: int)
    requires
        roots_ok(ov, cands),
        0 <= pos < ov.len(),
        ov[pos].0 == path_key(x),
    ensures
        roots_ok(ov, cands.push(x)),
{
    let c2 = cands.push(x);
    assert forall|k: int| 0 <= k < ov.len() implies first_of_key(c2, #[trigger] ov[k].1) by {
        lemma_first_of_key_push(cands, x, ov[k].1);
    }
    assert forall|i: int| 0 <= i < c2.len() implies covered(ov, path_key(#[trigger] c2[i])) by {
        if i < cands.len() {
            assert(c2[i] == cands[i]);
            assert(covered(ov, path_key(cands[i])));
            let k = choose|k: int| 0 <= k < ov.len() && #[trigger] ov[k].0 == path_key(cands[i]);
            assert(ov[k].0 == path_key(c2[i]));
        } else {
            assert(ov[pos].0 == path_key(c2[i]));
        }
    }
}

proof fn lemma_roots_absent(ov: Seq<(Seq<char>, Seq<char>)>, key: Seq<char>, pos: int)
    requires
        forall|p: int, q: int| 0 <= p < q < ov.len() ==> lex_lt(#[trigger] ov[p].0, #[trigger] ov[q].0),
        0 <= pos <= ov.len(),
        forall|p: int| 0 <= p < pos ==> lex_lt(#[trigger] ov[p].0, key),
        pos < ov.len() ==> lex_lt(key, ov[pos].0),
    ensures
        forall|k: int| 0 <= k < ov.len() ==> #[trigger] ov[k].0 != key,
{
    assert forall|k: int| 0 <= k < ov.len() implies #[trigger] ov[k].0 != key by {
        lemma_lex_irreflexive(key);
        if k > pos {
            assert(lex_lt(ov[pos].0, ov[k].0));
            lemma_lex_transitive(key, ov[pos].0, ov[k].0);
        }
    }
}

proof fn lemma_roots_insert_sorted(ov: Seq<(Seq<char>, Seq<char>)>, e: (Seq<char>, Seq<char>), pos: int)
    requires
        forall|p: int, q: int| 0 <= p < q < ov.len() ==> lex_lt(#[trigger] ov[p].0, #[trigger] ov[q].0),
        0 <= pos <= ov.len(),
        forall|p: int| 0 <= p < pos ==> lex_lt(#[trigger] ov[p].0, e.0),
        pos < ov.len() ==> lex_lt(e.0, ov[pos].0),
    ensures
        forall|p: int, q: int|
            0 <= p < q < ov.insert(pos, e).len() ==> lex_lt(
                #[trigger] ov.insert(pos, e)[p].0,
                #[trigger] ov.insert(pos, e)[q].0,
            ),
{
    let nv = ov.insert(pos, e);
    assert forall|p: int, q: int| 0 <= p < q < nv.len() implies lex_lt(
        #[trigger] nv[p].0,
        #[trigger] nv[q].0,
    ) by {
        if q < pos {
            assert(nv[p] == ov[p] && nv[q] == ov[q]);
        } else if q == pos {
            assert(nv[p] == ov[p]);
        } else if p == pos {
            assert(nv[q] == ov[q - 1]);
            if q - 1 > pos {
                assert(lex_lt(ov[pos].0, ov[q - 1].0));
                lemma_lex_transitive(e.0, ov[pos].0, ov[q - 1].0);
            }
        } else if p < pos {
            assert(nv[p] == ov[p] && nv[q] == ov[q - 1]);
            assert(lex_lt(ov[p].0, ov[q - 1].0));
        } else {
            assert(nv[p] == ov[p - 1] && nv[q] == ov[q - 1]);
            assert(lex_lt(ov[p - 1].0, ov[q - 1].0));
        }
    }
}

proof fn lemma_roots_insert_first(ov: Seq<(Seq<char>, Seq<char>)>, cands: Seq<Seq<char>>, x: Seq<char>, pos: int)
    requires
        forall|k: int| 0 <= k < ov.len() ==> first_of_key(cands, #[trigger] ov[k].1),
        forall|i: int|
            0 <= i < cands.len() ==> covered(ov, path_key(#[trigger] cands[i])),
        forall|k: int| 0 <= k < ov.len() ==> #[trigger] ov[k].0 != path_key(x),
        0 <= pos <= ov.len(),
    ensures
        forall|k: int|
            0 <= k < ov.insert(pos, (path_key(x), x)).len() ==> first_of_key(
                cands.push(x),
                #[trigger] ov.insert(pos, (path_key(x), x))[k].1,
            ),
{
    let c2 = cands.push(x);
    let nv = ov.insert(pos, (path_key(x), x));
    assert(first_of_key(c2, x)) by {
        let i = cands.len() as int;
        assert(c2[i] == x);
        assert forall|j: int| 0 <= j < i implies path_key(#[trigger] c2[j]) != path_key(x) by {
            assert(c2[j] == cands[j]);
            assert(covered(ov, path_key(cands[j])));
            let k = choose|k: int| 0 <= k < ov.len() && #[trigger] ov[k].0 == path_key(cands[j]);
            assert(ov[k].0 != path_key(x));
        }
    }
    assert forall|k: int| 0 <= k < nv.len() implies first_of_key(c2, #[trigger] nv[k].1) by {
        if k < pos {
            assert(nv[k] == ov[k]);
            lemma_first_of_key_push(cands, x, ov[k].1);
        } else if k > pos {
            assert(nv[k] == ov[k - 1]);
            lemma_first_of_key_push(cands, x, ov[k - 1].1);
        }
    }
}

proof fn lemma_roots_insert_cover(ov: Seq<(Seq<char>, Seq<char>)>, cands: Seq<Seq<char>>, x: Seq<char>, pos: int)
    requires
        forall|i: int|
            0 <= i < cands.len() ==> covered(ov, path_key(#[trigger] cands[i])),
        0 <= pos <= ov.len(),
    ensures
        forall|i: int|
            0 <= i < cands.push(x).len() ==> covered(
                ov.insert(pos, (path_key(x), x)),
                path_key(#[trigger] cands.push(x)[i]),
            ),
{
    let c2 = cands.push(x);
    let nv = ov.insert(pos, (path_key(x), x));
    assert forall|i: int| 0 <= i < c2.len() implies covered(nv, path_key(#[trigger] c2[i])) by {
        if i < cands.len() {
            assert(c2[i] == cands[i]);
            assert(covered(ov, path_key(cands[i])));
            let k = choose|k: int| 0 <= k < ov.len() && #[trigger] ov[k].0 == path_key(cands[i]);
            if k < pos {
                assert(nv[k] == ov[k]);
            } else {
                assert(nv[k + 1] == ov[k]);
            }
        } else {
            assert(nv[pos].0 == path_key(c2[i]));
        }
    }
}

proof fn lemma_roots_insert(ov: Seq<(Seq<char>, Seq<char>)>, cands: Seq<Seq<char>>, x: Seq<char>, pos: int)
    requires
        roots_ok(ov, cands),
        0 <= pos <= ov.len(),
        forall|p: int| 0 <= p < pos ==> lex_lt(#[trigger] ov[p].0, path_key(x)),
        pos < ov.len() ==> lex_lt(path_key(x), ov[pos].0),
    ensures
        roots_ok(ov.insert(pos, (path_key(x), x)), cands.push(x)),
{
    let kv = path_key(x);
    let nv = ov.insert(pos, (kv, x));
    lemma_roots_absent(ov, kv, pos);
    lemma_roots_insert_sorted(ov, (kv, x), pos);
    lemma_roots_insert_first(ov, cands, x, pos);
    lemma_roots_insert_cover(ov, cands, x, pos);
    assert forall|k: int| 0 <= k < nv.len() implies #[trigger] nv[k].0 == path_key(nv[k].1) by {
        if k < pos {
            assert(nv[k] == ov[k]);
        } else if k > pos {
            assert(nv[k] == ov[k - 1]);
        }
    }
}

/// Adds a candidate root, unless a root with its key is already there.
fn insert_root(v: &mut Vec<(Vec<char>, Vec<char>)>, x: Vec<char>, Ghost(cands): Ghost<Seq<Seq<char>>>)
    requires
        roots_ok(pairs_view(old(v)@), cands),
    ensures
        roots_ok(pairs_view(final(v)@), cands.push(x@)),
{
    let ghost ov = pairs_view(v@);
    let ghost xv = x@;
    let key = key_of(&x);
    let mut pos: usize = 0;
    while pos < v.len() && lex_less(&v[pos].0, &key)
        invariant
            0 <= pos <= v@.len(),
            ov == pairs_view(v@),
            forall|p: int| 0 <= p < pos ==> lex_lt(#[trigger] ov[p].0, key@),
        decreases v@.len() - pos,
    {
        pos = pos + 1;
    }
    if pos < v.len() && chars_equal(&v[pos].0, &key) {
        proof {
            lemma_roots_keep(ov, cands, xv, pos as int);
        }
        return;
    }
    proof {
        if pos < ov.len() {
            lemma_lex_total(ov[pos as int].0, key@);
        }
        lemma_roots_insert(ov, cands, xv, pos as int);
    }
    let ghost kv = key@;
    v.insert(pos, (key, x));
    proof {
        assert(pairs_view(v@) =~= ov.insert(pos as int, (kv, xv)));
    }
}

/// The normalised forms of some paths.
pub open spec fn root_keys(v: Seq<String>) -> Seq<Seq<char>> {
    v.map_values(|y: String| path_key(y@))
}

pub open spec fn text_view(m: Option<&str>) -> Option<Seq<char>> {
    match m {
        Some(t) => Some(t@),
        None => None,
    }
}

/// The candidate roots in order: the install path, then each declared path.
pub open spec fn root_candidates(install: Seq<char>, manifest: Option<Seq<char>>) -> Seq<Seq<char>> {
    seq![install] + match manifest {
        Some(m) => declared_paths(lines_of(m)),
        None => Seq::<Seq<char>>::empty(),
    }
}

/// The library roots of an installation: the install path and every path
/// that the library manifest declares (none where there is no manifest),
/// one per folder (spellings that differ only in separators count as one,
/// the first spelling kept), ordered by their normalised form. The install
/// path is always among them.
pub fn load_library_paths(install: &str, manifest: Option<&str>) -> (r: Vec<String>)
    ensures
        strings_view(r@).contains(install@),
        forall|p: int, q: int|
            0 <= p < q < r@.len() ==> lex_lt(path_key(#[trigger] r@[p]@), path_key(#[trigger] r@[q]@)),
        forall|k: int|
            0 <= k < r@.len() ==> first_of_key(
                root_candidates(install@, text_view(manifest)),
                #[trigger] r@[k]@,
            ),
        forall|i: int|
            0 <= i < root_candidates(install@, text_view(manifest)).len() ==> root_keys(
                r@,
            ).contains(path_key(#[trigger] root_candidates(install@, text_view(manifest))[i])),
{
    let ghost cands = root_candidates(install@, text_view(manifest));
    let mut roots: Vec<(Vec<char>, Vec<char>)> = Vec::new();
    let inst = chars_of(install);
    proof {
        assert(pairs_view(roots@) =~= Seq::<(Seq<char>, Seq<char>)>::empty());
    }
    insert_root(&mut roots, inst, Ghost(Seq::<Seq<char>>::empty()));
    let ghost mut cur: Seq<Seq<char>> = seq![install@];
    proof {
        assert(Seq::<Seq<char>>::empty().push(install@) =~= cur);
    }
    match manifest {
        Some(m) => {
            let content = chars_of(m);
            let lines = split_lines(&content);
            let ghost ls = lines_of(m@);
            let key = chars_of("path");
            let mut i: usize = 0;
            proof {
                assert(ls.take(0) =~= Seq::<Seq<char>>::empty());
                assert(cur =~= seq![install@] + declared_paths(ls.take(0)));
            }
            while i < lines.len()
                invariant
                    ls == lines_of(m@),
                    lines@.len() == ls.len(),
                    forall|j: int| 0 <= j < lines@.len() ==> #[trigger] lines@[j]@ == ls[j],
                    0 <= i <= lines@.len(),
                    key@ == "path"@,
                    cur == seq![install@] + declared_paths(ls.take(i as int)),
                    roots_ok(pairs_view(roots@), cur),
                decreases lines@.len() - i,
            {
                let ghost prev = declared_paths(ls.take(i as int));
                proof {
                    assert(ls.take(i + 1).drop_last() =~= ls.take(i as int));
                }
                match keyed_value(&lines[i], &key) {
                    Some(v) => {
                        let raw = trim_chars(&v);
                        if raw.len() > 0 {
                            let p = unescape_chars(&raw);
                            let ghost pv = p@;
                            insert_root(&mut roots, p, Ghost(cur));
                            proof {
                                assert(declared_paths(ls.take(i + 1)) == prev.push(pv));
                                assert(cur.push(pv) =~= seq![install@] + prev.push(pv));
                                cur = cur.push(pv);
                            }
                        } else {
                            proof {
                                assert(declared_paths(ls.take(i + 1)) == prev);
                            }
                        }
                    },
                    None => {
                        proof {
                            assert(declared_paths(ls.take(i + 1)) == prev);
                        }
                    },
                }
                i = i + 1;
            }
            proof {
                assert(ls.take(ls.len() as int) =~= ls);
            }
        },
        None => {
            proof {
                assert(cur =~= cands);
            }
        },
    }
    let mut r: Vec<String> = Vec::new();
    let mut k: usize = 0;
    let ghost rv = pairs_view(roots@);
    while k < roots.len()
        invariant
            0 <= k <= roots@.len(),
            rv == pairs_view(roots@),
            r@.len() == k,
            forall|j: int| 0 <= j < k ==> #[trigger] r@[j]@ == rv[j].1,
        decreases roots@.len() - k,
    {
        r.push(string_of(&roots[k].1));
        k = k + 1;
    }
    proof {
        assert(cur == cands);
        assert forall|p: int, q: int| 0 <= p < q < r@.len() implies lex_lt(
            path_key(#[trigger] r@[p]@),
            path_key(#[trigger] r@[q]@),
        ) by {
            assert(lex_lt(rv[p].0, rv[q].0));
        }
        assert forall|i: int| 0 <= i < cands.len() implies root_keys(r@).contains(
            path_key(#[trigger] cands[i]),
        ) by {
            assert(covered(rv, path_key(cands[i])));
            let k = choose|k: int| 0 <= k < rv.len() && #[trigger] rv[k].0 == path_key(cands[i]);
            assert(r@[k]@ == rv[k].1);
            assert(root_keys(r@)[k] == path_key(cands[i]));
        }
        // the install path is the first candidate, so the root with its key is itself
        assert(covered(rv, path_key(cands[0])));
        let k0 = choose|k: int| 0 <= k < rv.len() && #[trigger] rv[k].0 == path_key(cands[0]);
        assert(first_of_key(cands, rv[k0].1));
        let i0 = choose|i: int|
            0 <= i < cands.len() && cands[i] == rv[k0].1 && forall|j: int|
                0 <= j < i ==> path_key(#[trigger] cands[j]) != path_key(rv[k0].1);
        if i0 > 0 {
            assert(path_key(cands[0]) != path_key(rv[k0].1));
        }
        assert(strings_view(r@)[k0] == install@);
    }
    r
}

/// A file name of the form `appmanifest_*.acf`.
pub open spec fn is_manifest_name(name: Seq<char>) -> bool {
    &&& name.len() >= 12 && name.take(12) == "appmanifest_"@
    &&& name.len() >= 4 && name.skip(name.len() - 4) == ".acf"@
}

fn matches_at(s: &Vec<char>, pat: &Vec<char>, at: usize) -> (r: bool)
    requires
        at + pat@.len() <= s@.len(),
    ensures
        r == (s@.subrange(at as int, at + pat@.len()) == pat@),
{
    let ln = s.len();
    let mut j: usize = 0;
    while j < pat.len()
        invariant
            ln == s@.len(),
            0 <= j <= pat@.len(),
            at + pat@.len() <= s@.len(),
            forall|m: int| 0 <= m < j ==> s@[at + m] == pat@[m],
        decreases pat@.len() - j,
    {
        if s[at + j] != pat[j] {
            assert(s@.subrange(at as int, at + pat@.len())[j as int] != pat@[j as int]);
            return false;
        }
        j = j + 1;
    }
    assert(s@.subrange(at as int, at + pat@.len()) =~= pat@);
    true
}

/// Whether a file name is that of an app manifest.
pub fn is_app_manifest_name(name: &str) -> (r: bool)
    ensures
        r == is_manifest_name(name@),
{
    let s = chars_of(name);
    let head = chars_of("appmanifest_");
    let tail = chars_of(".acf");
    proof {
        reveal_strlit("appmanifest_");
        reveal_strlit(".acf");
    }
    if s.len() < 12 {
        return false;
    }
    let ok_head = matches_at(&s, &head, 0);
    let ok_tail = matches_at(&s, &tail, s.len() - 4);
    proof {
        assert(s@.subrange(0, 12) == s@.take(12));
        assert(s@.subrange(s@.len() - 4, s@.len() as int) == s@.skip(s@.len() - 4));
    }
    ok_head && ok_tail
}

/// An app id with its display name.
pub struct AppName {
    pub app_id: String,
    pub name: String,
}

pub open spec fn app_names_view(v: Seq<AppName>) -> Seq<(Seq<char>, Seq<char>)> {
    v.map_values(|a: AppName| (a.app_id@, a.name@))
}

/// The id and name that one app manifest gives, where it gives both.
pub open spec fn manifest_entry(content: Seq<char>) -> Option<(Seq<char>, Seq<char>)> {
    match (manifest_value(content, "appid"@), manifest_value(content, "name"@)) {
        (Some(a), Some(n)) => Some((a, n)),
        _ => None,
    }
}

/// The name of the first entry with id `id`.
pub open spec fn name_for(names: Seq<(Seq<char>, Seq<char>)>, id: Seq<char>) -> Option<Seq<char>>
    decreases names.len(),
{
    if names.len() == 0 {
        None
    } else if names[0].0 == id {
        Some(names[0].1)
    } else {
        name_for(names.drop_first(), id)
    }
}

proof fn lemma_name_for(names: Seq<(Seq<char>, Seq<char>)>, id: Seq<char>, i: int)
    requires
        0 <= i <= names.len(),
        forall|j: int| 0 <= j < i ==> #[trigger] names[j].0 != id,
        i < names.len() ==> names[i].0 == id,
    ensures
        name_for(names, id) == if i < names.len() {
            Some(names[i].1)
        } else {
            None::<Seq<char>>
        },
    decreases i,
{
    if i > 0 {
        assert(names[0].0 != id);
        assert forall|j: int| 0 <= j < i - 1 implies #[trigger] names.drop_first()[j].0 != id by {
            assert(names.drop_first()[j] == names[j + 1]);
        }
        lemma_name_for(names.drop_first(), id, i - 1);
    }
}

/// Names from manifests read in order, the first entry for each id kept.
pub open spec fn merged_names(manifests: Seq<Seq<char>>) -> Seq<(Seq<char>, Seq<char>)>
    decreases manifests.len(),
{
    if manifests.len() == 0 {
        seq![]
    } else {
        let prev = merged_names(manifests.drop_last());
        match manifest_entry(manifests.last()) {
            Some(e) => if name_for(prev, e.0) is Some {
                prev
            } else {
                prev.push(e)
            },
            None => prev,
        }
    }
}

/// The app names that manifests give, read in library order: the first
/// name seen for an id wins.
pub fn load_app_names(manifests: &Vec<String>) -> (r: Vec<AppName>)
    ensures
        app_names_view(r@) == merged_names(strings_view(manifests@)),
{
    let ghost ms = strings_view(manifests@);
    let appid = chars_of("appid");
    let name_key = chars_of("name");
    let mut entries: Vec<(Vec<char>, Vec<char>)> = Vec::new();
    let mut i: usize = 0;
    proof {
        assert(ms.take(0) =~= Seq::<Seq<char>>::empty());
    }
    while i < manifests.len()
        invariant
            0 <= i <= manifests@.len(),
            ms == strings_view(manifests@),
            appid@ == "appid"@,
            name_key@ == "name"@,
            entries@.map_values(|p: (Vec<char>, Vec<char>)| (p.0@, p.1@)) == merged_names(
                ms.take(i as int),
            ),
        decreases manifests@.len() - i,
    {
        let ghost ev = entries@.map_values(|p: (Vec<char>, Vec<char>)| (p.0@, p.1@));
        proof {
            assert(ms.take(i + 1).drop_last() =~= ms.take(i as int));
            assert(ms.take(i + 1).last() == manifests@[i as int]@);
        }
        let content = chars_of(manifests[i].as_str());
        let a = manifest_value_chars(&content, &appid);
        let n = manifest_value_chars(&content, &name_key);
        match (a, n) {
            (Some(a), Some(n)) => {
                match find_key(&entries, &a) {
                    Some(k) => {
                        proof {
                            assert forall|j: int| 0 <= j < k implies #[trigger] ev[j].0 != a@ by {
                                assert(entries@[j].0@ != a@);
                            }
                            lemma_name_for(ev, a@, k as int);
                        }
                    },
                    None => {
                        proof {
                            assert forall|j: int| 0 <= j < ev.len() implies #[trigger] ev[j].0
                                != a@ by {
                                assert(entries@[j].0@ != a@);
                            }
                            lemma_name_for(ev, a@, ev.len() as int);
                        }
                        let ghost av = a@;
                        let ghost nv = n@;
                        entries.push((a, n));
                        proof {
                            assert(entries@.map_values(|p: (Vec<char>, Vec<char>)| (p.0@, p.1@))
                                =~= ev.push((av, nv)));
                        }
                    },
                }
            },
            _ => {},
        }
        i = i + 1;
    }
    proof {
        assert(ms.take(manifests@.len() as int) =~= ms);
    }
    let mut r: Vec<AppName> = Vec::new();
    let mut k: usize = 0;
    let ghost ev = entries@.map_values(|p: (Vec<char>, Vec<char>)| (p.0@, p.1@));
    while k < entries.len()
        invariant
            0 <= k <= entries@.len(),
            ev == entries@.map_values(|p: (Vec<char>, Vec<char>)| (p.0@, p.1@)),
            app_names_view(r@) == ev.take(k as int),
        decreases entries@.len() - k,
    {
        let ghost before = r@;
        r.push(AppName { app_id: string_of(&entries[k].0), name: string_of(&entries[k].1) });
        proof {
            assert(app_names_view(r@) =~= app_names_view(before).push(ev[k as int]));
            assert(ev.take(k + 1) =~= ev.take(k as int).push(ev[k as int]));
        }
        k = k + 1;
    }
    proof {
        assert(ev.take(entries@.len() as int) =~= ev);
    }
    r
}

/// An entry of an account's per-app data folder.
pub struct FolderEntry {
    pub name: String,
    pub is_dir: bool,
}

/// The app ids that an account has data for: the names of the entries that
/// are folders and whose names are all digits, in listing order.
pub open spec fn owned_ids(entries: Seq<FolderEntry>) -> Seq<Seq<char>>
    decreases entries.len(),
{
    if entries.len() == 0 {
        seq![]
    } else {
        let prev = owned_ids(entries.drop_last());
        let e = entries.last();
        if e.is_dir && all_digits(e.name@) {
            prev.push(e.name@)
        } else {
            prev
        }
    }
}

pub fn list_account_games(entries: &Vec<FolderEntry>) -> (r: Vec<String>)
    ensures
        strings_view(r@) == owned_ids(entries@),
{
    let mut r: Vec<String> = Vec::new();
    let mut i: usize = 0;
    proof {
        assert(entries@.take(0) =~= Seq::<FolderEntry>::empty());
    }
    while i < entries.len()
        invariant
            0 <= i <= entries@.len(),
            strings_view(r@) == owned_ids(entries@.take(i as int)),
        decreases entries@.len() - i,
    {
        proof {
            assert(entries@.take(i + 1).drop_last() =~= entries@.take(i as int));
        }
        let e = &entries[i];
        let name = chars_of(e.name.as_str());
        if e.is_dir && is_all_digits(&name) {
            let ghost before = r@;
            r.push(e.name.clone());
            proof {
                assert(strings_view(r@) =~= strings_view(before).push(e.name@));
            }
        }
        i = i + 1;
    }
    proof {
        assert(entries@.take(entries@.len() as int) =~= entries@);
    }
    r
}

/// A game whose settings can be copied.
pub struct CopyableGame {
    pub app_id: String,
    pub name: String,
}

/// The two ids that are client data, not games.
pub open spec fn is_reserved(id: Seq<char>) -> bool {
    id == seq!['7'] || id == seq!['7', '6', '0']
}

/// The owned ids that are games with a known name, with that name, in order.
pub open spec fn game_candidates(owned: Seq<Seq<char>>, names: Seq<(Seq<char>, Seq<char>)>) -> Seq<
    (Seq<char>, Seq<char>),
>
    decreases owned.len(),
{
    if owned.len() == 0 {
        seq![]
    } else {
        let prev = game_candidates(owned.drop_last(), names);
        let id = owned.last();
        if is_reserved(id) {
            prev
        } else {
            match name_for(names, id) {
                Some(n) => prev.push((id, n)),
                None => prev,
            }
        }
    }
}

pub open spec fn sort_keys(c: Seq<(Seq<char>, Seq<char>)>) -> Seq<Seq<char>> {
    c.map_values(|g: (Seq<char>, Seq<char>)| lower_of(g.1))
}

/// `games` are the candidates `c`, stably sorted by lower-cased name.
pub open spec fn sorted_games(games: Seq<CopyableGame>, c: Seq<(Seq<char>, Seq<char>)>) -> bool {
    exists|order: Seq<usize>|
        {
            &&& is_permutation(order, c.len() as int)
            &&& sorted_stably(order, sort_keys(c))
            &&& games.len() == c.len()
            &&& forall|k: int|
                0 <= k < games.len() ==> (#[trigger] games[k]).app_id@ == c[order[k] as int].0
                    && games[k].name@ == c[order[k] as int].1
        }
}

fn is_reserved_exec(id: &Vec<char>) -> (r: bool)
    ensures
        r == is_reserved(id@),
{
    let r = (id.len() == 1 && id[0] == '7') || (id.len() == 3 && id[0] == '7' && id[1] == '6'
        && id[2] == '0');
    proof {
        if id@.len() == 1 && id@[0] == '7' {
            assert(id@ =~= seq!['7']);
        }
        if id@.len() == 3 && id@[0] == '7' && id@[1] == '6' && id@[2] == '0' {
            assert(id@ =~= seq!['7', '6', '0']);
        }
    }
    r
}

/// The games of an account whose settings can be copied: its owned ids but
/// the two reserved ones, those with a known name, sorted by name ignoring
/// case.
pub fn get_copyable_games(owned: &Vec<String>, names: &Vec<AppName>) -> (r: Vec<CopyableGame>)
    ensures
        sorted_games(r@, game_candidates(strings_view(owned@), app_names_view(names@))),
{
    let ghost ov = strings_view(owned@);
    let ghost nv = app_names_view(names@);
    let mut table: Vec<(Vec<char>, Vec<char>)> = Vec::new();
    let mut i: usize = 0;
    while i < names.len()
        invariant
            0 <= i <= names@.len(),
            nv == app_names_view(names@),
            table@.len() == i,
            forall|j: int|
                0 <= j < i ==> (#[trigger] table@[j]).0@ == nv[j].0 && table@[j].1@ == nv[j].1,
        decreases names@.len() - i,
    {
        table.push((chars_of(names[i].app_id.as_str()), chars_of(names[i].name.as_str())));
        i = i + 1;
    }
    let mut cands: Vec<(Vec<char>, Vec<char>)> = Vec::new();
    let mut k: usize = 0;
    proof {
        assert(ov.take(0) =~= Seq::<Seq<char>>::empty());
    }
    while k < owned.len()
        invariant
            0 <= k <= owned@.len(),
            ov == strings_view(owned@),
            nv == app_names_view(names@),
            table@.len() == nv.len(),
            forall|j: int|
                0 <= j < nv.len() ==> (#[trigger] table@[j]).0@ == nv[j].0 && table@[j].1@
                    == nv[j].1,
            cands@.map_values(|p: (Vec<char>, Vec<char>)| (p.0@, p.1@)) == game_candidates(
                ov.take(k as int),
                nv,
            ),
        decreases owned@.len() - k,
    {
        let ghost cv = cands@.map_values(|p: (Vec<char>, Vec<char>)| (p.0@, p.1@));
        proof {
            assert(ov.take(k + 1).drop_last() =~= ov.take(k as int));
            assert(ov.take(k + 1).last() == owned@[k as int]@);
        }
        let id = chars_of(owned[k].as_str());
        if !is_reserved_exec(&id) {
            match find_key(&table, &id) {
                Some(t) => {
                    proof {
                        assert forall|j: int| 0 <= j < t implies #[trigger] nv[j].0 != id@ by {
                            assert(table@[j].0@ != id@);
                        }
                        lemma_name_for(nv, id@, t as int);
                    }
                    let ghost gid = id@;
                    let n = table[t].1.clone();
                    cands.push((id, n));
                    proof {
                        assert(cands@.map_values(|p: (Vec<char>, Vec<char>)| (p.0@, p.1@)) =~= cv.push(
                            (gid, nv[t as int].1),
                        ));
                    }
                },
                None => {
                    proof {
                        assert forall|j: int| 0 <= j < nv.len() implies #[trigger] nv[j].0 != id@ by {
                            assert(table@[j].0@ != id@);
                        }
                        lemma_name_for(nv, id@, nv.len() as int);
                    }
                },
            }
        }
        k = k + 1;
    }
    proof {
        assert(ov.take(owned@.len() as int) =~= ov);
    }
    let ghost cv = cands@.map_values(|p: (Vec<char>, Vec<char>)| (p.0@, p.1@));
    let mut keys: Vec<Vec<char>> = Vec::new();
    let mut m: usize = 0;
    while m < cands.len()
        invariant
            0 <= m <= cands@.len(),
            cv == cands@.map_values(|p: (Vec<char>, Vec<char>)| (p.0@, p.1@)),
            keys@.len() == m,
            forall|j: int| 0 <= j < m ==> #[trigger] keys@[j]@ == lower_of(cv[j].1),
        decreases cands@.len() - m,
    {
        keys.push(lowercase(&cands[m].1));
        m = m + 1;
    }
    proof {
        assert(keys@.map_values(|k: Vec<char>| k@) =~= sort_keys(cv));
    }
    let order = sorted_order(&keys);
    let mut games: Vec<CopyableGame> = Vec::new();
    let mut q: usize = 0;
    while q < order.len()
        invariant
            0 <= q <= order@.len(),
            cv == cands@.map_values(|p: (Vec<char>, Vec<char>)| (p.0@, p.1@)),
            is_permutation(order@, cv.len() as int),
            games@.len() == q,
            forall|j: int|
                0 <= j < q ==> (#[trigger] games@[j]).app_id@ == cv[order@[j] as int].0
                    && games@[j].name@ == cv[order@[j] as int].1,
        decreases order@.len() - q,
    {
        let c = &cands[order[q]];
        games.push(CopyableGame { app_id: string_of(&c.0), name: string_of(&c.1) });
        q = q + 1;
    }
    proof {
        assert(sorted_stably(order@, sort_keys(cv)));
    }
    games
}

/// Where one game's settings go: the two accounts' data folder names and
/// the app id.
pub struct CopyTarget {
    pub from_dir: String,
    pub to_dir: String,
    pub app_id: String,
}

/// Checks a copy request: the app id must be all digits (else `InvalidAppId`),
/// and both account ids must read as `u64` (else `InvalidSteamId`).
pub fn copy_game_settings(from_steam_id: &str, to_steam_id: &str, app_id: &str) -> (r: Result<
    CopyTarget,
    AppError,
>)
    ensures
        !all_digits(app_id@) ==> r matches Err(AppError::InvalidAppId),
        all_digits(app_id@) && (parse_u64_spec(from_steam_id@) is None || parse_u64_spec(
            to_steam_id@,
        ) is None) ==> r matches Err(AppError::InvalidSteamId),
        all_digits(app_id@) && parse_u64_spec(from_steam_id@) is Some && parse_u64_spec(
            to_steam_id@,
        ) is Some ==> (r matches Ok(t) && t.app_id@ == app_id@ && t.from_dir@ == decimal_of(
            low_bits(parse_u64_spec(from_steam_id@)->0) as nat,
        ) && t.to_dir@ == decimal_of(low_bits(parse_u64_spec(to_steam_id@)->0) as nat)),
{
    let id = chars_of(app_id);
    if !is_all_digits(&id) {
        return Err(AppError::InvalidAppId);
    }
    let from_dir = match account_dir_name(from_steam_id) {
        Ok(d) => d,
        Err(e) => {
            return Err(e);
        },
    };
    let to_dir = match account_dir_name(to_steam_id) {
        Ok(d) => d,
        Err(e) => {
            return Err(e);
        },
    };
    Ok(CopyTarget { from_dir, to_dir, app_id: string_of(&id) })
}

/// One filesystem change of a settings copy.
pub enum CopyStep {
    /// Delete the destination app folder and all it holds.
    RemoveTarget,
    /// Copy the source app folder, recursively, to the destination.
    CopyTree,
}

/// The changes that copy one game's settings, given whether the source and
/// destination app folders exist: none, and `UserdataNotFound`, where the
/// source is missing; else a full overwrite.
pub fn copy_steps(source: &str, source_exists: bool, target_exists: bool) -> (r: Result<
    Vec<CopyStep>,
    AppError,
>)
    ensures
        !source_exists ==> (r matches Err(AppError::UserdataNotFound(p)) && p@ == source@),
        source_exists && target_exists ==> (r matches Ok(v) && v@.len() == 2 && v@[0] is RemoveTarget
            && v@[1] is CopyTree),
        source_exists && !target_exists ==> (r matches Ok(v) && v@.len() == 1
            && v@[0] is CopyTree),
{
    if !source_exists {
        return Err(AppError::UserdataNotFound(source.to_owned()));
    }
    let mut steps: Vec<CopyStep> = Vec::new();
    if target_exists {
        steps.push(CopyStep::RemoveTarget);
    }
    steps.push(CopyStep::CopyTree);
    Ok(steps)
}

} // verus!
