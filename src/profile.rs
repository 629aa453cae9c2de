//! Profile and ban data: tag extraction from the public profile document,
//! and the batching of ids for ban lookups.
use vstd::prelude::*;
use crate::accounts::{valid_steam_id, validate_steam_id};
use crate::edit::{occurs_at, occurs_at_exec, append_chars};
use crate::text::{chars_equal, chars_of, copy_range, string_of, trim, trim_chars};

verus! {

/// `i` is the first place where `pat` occurs in `s`.
pub open spec fn first_at(s: Seq<char>, pat: Seq<char>, i: int) -> bool {
    occurs_at(s, pat, i) && forall|j: int| 0 <= j < i ==> !occurs_at(s, pat, j)
}

/// Where `pat` first occurs in `s`, as `str::find` gives it.
pub open spec fn find_seq(s: Seq<char>, pat: Seq<char>) -> Option<int> {
    if exists|i: int| first_at(s, pat, i) {
        Some(choose|i: int| first_at(s, pat, i))
    } else {
        None
    }
}

fn find_exec(s: &Vec<char>, pat: &Vec<char>) -> (r: Option<usize>)
    ensures
        match r {
            Some(i) => find_seq(s@, pat@) == Some(i as int) && occurs_at(s@, pat@, i as int),
            None => find_seq(s@, pat@) is None,
        },
{
    let mut i: usize = 0;
    while i <= s.len()
        invariant
            0 <= i <= s@.len() + 1,
            forall|j: int| 0 <= j < i ==> !occurs_at(s@, pat@, j),
        decreases s@.len() + 1 - i,
    {
        if occurs_at_exec(s, pat, i) {
            proof {
                assert(first_at(s@, pat@, i as int));
                let k = choose|k: int| first_at(s@, pat@, k);
                if k < i {
                    assert(!occurs_at(s@, pat@, k));
                }
                if k > i {
                    assert(!occurs_at(s@, pat@, i as int));
                }
            }
            return Some(i);
        }
        if i == s.len() {
            proof {
                assert forall|j: int| !first_at(s@, pat@, j) by {
                    if 0 <= j <= i {
                    } else if j > i {
                        assert(!occurs_at(s@, pat@, j));
                    }
                }
            }
            return None;
        }
        i = i + 1;
    }
    None
}

/// The text between the first `open` and the first `close` after it.
pub open spec fn between(body: Seq<char>, open: Seq<char>, close: Seq<char>) -> Option<Seq<char>> {
    match find_seq(body, open) {
        Some(a) => {
            let rest = body.skip(a + open.len());
            match find_seq(rest, close) {
                Some(e) => Some(rest.take(e)),
                None => None,
            }
        },
        None => None,
    }
}

fn between_exec(body: &Vec<char>, open: &Vec<char>, close: &Vec<char>) -> (r: Option<Vec<char>>)
    ensures
        match r {
            Some(v) => between(body@, open@, close@) == Some(v@),
            None => between(body@, open@, close@) is None,
        },
{
    let bl = body.len();
    match find_exec(body, open) {
        Some(a) => {
            assert(a + open@.len() <= bl);
            let start = a + open.len();
            let rest = copy_range(body, start, body.len());
            assert(rest@ =~= body@.skip(a + open@.len()));
            match find_exec(&rest, close) {
                Some(e) => {
                    let v = copy_range(&rest, 0, e);
                    assert(v@ =~= rest@.take(e as int));
                    Some(v)
                },
                None => None,
            }
        },
        None => None,
    }
}

/// `<tag><![CDATA[`.
pub open spec fn cdata_open(tag: Seq<char>) -> Seq<char> {
    seq!['<'] + tag + "><![CDATA["@
}

/// `]]></tag>`.
pub open spec fn cdata_close(tag: Seq<char>) -> Seq<char> {
    "]]></"@ + tag + seq!['>']
}

pub open spec fn tag_open(tag: Seq<char>) -> Seq<char> {
    seq!['<'] + tag + seq!['>']
}

pub open spec fn tag_close(tag: Seq<char>) -> Seq<char> {
    seq!['<', '/'] + tag + seq!['>']
}

/// The character data of the first `tag` element of a profile document.
pub fn extract_cdata(body: &str, tag: &str) -> (r: Option<String>)
    ensures
        match r {
            Some(v) => between(body@, cdata_open(tag@), cdata_close(tag@)) == Some(v@),
            None => between(body@, cdata_open(tag@), cdata_close(tag@)) is None,
        },
{
    let b = chars_of(body);
    let t = chars_of(tag);
    let mut open: Vec<char> = Vec::new();
    open.push('<');
    append_chars(&mut open, &t);
    append_chars(&mut open, &chars_of("><![CDATA["));
    let mut close: Vec<char> = chars_of("]]></");
    append_chars(&mut close, &t);
    close.push('>');
    proof {
        assert(open@ =~= cdata_open(tag@));
        assert(close@ =~= cdata_close(tag@));
    }
    match between_exec(&b, &open, &close) {
        Some(v) => Some(string_of(&v)),
        None => None,
    }
}

/// The trimmed text of the first `tag` element of a profile document.
pub fn extract_text(body: &str, tag: &str) -> (r: Option<String>)
    ensures
        match r {
            Some(v) => match between(body@, tag_open(tag@), tag_close(tag@)) {
                Some(x) => v@ == trim(x),
                None => false,
            },
            None => between(body@, tag_open(tag@), tag_close(tag@)) is None,
        },
{
    let b = chars_of(body);
    let t = chars_of(tag);
    let mut open: Vec<char> = Vec::new();
    open.push('<');
    append_chars(&mut open, &t);
    open.push('>');
    let mut close: Vec<char> = Vec::new();
    close.push('<');
    close.push('/');
    append_chars(&mut close, &t);
    close.push('>');
    proof {
        assert(open@ =~= tag_open(tag@));
        assert(close@ =~= tag_close(tag@));
    }
    match between_exec(&b, &open, &close) {
        Some(v) => Some(string_of(&trim_chars(&v))),
        None => None,
    }
}

/// What the public profile document says of an account.
pub struct ProfileInfo {
    pub avatar_url: Option<String>,
    pub display_name: Option<String>,
    pub vac_banned: bool,
    pub trade_ban_state: String,
}

/// Reads a profile document: the full avatar URL, the display name, whether
/// `vacBanned` is `1`, and the trade-ban state (empty where absent).
pub fn profile_from_document(body: &str) -> (r: ProfileInfo)
    ensures
        match r.avatar_url {
            Some(v) => between(body@, cdata_open("avatarFull"@), cdata_close("avatarFull"@))
                == Some(v@),
            None => between(body@, cdata_open("avatarFull"@), cdata_close("avatarFull"@)) is None,
        },
        match r.display_name {
            Some(v) => between(body@, cdata_open("steamID"@), cdata_close("steamID"@)) == Some(v@),
            None => between(body@, cdata_open("steamID"@), cdata_close("steamID"@)) is None,
        },
        r.vac_banned == match between(body@, tag_open("vacBanned"@), tag_close("vacBanned"@)) {
            Some(x) => trim(x) == seq!['1'],
            None => false,
        },
        r.trade_ban_state@ == match between(
            body@,
            tag_open("tradeBanState"@),
            tag_close("tradeBanState"@),
        ) {
            Some(x) => trim(x),
            None => Seq::<char>::empty(),
        },
{
    let avatar_url = extract_cdata(body, "avatarFull");
    let display_name = extract_cdata(body, "steamID");
    let vac_banned = match extract_text(body, "vacBanned") {
        Some(v) => {
            let c = chars_of(v.as_str());
            let one = c.len() == 1 && c[0] == '1';
            proof {
                if one {
                    assert(c@ =~= seq!['1']);
                }
                if c@ == seq!['1'] {
                    assert(c@.len() == 1);
                }
            }
            one
        },
        None => false,
    };
    let trade_ban_state = match extract_text(body, "tradeBanState") {
        Some(v) => v,
        None => String::new(),
    };
    ProfileInfo { avatar_url, display_name, vac_banned, trade_ban_state }
}

/// Largest number of ids in one ban request.
pub const STEAM_BAN_IDS_PER_REQUEST: usize = 100;

/// Ids joined by commas.
pub open spec fn join_commas(ids: Seq<Seq<char>>) -> Seq<char>
    decreases ids.len(),
{
    if ids.len() == 0 {
        seq![]
    } else if ids.len() == 1 {
        ids[0]
    } else {
        join_commas(ids.drop_last()) + seq![','] + ids.last()
    }
}

/// The id lists of the ban requests: the ids in order, at most a hundred
/// to a request.
pub open spec fn batches(ids: Seq<Seq<char>>) -> Seq<Seq<char>>
    decreases ids.len(),
{
    if ids.len() == 0 {
        seq![]
    } else if ids.len() <= 100 {
        seq![join_commas(ids)]
    } else {
        seq![join_commas(ids.take(100))] + batches(ids.skip(100))
    }
}

pub open spec fn strings_of(v: Seq<String>) -> Seq<Seq<char>> {
    v.map_values(|a: String| a@)
}

fn join_range(ids: &Vec<String>, from: usize, to: usize) -> (r: Vec<char>)
    requires
        from < to <= ids@.len(),
    ensures
        r@ == join_commas(strings_of(ids@).subrange(from as int, to as int)),
{
    let ghost sv = strings_of(ids@);
    let mut out = chars_of(ids[from].as_str());
    let mut k = from + 1;
    proof {
        assert(sv.subrange(from as int, from + 1) =~= seq![sv[from as int]]);
    }
    while k < to
        invariant
            from < k <= to <= ids@.len(),
            sv == strings_of(ids@),
            out@ == join_commas(sv.subrange(from as int, k as int)),
        decreases to - k,
    {
        let ghost before = out@;
        out.push(',');
        append_chars(&mut out, &chars_of(ids[k].as_str()));
        proof {
            let t = sv.subrange(from as int, k + 1);
            assert(t.drop_last() =~= sv.subrange(from as int, k as int));
            assert(t.last() == sv[k as int]);
            assert(out@ =~= before + seq![','] + sv[k as int]);
        }
        k = k + 1;
    }
    out
}

/// The comma-joined id lists of the ban requests for `ids`.
pub fn ban_batches(ids: &Vec<String>) -> (r: Vec<String>)
    ensures
        strings_of(r@) == batches(strings_of(ids@)),
{
    let ghost sv = strings_of(ids@);
    let n = ids.len();
    let mut r: Vec<String> = Vec::new();
    let mut start: usize = 0;
    proof {
        assert(sv.subrange(0, n as int) =~= sv);
    }
    while start < n
        invariant
            0 <= start <= n == ids@.len(),
            sv == strings_of(ids@),
            strings_of(r@) + batches(sv.subrange(start as int, n as int)) == batches(sv),
        decreases n - start,
    {
        let end = if n - start > STEAM_BAN_IDS_PER_REQUEST {
            start + STEAM_BAN_IDS_PER_REQUEST
        } else {
            n
        };
        let joined = join_range(ids, start, end);
        let ghost before = strings_of(r@);
        r.push(string_of(&joined));
        proof {
            let t = sv.subrange(start as int, n as int);
            assert(strings_of(r@) =~= before.push(joined@));
            if n - start > 100 {
                assert(t.take(100) =~= sv.subrange(start as int, end as int));
                assert(t.skip(100) =~= sv.subrange(end as int, n as int));
                assert(batches(t) == seq![joined@] + batches(sv.subrange(end as int, n as int)));
            } else {
                assert(t =~= sv.subrange(start as int, end as int));
                assert(sv.subrange(end as int, n as int) =~= Seq::<Seq<char>>::empty());
            }
            assert(strings_of(r@) + batches(sv.subrange(end as int, n as int)) =~= before + batches(t));
        }
        start = end;
    }
    proof {
        assert(sv.subrange(n as int, n as int) =~= Seq::<Seq<char>>::empty());
        assert(strings_of(r@) + Seq::<Seq<char>>::empty() =~= strings_of(r@));
    }
    r
}

/// Ids in order, each kept at its first occurrence only.
pub open spec fn dedup_first(ids: Seq<Seq<char>>) -> Seq<Seq<char>>
    decreases ids.len(),
{
    if ids.len() == 0 {
        seq![]
    } else {
        let prev = dedup_first(ids.drop_last());
        if prev.contains(ids.last()) {
            prev
        } else {
            prev.push(ids.last())
        }
    }
}

/// Checks ban-lookup ids: each must be a SteamID64, else "Invalid SteamID64";
/// repeats are dropped, first occurrences kept in order.
pub fn unique_steam_ids(ids: &Vec<String>) -> (r: Result<Vec<String>, String>)
    ensures
        (forall|i: int| 0 <= i < ids@.len() ==> valid_steam_id(#[trigger] ids@[i]@)) ==> (r matches Ok(v) && strings_of(v@) == dedup_first(strings_of(ids@))),
        !(forall|i: int| 0 <= i < ids@.len() ==> valid_steam_id(#[trigger] ids@[i]@)) ==> (r matches Err(m) && m@ == "Invalid SteamID64"@),
{
    let ghost sv = strings_of(ids@);
    let mut seen: Vec<Vec<char>> = Vec::new();
    let mut out: Vec<String> = Vec::new();
    let mut i: usize = 0;
    proof {
        assert(sv.take(0) =~= Seq::<Seq<char>>::empty());
    }
    while i < ids.len()
        invariant
            0 <= i <= ids@.len(),
            sv == strings_of(ids@),
            forall|j: int| 0 <= j < i ==> valid_steam_id(#[trigger] ids@[j]@),
            strings_of(out@) == dedup_first(sv.take(i as int)),
            seen@.len() == out@.len(),
            forall|j: int| 0 <= j < seen@.len() ==> #[trigger] seen@[j]@ == out@[j]@,
        decreases ids@.len() - i,
    {
        match validate_steam_id(ids[i].as_str()) {
            Ok(()) => {},
            Err(m) => {
                return Err(m);
            },
        }
        let id = chars_of(ids[i].as_str());
        proof {
            assert(sv.take(i + 1).drop_last() =~= sv.take(i as int));
            assert(sv.take(i + 1).last() == id@);
        }
        let ghost prev = strings_of(out@);
        let mut found = false;
        let mut k: usize = 0;
        while k < seen.len()
            invariant
                0 <= k <= seen@.len(),
                seen@.len() == out@.len(),
                prev == strings_of(out@),
                forall|j: int| 0 <= j < seen@.len() ==> #[trigger] seen@[j]@ == out@[j]@,
                found ==> prev.contains(id@),
                !found ==> forall|j: int| 0 <= j < k ==> prev[j] != id@,
            decreases seen@.len() - k,
        {
            if chars_equal(&seen[k], &id) {
                proof {
                    assert(prev[k as int] == id@);
                }
                found = true;
            }
            k = k + 1;
        }
        if !found {
            let s = ids[i].clone();
            seen.push(id);
            out.push(s);
            proof {
                assert(strings_of(out@) =~= prev.push(ids@[i as int]@));
            }
        }
        i = i + 1;
    }
    proof {
        assert(sv.take(ids@.len() as int) =~= sv);
    }
    Ok(out)
}

/// One account's ban record, as the ban lookup reports it.
pub struct BanInfo {
    pub steam_id: String,
    pub community_banned: bool,
    pub vac_banned: bool,
    pub number_of_vac_bans: u32,
    pub days_since_last_ban: u32,
    pub number_of_game_bans: u32,
    pub economy_ban: String,
}

} // verus!
