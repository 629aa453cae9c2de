//! The account directory: login-history records, the current account, the
//! account list, and the mapping from a 64-bit account id to the local one.
use vstd::prelude::*;
use crate::error::AppError;
use crate::order::{is_permutation, sorted_order, sorted_stably};
use crate::text::{all_digits, chars_of, is_all_digits, is_digit, string_of};
use crate::vdf::{
    assoc_get, blocks_view, fields_view, find_key, has_key, inner_unique, key_index, keys_unique, max_text,
    parse_blocks, parse_vdf_chars, Fields,
};

verus! {

pub open spec fn digit_value(c: char) -> int {
    (c as int) - ('0' as int)
}

/// The number that a run of decimal digits stands for.
pub open spec fn digits_value(d: Seq<char>) -> int
    decreases d.len(),
{
    if d.len() == 0 {
        0
    } else {
        digits_value(d.drop_last()) * 10 + digit_value(d.last())
    }
}

/// What `str::parse::<u64>` accepts: an optional `+`, then one or more
/// decimal digits whose value fits in 64 bits.
pub open spec fn parse_u64_spec(s: Seq<char>) -> Option<u64> {
    let d = if s.len() > 0 && s[0] == '+' {
        s.drop_first()
    } else {
        s
    };
    if all_digits(d) && digits_value(d) <= u64::MAX {
        Some(digits_value(d) as u64)
    } else {
        None
    }
}

proof fn lemma_digits_value_grows(d: Seq<char>, k: int)
    requires
        0 <= k <= d.len(),
        forall|i: int| 0 <= i < d.len() ==> is_digit(#[trigger] d[i]),
    ensures
        0 <= digits_value(d.take(k)) <= digits_value(d),
    decreases d.len(),
{
    if k < d.len() {
        assert(d.drop_last().take(k) =~= d.take(k));
        lemma_digits_value_grows(d.drop_last(), k);
    } else {
        assert(d.take(k) =~= d);
        if d.len() > 0 {
            lemma_digits_value_grows(d.drop_last(), 0);
        }
    }
}

/// Reads a `u64` in decimal.
pub fn parse_u64(s: &Vec<char>) -> (r: Option<u64>)
    ensures
        r == parse_u64_spec(s@),
{
    let n = s.len();
    let mut i: usize = 0;
    if n > 0 && s[0] == '+' {
        i = 1;
    }
    let ghost d = if s@.len() > 0 && s@[0] == '+' {
        s@.drop_first()
    } else {
        s@
    };
    if i == n {
        return None;
    }
    let start = i;
    let mut v: u64 = 0;
    proof {
        assert(d.take(0) =~= Seq::<char>::empty());
    }
    while i < n
        invariant
            start <= i <= n == s@.len(),
            d == s@.subrange(start as int, n as int),
            d == (if s@.len() > 0 && s@[0] == '+' {
                s@.drop_first()
            } else {
                s@
            }),
            v as int == digits_value(d.take(i - start)),
            forall|j: int| 0 <= j < i - start ==> is_digit(#[trigger] d[j]),
        decreases n - i,
    {
        let c = s[i];
        let ghost k = i - start;
        proof {
            assert(d[k] == c);
        }
        if !('0' <= c && c <= '9') {
            proof {
                assert(!is_digit(d[k]));
                assert(!all_digits(d));
            }
            return None;
        }
        let dv = (c as u32 - '0' as u32) as u64;
        proof {
            assert(d.take(k + 1).drop_last() =~= d.take(k));
            assert(d.take(k + 1).last() == c);
            assert(dv as int == digit_value(c));
            assert(digits_value(d.take(k + 1)) == v * 10 + dv);
        }
        match v.checked_mul(10) {
            Some(m) => match m.checked_add(dv) {
                Some(w) => {
                    v = w;
                },
                None => {
                    proof {
                        if all_digits(d) {
                            lemma_digits_value_grows(d, k + 1);
                            assert(digits_value(d) > u64::MAX);
                        }
                    }
                    return None;
                },
            },
            None => {
                proof {
                    if all_digits(d) {
                        lemma_digits_value_grows(d, k + 1);
                        assert(v * 10 > u64::MAX);
                        assert(digits_value(d) > u64::MAX);
                    }
                }
                return None;
            },
        }
        i = i + 1;
    }
    proof {
        assert(d.take(d.len() as int) =~= d);
    }
    Some(v)
}

/// Lower 32 bits of a 64-bit account id: the local account id.
pub open spec fn low_bits(id: u64) -> u32 {
    (id % 0x1_0000_0000) as u32
}

/// The local account id of a SteamID64 text, where it reads as a `u64`.
pub fn steam_id_to_account_id(steam_id64: &str) -> (r: Option<u32>)
    ensures
        r == match parse_u64_spec(steam_id64@) {
            Some(v) => Some(low_bits(v)),
            None => None::<u32>,
        },
{
    let chars = chars_of(steam_id64);
    match parse_u64(&chars) {
        Some(id) => {
            let low = id & 0xFFFF_FFFF;
            assert(id & 0xFFFF_FFFF == id % 0x1_0000_0000) by (bit_vector);
            Some(low as u32)
        },
        None => None,
    }
}

pub open spec fn digit_char(d: int) -> char {
    if d == 0 {
        '0'
    } else if d == 1 {
        '1'
    } else if d == 2 {
        '2'
    } else if d == 3 {
        '3'
    } else if d == 4 {
        '4'
    } else if d == 5 {
        '5'
    } else if d == 6 {
        '6'
    } else if d == 7 {
        '7'
    } else if d == 8 {
        '8'
    } else {
        '9'
    }
}

fn digit_char_exec(d: u32) -> (r: char)
    requires
        d < 10,
    ensures
        r == digit_char(d as int),
{
    if d == 0 {
        '0'
    } else if d == 1 {
        '1'
    } else if d == 2 {
        '2'
    } else if d == 3 {
        '3'
    } else if d == 4 {
        '4'
    } else if d == 5 {
        '5'
    } else if d == 6 {
        '6'
    } else if d == 7 {
        '7'
    } else if d == 8 {
        '8'
    } else {
        '9'
    }
}

/// The decimal digits of `n`, as `to_string` writes them.
pub open spec fn decimal_of(n: nat) -> Seq<char>
    decreases n,
{
    if n < 10 {
        seq![digit_char(n as int)]
    } else {
        decimal_of(n / 10).push(digit_char((n % 10) as int))
    }
}

/// Writes `n` in decimal.
pub fn decimal_string(n: u32) -> (r: String)
    ensures
        r@ == decimal_of(n as nat),
{
    let mut m = n;
    let mut out: Vec<char> = Vec::new();
    while m >= 10
        invariant
            decimal_of(n as nat) == decimal_of(m as nat) + out@,
        decreases m,
    {
        let ghost old_out = out@;
        out.insert(0, digit_char_exec(m % 10));
        proof {
            assert(out@ == seq![digit_char((m % 10) as int)] + old_out);
            assert(decimal_of(m as nat) == decimal_of((m / 10) as nat).push(
                digit_char((m % 10) as int),
            ));
            assert(decimal_of(m as nat) + old_out =~= decimal_of((m / 10) as nat) + out@);
        }
        m = m / 10;
    }
    let ghost old_out = out@;
    out.insert(0, digit_char_exec(m));
    proof {
        assert(decimal_of(n as nat) =~= out@);
    }
    string_of(&out)
}

/// The name of an account's per-user data folder: its local id in decimal.
/// Fails with `InvalidSteamId` where the id does not read as a `u64`.
pub fn account_dir_name(steam_id: &str) -> (r: Result<String, AppError>)
    ensures
        match parse_u64_spec(steam_id@) {
            Some(v) => r is Ok && r->Ok_0@ == decimal_of(low_bits(v) as nat),
            None => r is Err && r->Err_0 is InvalidSteamId,
        },
{
    match steam_id_to_account_id(steam_id) {
        Some(id) => Ok(decimal_string(id)),
        None => Err(AppError::InvalidSteamId),
    }
}

/// One record of the login history, as the history file holds it.
pub struct LoginUser {
    pub steam_id: String,
    pub account_name: String,
    pub persona_name: String,
    pub last_login_at: Option<u64>,
    pub is_most_recent: bool,
}

pub struct UserView {
    pub steam_id: Seq<char>,
    pub account_name: Seq<char>,
    pub persona_name: Seq<char>,
    pub last_login_at: Option<u64>,
    pub is_most_recent: bool,
}

impl View for LoginUser {
    type V = UserView;

    open spec fn view(&self) -> UserView {
        UserView {
            steam_id: self.steam_id@,
            account_name: self.account_name@,
            persona_name: self.persona_name@,
            last_login_at: self.last_login_at,
            is_most_recent: self.is_most_recent,
        }
    }
}

pub open spec fn users_view(us: Seq<LoginUser>) -> Seq<UserView> {
    us.map_values(|u: LoginUser| u@)
}

pub open spec fn field_or_empty(f: Fields, k: Seq<char>) -> Seq<char> {
    match assoc_get(f, k) {
        Some(v) => v,
        None => seq![],
    }
}

/// The record that a block of the history file gives: its name fields, its
/// timestamp where that reads as a `u64`, and whether `mostrecent` is `1`.
pub open spec fn user_of(id: Seq<char>, f: Fields) -> UserView {
    UserView {
        steam_id: id,
        account_name: field_or_empty(f, "accountname"@),
        persona_name: field_or_empty(f, "personaname"@),
        last_login_at: match assoc_get(f, "timestamp"@) {
            Some(t) => parse_u64_spec(t),
            None => None,
        },
        is_most_recent: assoc_get(f, "mostrecent"@) == Some(seq!['1']),
    }
}

/// The records of a login-history text, one per block.
pub open spec fn login_users_of(content: Seq<char>) -> Seq<UserView> {
    parse_blocks(content).map_values(|b: (Seq<char>, Fields)| user_of(b.0, b.1))
}

fn get_field(f: &Vec<(Vec<char>, Vec<char>)>, key: &str) -> (r: Option<Vec<char>>)
    requires
        keys_unique(fields_view(f@)),
    ensures
        match r {
            Some(v) => assoc_get(fields_view(f@), key@) == Some(v@),
            None => assoc_get(fields_view(f@), key@) is None,
        },
{
    let k = chars_of(key);
    let ghost fv = fields_view(f@);
    match find_key(f, &k) {
        Some(i) => {
            proof {
                assert(fv[i as int].0 == k@);
                let j = key_index(fv, k@);
                assert(fv[j].0 == k@);
            }
            Some(f[i].1.clone())
        },
        None => {
            proof {
                if has_key(fv, k@) {
                    let j = key_index(fv, k@);
                    assert(f@[j].0@ != k@);
                }
            }
            None
        },
    }
}

/// Reads the records of a login-history text.
pub fn parse_login_users(content: &str) -> (r: Vec<LoginUser>)
    requires
        content@.len() <= max_text(),
    ensures
        users_view(r@) == login_users_of(content@),
{
    let chars = chars_of(content);
    let blocks = parse_vdf_chars(&chars);
    let ghost bv = blocks_view(blocks@);
    let mut users: Vec<LoginUser> = Vec::new();
    let mut i: usize = 0;
    while i < blocks.len()
        invariant
            0 <= i <= blocks@.len(),
            bv == blocks_view(blocks@),
            bv == parse_blocks(content@),
            keys_unique(bv),
            inner_unique(bv),
            users_view(users@) == login_users_of(content@).take(i as int),
        decreases blocks@.len() - i,
    {
        let f = &blocks[i].1;
        assert(fields_view(f@) == bv[i as int].1);
        assert(keys_unique(bv[i as int].1));
        let account_name = match get_field(f, "accountname") {
            Some(v) => string_of(&v),
            None => String::new(),
        };
        let persona_name = match get_field(f, "personaname") {
            Some(v) => string_of(&v),
            None => String::new(),
        };
        let last_login_at = match get_field(f, "timestamp") {
            Some(v) => parse_u64(&v),
            None => None,
        };
        let is_most_recent = match get_field(f, "mostrecent") {
            Some(v) => {
                let one = v.len() == 1 && v[0] == '1';
                proof {
                    if one {
                        assert(v@ =~= seq!['1']);
                    }
                    if v@ == seq!['1'] {
                        assert(v@.len() == 1 && v@[0] == '1');
                    }
                }
                one
            },
            None => false,
        };
        let steam_id = string_of(&blocks[i].0);
        let ghost old_users = users@;
        users.push(
            LoginUser { steam_id, account_name, persona_name, last_login_at, is_most_recent },
        );
        proof {
            assert(users_view(users@) =~= users_view(old_users).push(
                user_of(bv[i as int].0, bv[i as int].1),
            ));
            assert(login_users_of(content@).take(i + 1) =~= login_users_of(content@).take(
                i as int,
            ).push(user_of(bv[i as int].0, bv[i as int].1)));
        }
        i = i + 1;
    }
    proof {
        assert(login_users_of(content@).take(blocks@.len() as int) =~= login_users_of(content@));
    }
    users
}

pub open spec fn named(u: UserView) -> bool {
    u.account_name.len() > 0
}

pub open spec fn login_time(u: UserView) -> u64 {
    match u.last_login_at {
        Some(t) => t,
        None => 0,
    }
}

/// `i` is the first named record flagged most recent.
pub open spec fn first_flagged(us: Seq<UserView>, i: int) -> bool {
    &&& 0 <= i < us.len()
    &&& named(us[i]) && us[i].is_most_recent
    &&& forall|j: int| 0 <= j < i ==> !(named(#[trigger] us[j]) && us[j].is_most_recent)
}

/// `i` is the first named record with the greatest login time among the
/// named ones (a missing time counts as 0).
pub open spec fn latest(us: Seq<UserView>, i: int) -> bool {
    &&& 0 <= i < us.len()
    &&& named(us[i])
    &&& forall|j: int|
        0 <= j < us.len() && named(#[trigger] us[j]) ==> login_time(us[j]) <= login_time(us[i])
    &&& forall|j: int| 0 <= j < i && named(#[trigger] us[j]) ==> login_time(us[j]) < login_time(us[i])
}

/// The current account: the first named record flagged most recent; else
/// the named record with the latest login, the first of equals; else empty.
pub open spec fn current_name(us: Seq<UserView>) -> Seq<char> {
    if exists|i: int| first_flagged(us, i) {
        us[choose|i: int| first_flagged(us, i)].account_name
    } else if exists|i: int| latest(us, i) {
        us[choose|i: int| latest(us, i)].account_name
    } else {
        seq![]
    }
}

/// Picks the current account among login records.
pub fn current_account_name(users: &Vec<LoginUser>) -> (r: String)
    ensures
        r@ == current_name(users_view(users@)),
{
    let ghost us = users_view(users@);
    let mut best: Option<usize> = None;
    let mut best_ts: u64 = 0;
    let mut i: usize = 0;
    while i < users.len()
        invariant
            0 <= i <= users@.len(),
            us == users_view(users@),
            forall|j: int| 0 <= j < i ==> !(named(#[trigger] us[j]) && us[j].is_most_recent),
            best is None ==> forall|j: int| 0 <= j < i ==> !named(#[trigger] us[j]),
            best matches Some(b) ==> {
                &&& b < i
                &&& named(us[b as int])
                &&& login_time(us[b as int]) == best_ts
                &&& forall|j: int| 0 <= j < i && named(#[trigger] us[j]) ==> login_time(us[j]) <= best_ts
                &&& forall|j: int| 0 <= j < b && named(#[trigger] us[j]) ==> login_time(us[j]) < best_ts
            },
        decreases users@.len() - i,
    {
        let u = &users[i];
        assert(us[i as int] == u@);
        if !u.account_name.as_str().is_empty() {
            if u.is_most_recent {
                proof {
                    assert(first_flagged(us, i as int));
                    let k = choose|k: int| first_flagged(us, k);
                    if k < i {
                        assert(!(named(us[k]) && us[k].is_most_recent));
                    }
                    if k > i {
                        assert(!(named(us[i as int]) && us[i as int].is_most_recent));
                    }
                }
                return u.account_name.clone();
            }
            let ts = match u.last_login_at {
                Some(t) => t,
                None => 0,
            };
            let replace = match best {
                Some(_) => best_ts < ts,
                None => true,
            };
            if replace {
                best = Some(i);
                best_ts = ts;
            }
        }
        i = i + 1;
    }
    proof {
        assert(!exists|k: int| first_flagged(us, k));
    }
    match best {
        Some(b) => {
            proof {
                assert(latest(us, b as int));
                let k = choose|k: int| latest(us, k);
                if k < b {
                    assert(login_time(us[k]) < login_time(us[b as int]));
                }
                if k > b {
                    assert(login_time(us[b as int]) < login_time(us[k]));
                }
            }
            users[b].account_name.clone()
        },
        None => {
            proof {
                if exists|k: int| latest(us, k) {
                    let k = choose|k: int| latest(us, k);
                    assert(named(us[k]));
                }
            }
            String::new()
        },
    }
}

/// An account as listed to the user.
pub struct SteamAccount {
    pub steam_id: String,
    pub account_name: String,
    pub persona_name: String,
    pub last_login_at: Option<u64>,
}

impl View for SteamAccount {
    type V = (Seq<char>, Seq<char>, Seq<char>, Option<u64>);

    open spec fn view(&self) -> Self::V {
        (self.steam_id@, self.account_name@, self.persona_name@, self.last_login_at)
    }
}

pub open spec fn account_of(u: UserView) -> (Seq<char>, Seq<char>, Seq<char>, Option<u64>) {
    (u.steam_id, u.account_name, u.persona_name, u.last_login_at)
}

pub open spec fn names_of(us: Seq<UserView>) -> Seq<Seq<char>> {
    us.map_values(|u: UserView| u.account_name)
}

/// `accounts` are the records `us`, stably sorted by account name.
pub open spec fn sorted_accounts(accounts: Seq<SteamAccount>, us: Seq<UserView>) -> bool {
    exists|order: Seq<usize>|
        {
            &&& is_permutation(order, us.len() as int)
            &&& sorted_stably(order, names_of(us))
            &&& accounts.len() == us.len()
            &&& forall|k: int|
                0 <= k < accounts.len() ==> #[trigger] accounts[k]@ == account_of(
                    us[order[k] as int],
                )
        }
}

/// The accounts of a set of records, sorted by account name (case-sensitive,
/// equal names in record order), and the current account.
pub fn accounts_snapshot(users: &Vec<LoginUser>) -> (r: (Vec<SteamAccount>, String))
    ensures
        sorted_accounts(r.0@, users_view(users@)),
        r.1@ == current_name(users_view(users@)),
{
    let ghost us = users_view(users@);
    let current = current_account_name(users);
    let mut keys: Vec<Vec<char>> = Vec::new();
    let mut i: usize = 0;
    while i < users.len()
        invariant
            0 <= i <= users@.len(),
            us == users_view(users@),
            keys@.len() == i,
            forall|j: int| 0 <= j < i ==> #[trigger] keys@[j]@ == us[j].account_name,
        decreases users@.len() - i,
    {
        keys.push(chars_of(users[i].account_name.as_str()));
        i = i + 1;
    }
    proof {
        assert(keys@.map_values(|k: Vec<char>| k@) =~= names_of(us));
    }
    let order = sorted_order(&keys);
    let mut accounts: Vec<SteamAccount> = Vec::new();
    let mut k: usize = 0;
    while k < order.len()
        invariant
            0 <= k <= order@.len(),
            us == users_view(users@),
            is_permutation(order@, us.len() as int),
            accounts@.len() == k,
            forall|m: int|
                0 <= m < k ==> #[trigger] accounts@[m]@ == account_of(us[order@[m] as int]),
        decreases order@.len() - k,
    {
        let u = &users[order[k]];
        assert(us[order@[k as int] as int] == u@);
        accounts.push(
            SteamAccount {
                steam_id: u.steam_id.clone(),
                account_name: u.account_name.clone(),
                persona_name: u.persona_name.clone(),
                last_login_at: u.last_login_at,
            },
        );
        k = k + 1;
    }
    proof {
        assert(sorted_stably(order@, names_of(us)));
        assert(accounts@.len() == us.len());
    }
    (accounts, current)
}

/// The sorted accounts of a login-history text and its current account, from
/// one reading of the text.
pub fn get_accounts_snapshot(content: &str) -> (r: (Vec<SteamAccount>, String))
    requires
        content@.len() <= max_text(),
    ensures
        sorted_accounts(r.0@, login_users_of(content@)),
        r.1@ == current_name(login_users_of(content@)),
{
    let users = parse_login_users(content);
    accounts_snapshot(&users)
}

/// The sorted accounts of a login-history text.
pub fn get_accounts(content: &str) -> (r: Vec<SteamAccount>)
    requires
        content@.len() <= max_text(),
    ensures
        sorted_accounts(r@, login_users_of(content@)),
{
    get_accounts_snapshot(content).0
}

/// A SteamID64 as the interface takes it: seventeen decimal digits.
pub open spec fn valid_steam_id(id: Seq<char>) -> bool {
    id.len() == 17 && all_digits(id)
}

pub fn validate_steam_id(id: &str) -> (r: Result<(), String>)
    ensures
        r is Ok <==> valid_steam_id(id@),
        r matches Err(m) ==> m@ == "Invalid SteamID64"@,
{
    let chars = chars_of(id);
    if chars.len() != 17 || !is_all_digits(&chars) {
        return Err("Invalid SteamID64".to_owned());
    }
    Ok(())
}

pub open spec fn is_name_char(c: char) -> bool {
    ('a' <= c && c <= 'z') || ('A' <= c && c <= 'Z') || ('0' <= c && c <= '9') || c == '_'
}

/// An account name as the interface takes it: 1 to 64 ASCII letters, digits
/// or underscores.
pub open spec fn valid_username(name: Seq<char>) -> bool {
    1 <= name.len() <= 64 && forall|i: int| 0 <= i < name.len() ==> is_name_char(#[trigger] name[i])
}

pub fn validate_username(name: &str) -> (r: Result<(), String>)
    ensures
        r is Ok <==> valid_username(name@),
        r matches Err(m) ==> m@ == "Invalid username"@,
{
    let chars = chars_of(name);
    if chars.len() == 0 || chars.len() > 64 {
        return Err("Invalid username".to_owned());
    }
    let mut i: usize = 0;
    while i < chars.len()
        invariant
            0 <= i <= chars@.len(),
            chars@ == name@,
            forall|j: int| 0 <= j < i ==> is_name_char(#[trigger] chars@[j]),
        decreases chars@.len() - i,
    {
        let c = chars[i];
        if !(('a' <= c && c <= 'z') || ('A' <= c && c <= 'Z') || ('0' <= c && c <= '9') || c
            == '_') {
            return Err("Invalid username".to_owned());
        }
        i = i + 1;
    }
    Ok(())
}

/// The current account of a login-history text.
pub fn get_current_account_name(content: &str) -> (r: String)
    requires
        content@.len() <= max_text(),
    ensures
        r@ == current_name(login_users_of(content@)),
{
    let users = parse_login_users(content);
    current_account_name(&users)
}

} // verus!
