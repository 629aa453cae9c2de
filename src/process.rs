//! The client's process lifecycle: how it is launched, and the session that
//! stops it, changes what must change while it is down, and relaunches it.
use vstd::prelude::*;
use crate::edit::{append_chars, contains_exec, contains_seq};
use crate::error::AppError;
use crate::text::{chars_of, is_space, is_space_char, lower_of, lowercase, string_of};

verus! {

/// The words of `s`, as `str::split_whitespace` yields them.
pub open spec fn words(s: Seq<char>) -> Seq<Seq<char>>
    decreases s.len(),
{
    if s.len() == 0 {
        seq![]
    } else {
        let prev = words(s.drop_last());
        let c = s.last();
        if is_space(c) {
            prev
        } else if s.len() >= 2 && !is_space(s[s.len() - 2]) && prev.len() > 0 {
            prev.update(prev.len() - 1, prev.last().push(c))
        } else {
            prev.push(seq![c])
        }
    }
}

proof fn lemma_words_tail(s: Seq<char>)
    ensures
        s.len() > 0 && !is_space(s.last()) ==> words(s).len() > 0,
    decreases s.len(),
{
    if s.len() > 0 {
        lemma_words_tail(s.drop_last());
    }
}

/// Splits launch options into arguments at white space.
pub fn parse_launch_options(launch_options: &str) -> (r: Vec<String>)
    ensures
        r@.map_values(|a: String| a@) == words(launch_options@),
{
    let s = chars_of(launch_options);
    let mut out: Vec<Vec<char>> = Vec::new();
    let mut cur: Vec<char> = Vec::new();
    let mut i: usize = 0;
    proof {
        assert(s@.take(0) =~= Seq::<char>::empty());
    }
    while i < s.len()
        invariant
            0 <= i <= s@.len(),
            s@ == launch_options@,
            cur@.len() > 0 ==> i > 0 && !is_space(s@[i - 1]),
            i > 0 && !is_space(s@[i - 1]) ==> cur@.len() > 0,
            words(s@.take(i as int)) == if cur@.len() > 0 {
                out@.map_values(|w: Vec<char>| w@).push(cur@)
            } else {
                out@.map_values(|w: Vec<char>| w@)
            },
        decreases s@.len() - i,
    {
        let c = s[i];
        let ghost t = s@.take(i + 1);
        let ghost ow = out@.map_values(|w: Vec<char>| w@);
        let ghost oc = cur@;
        proof {
            assert(t.drop_last() =~= s@.take(i as int));
            assert(t.last() == c);
            lemma_words_tail(s@.take(i as int));
            if i > 0 {
                assert(t[t.len() - 2] == s@[i - 1]);
            }
        }
        if is_space_char(c) {
            if cur.len() > 0 {
                let w = cur;
                cur = Vec::new();
                out.push(w);
                proof {
                    assert(out@.map_values(|w: Vec<char>| w@) =~= ow.push(oc));
                }
            }
        } else {
            cur.push(c);
            proof {
                if oc.len() > 0 {
                    assert(ow.push(oc).update(ow.len() as int, oc.push(c)) =~= ow.push(cur@));
                } else {
                    assert(cur@ =~= seq![c]);
                }
            }
        }
        i = i + 1;
    }
    if cur.len() > 0 {
        out.push(cur);
    }
    proof {
        assert(s@.take(s@.len() as int) =~= s@);
    }
    let mut r: Vec<String> = Vec::new();
    let mut k: usize = 0;
    while k < out.len()
        invariant
            0 <= k <= out@.len(),
            r@.map_values(|a: String| a@) == out@.map_values(|w: Vec<char>| w@).take(k as int),
        decreases out@.len() - k,
    {
        let ghost before = r@;
        r.push(string_of(&out[k]));
        proof {
            assert(r@.map_values(|a: String| a@) =~= before.map_values(|a: String| a@).push(
                out@[k as int]@,
            ));
            assert(out@.map_values(|w: Vec<char>| w@).take(k + 1) =~= out@.map_values(
                |w: Vec<char>| w@,
            ).take(k as int).push(out@[k as int]@));
        }
        k = k + 1;
    }
    proof {
        assert(out@.map_values(|w: Vec<char>| w@).take(out@.len() as int) =~= out@.map_values(
            |w: Vec<char>| w@,
        ));
    }
    r
}

/// `s` with each single quote doubled, as a single-quoted shell string
/// needs it.
pub open spec fn double_quotes(s: Seq<char>) -> Seq<char>
    decreases s.len(),
{
    if s.len() == 0 {
        seq![]
    } else if s.last() == '\'' {
        double_quotes(s.drop_last()) + seq!['\'', '\'']
    } else {
        double_quotes(s.drop_last()).push(s.last())
    }
}

fn push_doubled(out: &mut Vec<char>, s: &Vec<char>)
    ensures
        final(out)@ == old(out)@ + double_quotes(s@),
{
    let ghost o = out@;
    let mut i: usize = 0;
    proof {
        assert(s@.take(0) =~= Seq::<char>::empty());
        assert(o + double_quotes(s@.take(0)) =~= o);
    }
    while i < s.len()
        invariant
            0 <= i <= s@.len(),
            out@ == o + double_quotes(s@.take(i as int)),
        decreases s@.len() - i,
    {
        let ghost before = out@;
        proof {
            assert(s@.take(i + 1).drop_last() =~= s@.take(i as int));
        }
        if s[i] == '\'' {
            out.push('\'');
            out.push('\'');
            proof {
                assert(out@ =~= o + double_quotes(s@.take(i + 1)));
            }
        } else {
            out.push(s[i]);
            proof {
                assert(out@ =~= o + double_quotes(s@.take(i + 1)));
            }
        }
        i = i + 1;
    }
    proof {
        assert(s@.take(s@.len() as int) =~= s@);
    }
}

/// Each argument single-quoted, joined by `, `.
pub open spec fn quoted_list(args: Seq<Seq<char>>) -> Seq<char>
    decreases args.len(),
{
    if args.len() == 0 {
        seq![]
    } else if args.len() == 1 {
        seq!['\''] + double_quotes(args[0]) + seq!['\'']
    } else {
        quoted_list(args.drop_last()) + seq![',', ' ', '\''] + double_quotes(args.last()) + seq![
            '\'',
        ]
    }
}

/// The elevated launcher's command: start the executable with the
/// arguments, each quoted, asking for administrator rights.
pub open spec fn elevated_script(exe: Seq<char>, args: Seq<Seq<char>>) -> Seq<char> {
    "Start-Process -FilePath '"@ + double_quotes(exe) + "' -Verb RunAs"@ + if args.len() == 0 {
        seq![]
    } else {
        " -ArgumentList @("@ + quoted_list(args) + ")"@
    }
}

/// A program to start, with its arguments.
pub struct LaunchPlan {
    pub program: String,
    pub args: Vec<String>,
}

pub open spec fn strings_of(v: Seq<String>) -> Seq<Seq<char>> {
    v.map_values(|a: String| a@)
}

/// `p` starts `exe` with the words of `options`: directly, or elevated
/// through PowerShell.
pub open spec fn launch_plan_for(p: LaunchPlan, exe: Seq<char>, elevated: bool, options: Seq<char>) -> bool {
    if elevated {
        p.program@ == "powershell"@ && strings_of(p.args@) == seq![
            "-NoProfile"@,
            "-WindowStyle"@,
            "Hidden"@,
            "-Command"@,
            elevated_script(exe, words(options)),
        ]
    } else {
        p.program@ == exe && strings_of(p.args@) == words(options)
    }
}

fn push_str(out: &mut Vec<char>, s: &str)
    ensures
        final(out)@ == old(out)@ + s@,
{
    let c = chars_of(s);
    append_chars(out, &c);
}

/// How to start the client: directly, with the words of the launch options
/// as arguments; or, elevated, through PowerShell's `Start-Process`.
pub fn launch_steam(steam_exe: &str, run_as_admin: bool, launch_options: &str) -> (r: LaunchPlan)
    ensures
        launch_plan_for(r, steam_exe@, run_as_admin, launch_options@),
{
    let args = parse_launch_options(launch_options);
    proof {
        assert(strings_of(args@) == args@.map_values(|a: String| a@));
    }
    if !run_as_admin {
        return LaunchPlan { program: steam_exe.to_owned(), args };
    }
    let ghost av = strings_of(args@);
    let mut script: Vec<char> = Vec::new();
    push_str(&mut script, "Start-Process -FilePath '");
    let exe = chars_of(steam_exe);
    push_doubled(&mut script, &exe);
    push_str(&mut script, "' -Verb RunAs");
    let ghost head = script@;
    if args.len() > 0 {
        push_str(&mut script, " -ArgumentList @(");
        let ghost mid = script@;
        let mut k: usize = 0;
        while k < args.len()
            invariant
                0 <= k <= args@.len(),
                av == strings_of(args@),
                script@ == mid + quoted_list(av.take(k as int)),
            decreases args@.len() - k,
        {
            let ghost before = script@;
            proof {
                assert(av.take(k + 1).drop_last() =~= av.take(k as int));
                assert(av.take(k + 1).last() == args@[k as int]@);
            }
            if k > 0 {
                push_str(&mut script, ", ");
                proof {
                    reveal_strlit(", ");
                }
            }
            script.push('\'');
            let a = chars_of(args[k].as_str());
            push_doubled(&mut script, &a);
            script.push('\'');
            proof {
                if k == 0 {
                    assert(av.take(1)[0] == a@);
                    assert(script@ =~= mid + quoted_list(av.take(1)));
                } else {
                    assert(script@ =~= mid + quoted_list(av.take(k + 1)));
                }
            }
            k = k + 1;
        }
        proof {
            assert(av.take(args@.len() as int) =~= av);
        }
        push_str(&mut script, ")");
        proof {
            assert(script@ =~= elevated_script(steam_exe@, av));
        }
    } else {
        proof {
            assert(script@ =~= elevated_script(steam_exe@, av));
        }
    }
    let mut pargs: Vec<String> = Vec::new();
    pargs.push("-NoProfile".to_owned());
    pargs.push("-WindowStyle".to_owned());
    pargs.push("Hidden".to_owned());
    pargs.push("-Command".to_owned());
    pargs.push(string_of(&script));
    proof {
        assert(strings_of(pargs@) =~= seq![
            "-NoProfile"@,
            "-WindowStyle"@,
            "Hidden"@,
            "-Command"@,
            elevated_script(steam_exe@, words(launch_options@)),
        ]);
    }
    LaunchPlan { program: "powershell".to_owned(), args: pargs }
}

/// Whether a lower-cased process listing names the client.
pub fn listing_names_steam(lowered: &str) -> (r: bool)
    ensures
        r == contains_seq(lowered@, "steam.exe"@),
{
    let name = chars_of("steam.exe");
    contains_exec(&chars_of(lowered), &name)
}

/// Whether a process listing names the client: `steam.exe` occurs in it,
/// ignoring case.
pub fn tasklist_shows_steam(output: &str) -> (r: bool)
    ensures
        r == contains_seq(lower_of(output@), "steam.exe"@),
{
    let lower = string_of(&lowercase(&chars_of(output)));
    listing_names_steam(lower.as_str())
}

/// Time between two checks while waiting for the client to exit.
pub const KILL_POLL_INTERVAL_MS: u64 = 500;

/// How long to wait for the client to exit before giving up.
pub const MAX_KILL_WAIT_MS: u64 = 5000;

/// A change made while the client is down.
pub enum Step {
    /// Target the next launch at this account and remember its credentials.
    SetAutoLogin(String),
    /// Target the next launch at no account, so that it asks for a login.
    ClearAutoLogin,
    /// Set the persona state of this local account to this digit; failures
    /// are not reported.
    PatchPersona(u32, String),
    /// Remove this account from the login history.
    RemoveLoginEntry(String),
    /// Start the client.
    Launch(LaunchPlan),
}

/// Where a session stands.
pub enum Phase {
    Start,
    Checking,
    Terminating,
    Sleeping,
    Polling,
    Performing(usize),
    Finished,
}

/// What the caller reports back: the outcome of the last action.
pub enum Event {
    Begin,
    Running(bool),
    Terminated,
    Slept,
    Performed(Result<(), AppError>),
}

/// What the caller is to do next.
pub enum Action {
    /// Report whether the client is running.
    CheckRunning,
    /// Ask the client to terminate, forcefully.
    Terminate,
    /// Sleep this many milliseconds.
    Sleep(u64),
    /// Perform the step at this index of the session's steps.
    Perform(usize),
    /// The session is over, with this outcome.
    Finish(Result<(), AppError>),
    /// The event did not fit the session's state: nothing to do.
    Nothing,
}

/// Stops the client (if it runs), then performs the steps in order, the
/// first failure ending the session.
pub struct Session {
    pub steps: Vec<Step>,
    pub phase: Phase,
    pub waited_ms: u64,
}

/// After the client is found stopped: the first step, or the end.
pub open spec fn after_stop(w: u64, n: nat) -> (Phase, u64, Action) {
    if n == 0 {
        (Phase::Finished, w, Action::Finish(Ok(())))
    } else {
        (Phase::Performing(0), w, Action::Perform(0))
    }
}

/// One transition: the next phase, the time waited so far and the action.
/// The client is checked; if it runs it is terminated, then checked after
/// each interval of sleep; when the waiting has reached the ceiling and it
/// still runs, the session fails with `KillSteamTimeout`. Once it is down,
/// each step is performed in turn.
pub open spec fn transition(phase: Phase, w: u64, n: nat, e: Event) -> (Phase, u64, Action) {
    match (phase, e) {
        (Phase::Start, Event::Begin) => (Phase::Checking, w, Action::CheckRunning),
        (Phase::Checking, Event::Running(running)) => if running {
            (Phase::Terminating, w, Action::Terminate)
        } else {
            after_stop(w, n)
        },
        (Phase::Terminating, Event::Terminated) => (
            Phase::Sleeping,
            (w + KILL_POLL_INTERVAL_MS) as u64,
            Action::Sleep(KILL_POLL_INTERVAL_MS),
        ),
        (Phase::Sleeping, Event::Slept) => (Phase::Polling, w, Action::CheckRunning),
        (Phase::Polling, Event::Running(running)) => if !running {
            after_stop(w, n)
        } else if w < MAX_KILL_WAIT_MS {
            (
                Phase::Sleeping,
                (w + KILL_POLL_INTERVAL_MS) as u64,
                Action::Sleep(KILL_POLL_INTERVAL_MS),
            )
        } else {
            (Phase::Finished, w, Action::Finish(Err(AppError::KillSteamTimeout)))
        },
        (Phase::Performing(i), Event::Performed(res)) => match res {
            Err(err) => (Phase::Finished, w, Action::Finish(Err(err))),
            Ok(_) => if i + 1 < n {
                (Phase::Performing((i + 1) as usize), w, Action::Perform((i + 1) as usize))
            } else {
                (Phase::Finished, w, Action::Finish(Ok(())))
            },
        },
        (p, _) => (p, w, Action::Nothing),
    }
}

impl Session {
    /// Time waited stays a whole number of intervals up to the ceiling, and
    /// a step being performed exists.
    pub open spec fn wf(&self) -> bool {
        &&& self.waited_ms <= MAX_KILL_WAIT_MS
        &&& self.waited_ms % KILL_POLL_INTERVAL_MS == 0
        &&& (self.phase matches Phase::Performing(i) ==> i < self.steps@.len())
        &&& (self.phase is Start || self.phase is Checking || self.phase is Terminating
            ==> self.waited_ms == 0)
    }

    fn fresh(steps: Vec<Step>) -> (r: Session)
        ensures
            r.steps == steps,
            r.phase is Start,
            r.waited_ms == 0,
            r.wf(),
    {
        Session { steps, phase: Phase::Start, waited_ms: 0 }
    }

    /// Takes the outcome of the last action and says what to do next.
    pub fn step(&mut self, event: Event) -> (a: Action)
        requires
            old(self).wf(),
        ensures
            final(self).wf(),
            final(self).steps == old(self).steps,
            (final(self).phase, final(self).waited_ms, a) == transition(
                old(self).phase,
                old(self).waited_ms,
                old(self).steps@.len(),
                event,
            ),
    {
        let n = self.steps.len();
        let w = self.waited_ms;
        match (&self.phase, event) {
            (Phase::Start, Event::Begin) => {
                self.phase = Phase::Checking;
                Action::CheckRunning
            },
            (Phase::Checking, Event::Running(running)) => {
                if running {
                    self.phase = Phase::Terminating;
                    Action::Terminate
                } else if n == 0 {
                    self.phase = Phase::Finished;
                    Action::Finish(Ok(()))
                } else {
                    self.phase = Phase::Performing(0);
                    Action::Perform(0)
                }
            },
            (Phase::Terminating, Event::Terminated) => {
                assert((w + 500) % 500 == 0);
                self.phase = Phase::Sleeping;
                self.waited_ms = w + KILL_POLL_INTERVAL_MS;
                Action::Sleep(KILL_POLL_INTERVAL_MS)
            },
            (Phase::Sleeping, Event::Slept) => {
                self.phase = Phase::Polling;
                Action::CheckRunning
            },
            (Phase::Polling, Event::Running(running)) => {
                if !running {
                    if n == 0 {
                        self.phase = Phase::Finished;
                        Action::Finish(Ok(()))
                    } else {
                        self.phase = Phase::Performing(0);
                        Action::Perform(0)
                    }
                } else if w < MAX_KILL_WAIT_MS {
                    assert((w + 500) % 500 == 0 && w + 500 <= 5000);
                    self.phase = Phase::Sleeping;
                    self.waited_ms = w + KILL_POLL_INTERVAL_MS;
                    Action::Sleep(KILL_POLL_INTERVAL_MS)
                } else {
                    self.phase = Phase::Finished;
                    Action::Finish(Err(AppError::KillSteamTimeout))
                }
            },
            (Phase::Performing(i), Event::Performed(res)) => {
                let i = *i;
                match res {
                    Err(err) => {
                        self.phase = Phase::Finished;
                        Action::Finish(Err(err))
                    },
                    Ok(_) => {
                        if i + 1 < n {
                            self.phase = Phase::Performing(i + 1);
                            Action::Perform(i + 1)
                        } else {
                            self.phase = Phase::Finished;
                            Action::Finish(Ok(()))
                        }
                    },
                }
            },
            (_, _) => Action::Nothing,
        }
    }
}

/// The session that only stops the client.
pub fn kill_steam() -> (r: Session)
    ensures
        r.steps@.len() == 0,
        r.phase is Start,
        r.waited_ms == 0,
{
    Session::fresh(Vec::new())
}

/// Switching to an account: stop the client, target the account, relaunch.
pub fn switch_account(steam_exe: &str, username: &str, run_as_admin: bool, launch_options: &str) -> (r: Session)
    ensures
        r.phase is Start,
        r.waited_ms == 0,
        r.steps@.len() == 2,
        r.steps@[0] matches Step::SetAutoLogin(u) && u@ == username@,
        r.steps@[1] matches Step::Launch(p) && launch_plan_for(p, steam_exe@, run_as_admin, launch_options@),
{
    let mut steps: Vec<Step> = Vec::new();
    steps.push(Step::SetAutoLogin(username.to_owned()));
    steps.push(Step::Launch(launch_steam(steam_exe, run_as_admin, launch_options)));
    Session::fresh(steps)
}

/// Adding an account: stop the client, target no account, relaunch so that
/// it asks for a login.
pub fn add_account(steam_exe: &str, run_as_admin: bool, launch_options: &str) -> (r: Session)
    ensures
        r.phase is Start,
        r.waited_ms == 0,
        r.steps@.len() == 2,
        r.steps@[0] is ClearAutoLogin,
        r.steps@[1] matches Step::Launch(p) && launch_plan_for(p, steam_exe@, run_as_admin, launch_options@),
{
    let mut steps: Vec<Step> = Vec::new();
    steps.push(Step::ClearAutoLogin);
    steps.push(Step::Launch(launch_steam(steam_exe, run_as_admin, launch_options)));
    Session::fresh(steps)
}

/// Forgetting an account: stop the client, remove its login-history entry.
pub fn forget_account(steam_id: &str) -> (r: Session)
    ensures
        r.phase is Start,
        r.waited_ms == 0,
        r.steps@.len() == 1,
        r.steps@[0] matches Step::RemoveLoginEntry(id) && id@ == steam_id@,
{
    let mut steps: Vec<Step> = Vec::new();
    steps.push(Step::RemoveLoginEntry(steam_id.to_owned()));
    Session::fresh(steps)
}

/// The persona-state digit of a mode: `7` for invisible, `1` otherwise.
pub open spec fn mode_state(mode: Seq<char>) -> Seq<char> {
    if mode == "invisible"@ {
        seq!['7']
    } else {
        seq!['1']
    }
}

/// Switching to an account in a mode: as switching, with the account's
/// persona state set while the client is down, where its id reads as a
/// `u64`.
pub fn switch_account_mode(
    steam_exe: &str,
    username: &str,
    steam_id: &str,
    mode: &str,
    run_as_admin: bool,
    launch_options: &str,
) -> (r: Session)
    ensures
        r.phase is Start,
        r.waited_ms == 0,
        r.steps@[0] matches Step::SetAutoLogin(u) && u@ == username@,
        match crate::accounts::parse_u64_spec(steam_id@) {
            Some(v) => {
                &&& r.steps@.len() == 3
                &&& r.steps@[1] matches Step::PatchPersona(id, st) && id == crate::accounts::low_bits(v)
                    && st@ == mode_state(mode@)
                &&& r.steps@[2] matches Step::Launch(p) && launch_plan_for(p, steam_exe@, run_as_admin, launch_options@)
            },
            None => {
                &&& r.steps@.len() == 2
                &&& r.steps@[1] matches Step::Launch(p) && launch_plan_for(p, steam_exe@, run_as_admin, launch_options@)
            },
        },
{
    let mut steps: Vec<Step> = Vec::new();
    steps.push(Step::SetAutoLogin(username.to_owned()));
    match crate::accounts::steam_id_to_account_id(steam_id) {
        Some(account_id) => {
            let m = chars_of(mode);
            let inv = chars_of("invisible");
            let state = if crate::text::chars_equal(&m, &inv) {
                "7"
            } else {
                "1"
            };
            proof {
                reveal_strlit("7");
                reveal_strlit("1");
            }
            let st = state.to_owned();
            proof {
                assert(st@ =~= mode_state(mode@));
            }
            steps.push(Step::PatchPersona(account_id, st));
        },
        None => {},
    }
    steps.push(Step::Launch(launch_steam(steam_exe, run_as_admin, launch_options)));
    Session::fresh(steps)
}

/// The phase and time waited after a sequence of events, from the start.
pub open spec fn run_state(n: nat, events: Seq<Event>) -> (Phase, u64)
    decreases events.len(),
{
    if events.len() == 0 {
        (Phase::Start, 0)
    } else {
        let (p, w) = run_state(n, events.drop_last());
        let t = transition(p, w, n, events.last());
        (t.0, t.1)
    }
}

/// The actions given for a sequence of events, one per event.
pub open spec fn run_actions(n: nat, events: Seq<Event>) -> Seq<Action>
    decreases events.len(),
{
    if events.len() == 0 {
        seq![]
    } else {
        let (p, w) = run_state(n, events.drop_last());
        run_actions(n, events.drop_last()).push(transition(p, w, n, events.last()).2)
    }
}

/// Total milliseconds of sleep that actions ask for.
pub open spec fn slept(actions: Seq<Action>) -> int
    decreases actions.len(),
{
    if actions.len() == 0 {
        0
    } else {
        slept(actions.drop_last()) + match actions.last() {
            Action::Sleep(d) => d as int,
            _ => 0,
        }
    }
}

proof fn lemma_run_waited(n: nat, events: Seq<Event>)
    ensures
        run_state(n, events).1 as int == slept(run_actions(n, events)),
        run_state(n, events).1 <= MAX_KILL_WAIT_MS,
        run_state(n, events).1 % KILL_POLL_INTERVAL_MS == 0,
        (run_state(n, events).0 is Start || run_state(n, events).0 is Checking || run_state(
            n,
            events,
        ).0 is Terminating) ==> run_state(n, events).1 == 0,
    decreases events.len(),
{
    if events.len() > 0 {
        lemma_run_waited(n, events.drop_last());
        let (p, w) = run_state(n, events.drop_last());
        let acts = run_actions(n, events);
        assert(acts.drop_last() =~= run_actions(n, events.drop_last()));
        assert((w + 500) % 500 == 0);
    }
}

/// A stop that times out does so after exactly the ceiling: when a
/// session's last action is the stop-timeout failure, the sleeps it asked
/// for add up to the ceiling, whatever the client reported (no step having
/// reported a stop timeout of its own).
pub proof fn lemma_stop_timeout_after_ceiling(n: nat, events: Seq<Event>)
    requires
        events.len() > 0,
        run_actions(n, events).last() == Action::Finish(Err(AppError::KillSteamTimeout)),
        !(events.last() matches Event::Performed(Err(AppError::KillSteamTimeout))),
    ensures
        slept(run_actions(n, events)) == MAX_KILL_WAIT_MS,
{
    lemma_run_waited(n, events.drop_last());
    let acts = run_actions(n, events);
    let (p, w) = run_state(n, events.drop_last());
    assert(acts.drop_last() =~= run_actions(n, events.drop_last()));
    assert(acts.last() == transition(p, w, n, events.last()).2);
    assert(p is Polling && w >= MAX_KILL_WAIT_MS);
}

} // verus!
