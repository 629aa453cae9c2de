use steam_switcher::error::AppError;
use steam_switcher::process::{
    add_account, forget_account, kill_steam, launch_steam, listing_names_steam,
    parse_launch_options, switch_account, switch_account_mode, tasklist_shows_steam, Action, Event,
    Step, KILL_POLL_INTERVAL_MS, MAX_KILL_WAIT_MS,
};

#[test]
fn stop_times_out_after_exactly_the_ceiling() {
    let mut s = kill_steam();
    let mut slept: u64 = 0;
    let mut a = s.step(Event::Begin);
    assert!(matches!(a, Action::CheckRunning));
    a = s.step(Event::Running(true));
    assert!(matches!(a, Action::Terminate));
    a = s.step(Event::Terminated);
    loop {
        match a {
            Action::Sleep(ms) => {
                slept += ms;
                a = s.step(Event::Slept);
                assert!(matches!(a, Action::CheckRunning));
                a = s.step(Event::Running(true));
            }
            Action::Finish(Err(AppError::KillSteamTimeout)) => break,
            _ => panic!("unexpected action"),
        }
    }
    assert_eq!(slept, MAX_KILL_WAIT_MS);
    assert_eq!(slept, 10 * KILL_POLL_INTERVAL_MS);
    assert!(matches!(s.step(Event::Running(true)), Action::Nothing));
}

#[test]
fn stop_when_not_running_succeeds_at_once() {
    let mut s = kill_steam();
    assert!(matches!(s.step(Event::Begin), Action::CheckRunning));
    assert!(matches!(s.step(Event::Running(false)), Action::Finish(Ok(()))));
}

#[test]
fn stop_succeeds_once_the_client_exits() {
    let mut s = kill_steam();
    s.step(Event::Begin);
    s.step(Event::Running(true));
    assert!(matches!(s.step(Event::Terminated), Action::Sleep(500)));
    assert!(matches!(s.step(Event::Slept), Action::CheckRunning));
    assert!(matches!(s.step(Event::Running(false)), Action::Finish(Ok(()))));
}

#[test]
fn switch_runs_steps_in_order_after_stop() {
    let mut s = switch_account("C:\\Steam\\steam.exe", "alice", false, "-silent  -tcp");
    assert_eq!(s.steps.len(), 2);
    match &s.steps[0] {
        Step::SetAutoLogin(u) => assert_eq!(u, "alice"),
        _ => panic!("expected the login target first"),
    }
    match &s.steps[1] {
        Step::Launch(p) => {
            assert_eq!(p.program, "C:\\Steam\\steam.exe");
            assert_eq!(p.args, vec!["-silent".to_string(), "-tcp".to_string()]);
        }
        _ => panic!("expected a launch"),
    }
    s.step(Event::Begin);
    assert!(matches!(s.step(Event::Running(false)), Action::Perform(0)));
    assert!(matches!(s.step(Event::Performed(Ok(()))), Action::Perform(1)));
    assert!(matches!(s.step(Event::Performed(Ok(()))), Action::Finish(Ok(()))));
}

#[test]
fn failed_step_ends_the_session() {
    let mut s = switch_account("steam.exe", "alice", false, "");
    s.step(Event::Begin);
    s.step(Event::Running(false));
    let a = s.step(Event::Performed(Err(AppError::RegistryWrite("denied".to_string()))));
    assert!(matches!(a, Action::Finish(Err(AppError::RegistryWrite(_)))));
}

#[test]
fn add_account_clears_login_target() {
    let s = add_account("steam.exe", false, "");
    assert!(matches!(s.steps[0], Step::ClearAutoLogin));
    assert!(matches!(s.steps[1], Step::Launch(_)));
}

#[test]
fn forget_account_removes_entry() {
    let s = forget_account("76561198000000001");
    assert_eq!(s.steps.len(), 1);
    match &s.steps[0] {
        Step::RemoveLoginEntry(id) => assert_eq!(id, "76561198000000001"),
        _ => panic!("expected a removal"),
    }
}

#[test]
fn switch_mode_patches_persona_state() {
    let s = switch_account_mode("steam.exe", "bob", "76561197960287930", "invisible", false, "");
    assert_eq!(s.steps.len(), 3);
    match &s.steps[1] {
        Step::PatchPersona(id, st) => {
            assert_eq!(*id, 22202);
            assert_eq!(st, "7");
        }
        _ => panic!("expected a persona patch"),
    }
    let s = switch_account_mode("steam.exe", "bob", "76561197960287930", "online", false, "");
    match &s.steps[1] {
        Step::PatchPersona(_, st) => assert_eq!(st, "1"),
        _ => panic!("expected a persona patch"),
    }
    let s = switch_account_mode("steam.exe", "bob", "not-an-id", "invisible", false, "");
    assert_eq!(s.steps.len(), 2);
    assert!(matches!(s.steps[1], Step::Launch(_)));
}

#[test]
fn launch_options_split_on_white_space() {
    assert_eq!(
        parse_launch_options("  -a\t-b \u{3000}c  "),
        vec!["-a".to_string(), "-b".to_string(), "c".to_string()]
    );
    assert!(parse_launch_options("   ").is_empty());
}

#[test]
fn elevated_launch_goes_through_powershell() {
    let p = launch_steam("C:\\Program Files\\Steam\\steam.exe", true, "-x it's");
    assert_eq!(p.program, "powershell");
    assert_eq!(
        p.args,
        vec![
            "-NoProfile".to_string(),
            "-WindowStyle".to_string(),
            "Hidden".to_string(),
            "-Command".to_string(),
            "Start-Process -FilePath 'C:\\Program Files\\Steam\\steam.exe' -Verb RunAs -ArgumentList @('-x', 'it''s')".to_string(),
        ]
    );
    let q = launch_steam("o'k.exe", true, "");
    assert_eq!(q.args[4], "Start-Process -FilePath 'o''k.exe' -Verb RunAs");
}

#[test]
fn tasklist_output_names_steam_in_any_case() {
    assert!(tasklist_shows_steam("Steam.EXE                     1234 Console"));
    assert!(tasklist_shows_steam("steam.exe 1"));
    assert!(!tasklist_shows_steam("INFO: No tasks are running which match the specified criteria."));
    assert!(!tasklist_shows_steam(""));
}

#[test]
fn lowered_listing_names_steam() {
    assert!(listing_names_steam("steam.exe 1234"));
    assert!(!listing_names_steam("steamwebhelper.exe"));
}
