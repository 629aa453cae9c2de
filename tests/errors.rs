use steam_switcher::error::AppError;

#[test]
fn each_error_has_its_message() {
    let cases = vec![
        (AppError::RegistryOpen("x".into()), "Could not locate Steam installation"),
        (AppError::RegistryRead("x".into()), "Could not read Steam configuration"),
        (AppError::RegistryWrite("x".into()), "Could not write Steam configuration"),
        (AppError::FileRead("x".into()), "Could not read Steam login data"),
        (AppError::ProcessStart("x".into()), "Could not start Steam"),
        (AppError::InvalidSteamId, "Invalid SteamID64"),
        (AppError::InvalidAppId, "Invalid app id"),
        (AppError::UserdataNotFound("x".into()), "User data folder not found"),
        (AppError::PathResolve("x".into()), "Could not resolve path"),
        (AppError::FolderOpen("x".into()), "Could not open folder"),
        (AppError::KillSteamTimeout, "Steam is still running"),
    ];
    for (e, m) in cases {
        assert_eq!(e.message(), m);
    }
    assert!(AppError::KillSteamTimeout.is_stop_timeout());
    assert!(AppError::UserdataNotFound("p".into()).is_not_found());
    assert!(!AppError::InvalidSteamId.is_not_found());
}
