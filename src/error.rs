//! The failures that the switcher reports, each with a short message.
use vstd::prelude::*;

verus! {

/// What went wrong, with the underlying detail where there is one.
pub enum AppError {
    RegistryOpen(String),
    RegistryRead(String),
    RegistryWrite(String),
    FileRead(String),
    ProcessStart(String),
    InvalidSteamId,
    InvalidAppId,
    UserdataNotFound(String),
    PathResolve(String),
    FolderOpen(String),
    KillSteamTimeout,
}

/// The message shown to the user for each kind of failure.
pub open spec fn message_of(e: AppError) -> Seq<char> {
    match e {
        AppError::RegistryOpen(_) => "Could not locate Steam installation"@,
        AppError::RegistryRead(_) => "Could not read Steam configuration"@,
        AppError::RegistryWrite(_) => "Could not write Steam configuration"@,
        AppError::FileRead(_) => "Could not read Steam login data"@,
        AppError::ProcessStart(_) => "Could not start Steam"@,
        AppError::InvalidSteamId => "Invalid SteamID64"@,
        AppError::InvalidAppId => "Invalid app id"@,
        AppError::UserdataNotFound(_) => "User data folder not found"@,
        AppError::PathResolve(_) => "Could not resolve path"@,
        AppError::FolderOpen(_) => "Could not open folder"@,
        AppError::KillSteamTimeout => "Steam is still running"@,
    }
}

impl AppError {
    /// The message shown to the user.
    pub fn message(&self) -> (r: String)
        ensures
            r@ == message_of(*self),
    {
        let s: &str = match self {
            AppError::RegistryOpen(_) => "Could not locate Steam installation",
            AppError::RegistryRead(_) => "Could not read Steam configuration",
            AppError::RegistryWrite(_) => "Could not write Steam configuration",
            AppError::FileRead(_) => "Could not read Steam login data",
            AppError::ProcessStart(_) => "Could not start Steam",
            AppError::InvalidSteamId => "Invalid SteamID64",
            AppError::InvalidAppId => "Invalid app id",
            AppError::UserdataNotFound(_) => "User data folder not found",
            AppError::PathResolve(_) => "Could not resolve path",
            AppError::FolderOpen(_) => "Could not open folder",
            AppError::KillSteamTimeout => "Steam is still running",
        };
        s.to_owned()
    }

    pub fn is_stop_timeout(&self) -> (r: bool)
        ensures
            r == (*self is KillSteamTimeout),
    {
        match self {
            AppError::KillSteamTimeout => true,
            _ => false,
        }
    }

    pub fn is_not_found(&self) -> (r: bool)
        ensures
            r == (*self is UserdataNotFound),
    {
        match self {
            AppError::UserdataNotFound(_) => true,
            _ => false,
        }
    }
}

} // verus!
