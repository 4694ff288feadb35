use vstd::prelude::*;

verus! {

/// The mathematical value of a [`HostEntry`]: every string as its characters.
pub struct HostEntryView {
    pub name: Seq<char>,
    pub host: Seq<char>,
    pub port: Option<u16>,
    pub user: Seq<char>,
    pub identity_file: Option<Seq<char>>,
}

/// Port used when a block names none, or none that parses.
pub const DEFAULT_PORT: u16 = 22;

/// User name used when a block has no `User` directive.
pub open spec fn default_user() -> Seq<char> {
    "root"@
}

/// Identity file used when a block has no `IdentityFile` directive.
pub open spec fn default_identity_file() -> Seq<char> {
    "~/.ssh/id_rsa"@
}

/// The entry that a `Host` line with the given text opens: the text is both
/// its name and its host, and every other field holds its default.
pub open spec fn fresh_entry(name: Seq<char>) -> HostEntryView {
    HostEntryView {
        name,
        host: name,
        port: Some(DEFAULT_PORT),
        user: default_user(),
        identity_file: Some(default_identity_file()),
    }
}

/// One `Host` block of a configuration.
#[derive(Debug, Clone)]
pub struct HostEntry {
    pub name: String,
    pub host: String,
    pub port: Option<u16>,
    pub user: String,
    pub identity_file: Option<String>,
}

impl View for HostEntry {
    type V = HostEntryView;

    open spec fn view(&self) -> HostEntryView {
        HostEntryView {
            name: self.name@,
            host: self.host@,
            port: self.port,
            user: self.user@,
            identity_file: match self.identity_file {
                Some(f) => Some(f@),
                None => None,
            },
        }
    }
}

impl HostEntry {
    /// An entry for `host` with every other field at its default.
    pub fn new(host: String) -> (r: Self)
        ensures
            r@ == fresh_entry(host@),
    {
        HostEntry {
            name: host.clone(),
            host,
            port: Some(DEFAULT_PORT),
            user: String::from_str("root"),
            identity_file: Some(String::from_str("~/.ssh/id_rsa")),
        }
    }
}

} // verus!
