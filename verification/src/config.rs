//! The parts of the configuration that decisions are made on.

use vstd::prelude::*;

verus! {

/// One configuration file.
#[derive(Debug)]
pub struct Config {
    pub accounts: Vec<Account>,
}

/// One account.
#[derive(Debug)]
pub struct Account {
    pub name: String,
    pub enabled: bool,
    pub jmap_host: String,
    pub token: TokenSource,
    pub timeout_secs: u64,
    /// How often to sync while the server pushes nothing; zero for never.
    pub poll_interval_secs: u64,
    pub mail: Option<MailConfig>,
    pub submit: Option<SubmitConfig>,
}

/// Where an account's token comes from.
#[derive(Debug)]
pub enum TokenSource {
    Inline { jmap_token: String },
    File { jmap_token_file: String },
    Cmd { jmap_token_cmd: String },
}

/// The receiving side of an account.
#[derive(Debug)]
pub struct MailConfig {
    /// The root of the Maildir tree.
    pub path: String,
    pub subscribed_only: bool,
    /// Glob patterns on mailbox paths, in place of `subscribed_only`.
    pub box_filter: Option<Vec<String>>,
    pub box_mapping: Vec<BoxMapping>,
    pub post_sync_hook: Option<String>,
    pub watch_maildir: bool,
}

/// A mailbox that goes by another name on disk.
#[derive(Debug)]
pub struct BoxMapping {
    pub remote: String,
    pub local: String,
}

/// The sending side of an account.
#[derive(Debug)]
pub struct SubmitConfig {
    pub from_address: String,
    pub identity_id: Option<String>,
    pub scheduled_folder: ScheduledFolder,
    pub retry_base_secs: u64,
    pub retry_cap_secs: u64,
}

/// Where a message with a sending time is filed once it has been handed over.
#[derive(Debug)]
pub enum ScheduledFolder {
    /// In the mailbox named `Scheduled`, if there is one.
    Auto,
    /// With the other sent mail.
    Sent,
    /// In the mailbox of this name, if there is one.
    Named(String),
}

} // verus!
