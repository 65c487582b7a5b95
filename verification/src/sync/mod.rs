//! Bringing the local tree in line with the server.

use vstd::prelude::*;
use vstd::string::*;

use crate::config::Account;
use crate::outside::{debug_str, debug_text};
use crate::sync::email::EmailSyncStats;

pub mod effects;
pub mod email;
pub mod mailbox;
pub mod maildir;
pub mod mirror;
pub mod rows;
pub mod target;

verus! {

/// What one sync of an account did.
#[derive(Debug, PartialEq, Eq, Structural)]
pub struct SyncStats {
    pub email: EmailSyncStats,
    pub elapsed_ms: u64,
}

impl Default for SyncStats {
    fn default() -> (r: Self)
        ensures
            r.email.created == 0,
            r.email.updated == 0,
            r.email.moved == 0,
            r.email.deleted == 0,
            r.email.bytes_downloaded == 0,
            r.elapsed_ms == 0,
    {
        SyncStats { email: EmailSyncStats::default(), elapsed_ms: 0 }
    }
}

/// The mail root that an account is synced to; an error, with what the user reads,
/// for an account that has none.
pub fn mail_root(acct: &Account) -> (r: Result<&String, String>)
    ensures
        match acct.mail {
            Some(m) => r matches Ok(p) && p@ == m.path@,
            None => r matches Err(e) && e@ == "account "@ + debug_text(acct.name@)
                + " has no [accounts.mail] section; nothing to sync"@,
        },
{
    match &acct.mail {
        Some(m) => Ok(&m.path),
        None => {
            let mut e: String = "account ".to_owned();
            let shown = debug_str(acct.name.as_str());
            e.append(shown.as_str());
            e.append(" has no [accounts.mail] section; nothing to sync");
            Err(e)
        },
    }
}

/// The command to run after a sync: the account's hook, if the sync changed
/// something and was no dry run.
pub fn hook_after_sync<'a>(acct: &'a Account, stats: &EmailSyncStats, dry_run: bool) -> (r: Option<
    &'a String,
>)
    ensures
        match acct.mail {
            Some(m) => if !dry_run && stats.created + stats.updated + stats.moved + stats.deleted
                > 0 {
                match m.post_sync_hook {
                    Some(hook) => r matches Some(h) && *h == hook,
                    None => r is None,
                }
            } else {
                r is None
            },
            None => r is None,
        },
{
    match &acct.mail {
        Some(m) => if !dry_run && stats.changed() {
            match &m.post_sync_hook {
                Some(hook) => Some(hook),
                None => None,
            }
        } else {
            None
        },
        None => None,
    }
}

/// The hook is run exactly if the account has one, the sync changed something and it was no
/// dry run; what it runs is the account's own command.
pub proof fn law_hook_runs_after_changes(
    acct: &Account,
    stats: &EmailSyncStats,
    dry_run: bool,
    r: Option<&String>,
)
    requires
        call_ensures(hook_after_sync, (acct, stats, dry_run), r),
    ensures
        r is Some <==> acct.mail is Some && acct.mail->0.post_sync_hook is Some && !dry_run && (
        stats.created > 0 || stats.updated > 0 || stats.moved > 0 || stats.deleted > 0),
        r is Some ==> *r->0 == acct.mail->0.post_sync_hook->0,
{
}

/// An account is synced to its own mail root, and only an account that receives mail has
/// one.
pub proof fn law_account_is_synced_to_its_root(acct: &Account, r: Result<&String, String>)
    requires
        call_ensures(mail_root, (acct,), r),
    ensures
        r is Ok <==> acct.mail is Some,
        r is Ok ==> r->Ok_0@ == acct.mail->0.path@,
{
}

} // verus!
