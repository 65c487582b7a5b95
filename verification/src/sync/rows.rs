//! The rows of the local database, as decisions are made on them. `T` is a text.

use vstd::prelude::*;
use vstd::string::*;

use crate::text::{opt_clone, opt_view};

verus! {

/// A mailbox that has been materialised.
#[derive(Debug)]
#[verifier::ext_equal]
pub struct MailboxRow<T = String> {
    pub id: T,
    pub jmap_id: Option<T>,
    pub name: T,
    pub parent_id: Option<T>,
    pub role: Option<T>,
    pub sort_order: Option<i64>,
    /// The directory below the mail root.
    pub path: T,
    pub jmap_state: Option<T>,
}

impl View for MailboxRow<String> {
    type V = MailboxRow<Seq<char>>;

    open spec fn view(&self) -> Self::V {
        MailboxRow {
            id: self.id@,
            jmap_id: opt_view(self.jmap_id),
            name: self.name@,
            parent_id: opt_view(self.parent_id),
            role: opt_view(self.role),
            sort_order: self.sort_order,
            path: self.path@,
            jmap_state: opt_view(self.jmap_state),
        }
    }
}

impl Clone for MailboxRow<String> {
    fn clone(&self) -> (r: Self)
        ensures
            r@ == self@,
    {
        MailboxRow {
            id: self.id.clone(),
            jmap_id: opt_clone(&self.jmap_id),
            name: self.name.clone(),
            parent_id: opt_clone(&self.parent_id),
            role: opt_clone(&self.role),
            sort_order: self.sort_order,
            path: self.path.clone(),
            jmap_state: opt_clone(&self.jmap_state),
        }
    }
}

/// A message that has been downloaded.
#[derive(Debug)]
#[verifier::ext_equal]
pub struct EmailRow<T = String> {
    pub id: T,
    pub jmap_id: Option<T>,
    pub message_id: Option<T>,
    /// The file below the mail root.
    pub file_path: T,
    /// The mailbox in whose directory the file stands.
    pub primary_mailbox: T,
    pub keywords: Option<T>,
    pub jmap_state: Option<T>,
    pub size: Option<i64>,
    pub last_sync: Option<i64>,
    pub is_dirty: bool,
}

impl View for EmailRow<String> {
    type V = EmailRow<Seq<char>>;

    open spec fn view(&self) -> Self::V {
        EmailRow {
            id: self.id@,
            jmap_id: opt_view(self.jmap_id),
            message_id: opt_view(self.message_id),
            file_path: self.file_path@,
            primary_mailbox: self.primary_mailbox@,
            keywords: opt_view(self.keywords),
            jmap_state: opt_view(self.jmap_state),
            size: self.size,
            last_sync: self.last_sync,
            is_dirty: self.is_dirty,
        }
    }
}

impl Clone for EmailRow<String> {
    fn clone(&self) -> (r: Self)
        ensures
            r@ == self@,
    {
        EmailRow {
            id: self.id.clone(),
            jmap_id: opt_clone(&self.jmap_id),
            message_id: opt_clone(&self.message_id),
            file_path: self.file_path.clone(),
            primary_mailbox: self.primary_mailbox.clone(),
            keywords: opt_clone(&self.keywords),
            jmap_state: opt_clone(&self.jmap_state),
            size: self.size,
            last_sync: self.last_sync,
            is_dirty: self.is_dirty,
        }
    }
}

/// That a message is in a mailbox.
#[derive(Debug)]
#[verifier::ext_equal]
pub struct EmailMailboxRow<T = String> {
    pub email_id: T,
    pub mailbox_id: T,
    /// Whether the message's file stands in this mailbox.
    pub is_primary: bool,
}

impl View for EmailMailboxRow<String> {
    type V = EmailMailboxRow<Seq<char>>;

    open spec fn view(&self) -> Self::V {
        EmailMailboxRow {
            email_id: self.email_id@,
            mailbox_id: self.mailbox_id@,
            is_primary: self.is_primary,
        }
    }
}

} // verus!
