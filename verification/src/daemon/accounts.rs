//! Which accounts are run, and what is said in the end.

use vstd::prelude::*;
use vstd::string::*;

use crate::config::{Account, Config};
use crate::numbers::{decimal, push_decimal};
use crate::outside::{debug_str, debug_text};
use crate::text::{has_prefix, has_suffix, str_eq};

verus! {

/// The account is switched on and, where a name is asked for, has that name.
pub open spec fn is_selected(acct: Account, filter: Option<Seq<char>>) -> bool {
    acct.enabled && match filter {
        Some(name) => acct.name@ == name,
        None => true,
    }
}

/// The places of those of the first `n` accounts that are asked for.
pub open spec fn selected(accounts: Seq<Account>, filter: Option<Seq<char>>, n: int) -> Seq<int>
    decreases n,
{
    if n <= 0 {
        Seq::empty()
    } else if is_selected(accounts[n - 1], filter) {
        selected(accounts, filter, n - 1).push(n - 1)
    } else {
        selected(accounts, filter, n - 1)
    }
}

/// The view of an optional reference to a text.
pub open spec fn filter_view(filter: Option<&str>) -> Option<Seq<char>> {
    match filter {
        Some(s) => Some(s@),
        None => None,
    }
}

/// The places as numbers.
pub open spec fn places(v: Seq<usize>) -> Seq<int> {
    v.map_values(|i: usize| i as int)
}

/// The places of the accounts that are asked for: those that are switched on, or the
/// ones among them that have the given name. One without a mail directory is among
/// them; there is nothing to sync it to.
pub fn selected_accounts(config: &Config, filter: Option<&str>) -> (r: Vec<usize>)
    ensures
        places(r@) == selected(
            config.accounts@,
            filter_view(filter),
            config.accounts@.len() as int,
        ),
{
    let mut out: Vec<usize> = Vec::new();
    let mut i: usize = 0;
    assert(places(out@) =~= Seq::empty());
    while i < config.accounts.len()
        invariant
            i <= config.accounts@.len(),
            places(out@) == selected(config.accounts@, filter_view(filter), i as int),
        decreases config.accounts@.len() - i,
    {
        let acct = &config.accounts[i];
        let asked_for = match filter {
            Some(name) => str_eq(acct.name.as_str(), name),
            None => true,
        };
        if acct.enabled && asked_for {
            let ghost before = places(out@);
            out.push(i);
            assert(places(out@) =~= before.push(i as int));
        }
        i += 1;
    }
    out
}

/// The file that holds what is known of an account.
pub fn database_name(account: &str) -> (r: String)
    ensures
        r@ == account@ + ".sqlite"@,
{
    let mut out: String = account.to_owned();
    out.append(".sqlite");
    out
}

/// Why a run counts as failed. `T` is a text.
#[derive(Debug)]
#[verifier::ext_equal]
pub enum RunError<T = String> {
    /// The daemon has no account to run.
    NothingToRun,
    /// No account that is switched on has the name that was asked for.
    NoSuchAccount(T),
    /// No account is switched on.
    NothingToSync,
    /// So many accounts could not be synced.
    SyncsFailed(u64),
}

impl View for RunError<String> {
    type V = RunError<Seq<char>>;

    open spec fn view(&self) -> Self::V {
        match *self {
            RunError::NothingToRun => RunError::NothingToRun,
            RunError::NoSuchAccount(n) => RunError::NoSuchAccount(n@),
            RunError::NothingToSync => RunError::NothingToSync,
            RunError::SyncsFailed(n) => RunError::SyncsFailed(n),
        }
    }
}

/// What the user reads.
pub open spec fn run_error_text(e: RunError<Seq<char>>) -> Seq<char> {
    match e {
        RunError::NothingToRun => "no accounts to run; enable at least one account in config"@,
        RunError::NoSuchAccount(n) => "no enabled account named "@ + debug_text(n),
        RunError::NothingToSync => "no enabled accounts to sync"@,
        RunError::SyncsFailed(n) => decimal(n as nat) + " account sync(s) failed"@,
    }
}

impl RunError<String> {
    /// What the user reads.
    pub fn message(&self) -> (r: String)
        ensures
            r@ == run_error_text(self@),
    {
        match self {
            RunError::NothingToRun =>
                "no accounts to run; enable at least one account in config".to_owned(),
            RunError::NoSuchAccount(n) => {
                let mut out: String = "no enabled account named ".to_owned();
                let shown = debug_str(n.as_str());
                out.append(shown.as_str());
                out
            },
            RunError::NothingToSync => "no enabled accounts to sync".to_owned(),
            RunError::SyncsFailed(n) => {
                let mut out = String::new();
                push_decimal(&mut out, *n);
                out.append(" account sync(s) failed");
                assert(out@ =~= decimal(*n as nat) + " account sync(s) failed"@);
                out
            },
        }
    }
}

/// Whether the daemon goes on once it has started what it could.
pub fn daemon_verdict(started: u64) -> (r: Result<(), RunError>)
    ensures
        if started == 0 {
            r matches Err(e) && e@ == RunError::<Seq<char>>::NothingToRun
        } else {
            r is Ok
        },
{
    if started == 0 {
        Err(RunError::NothingToRun)
    } else {
        Ok(())
    }
}

/// How a single run over the accounts ends, by how many were asked for and how many of
/// them could not be synced. Asking for an account that is not there comes first.
pub fn sync_verdict(filter: Option<&str>, matched: u64, errors: u64) -> (r: Result<(), RunError>)
    ensures
        if matched == 0 {
            r matches Err(e) && e@ == (match filter_view(filter) {
                Some(name) => RunError::NoSuchAccount(name),
                None => RunError::NothingToSync,
            })
        } else if errors > 0 {
            r matches Err(e) && e@ == RunError::<Seq<char>>::SyncsFailed(errors)
        } else {
            r is Ok
        },
{
    if matched == 0 {
        return match filter {
            Some(name) => Err(RunError::NoSuchAccount(name.to_owned())),
            None => Err(RunError::NothingToSync),
        };
    }
    if errors > 0 {
        return Err(RunError::SyncsFailed(errors));
    }
    Ok(())
}

/// An account is run exactly if it is switched on and, where a name is asked for, has that
/// name; each once, in the order of the configuration.
pub proof fn law_accounts_are_those_asked_for(config: &Config, filter: Option<&str>, r: Vec<usize>)
    requires
        call_ensures(selected_accounts, (config, filter), r),
    ensures
        forall|k: int|
            0 <= k < config.accounts@.len() ==> ((#[trigger] config.accounts@[k]).enabled && (
            filter is Some ==> config.accounts@[k].name@ == filter->0@) <==> exists|i: int|
                0 <= i < r@.len() && #[trigger] r@[i] == k),
        forall|i: int| 0 <= i < r@.len() ==> #[trigger] r@[i] < config.accounts@.len(),
        forall|i: int, j: int| 0 <= i < j < r@.len() ==> #[trigger] r@[i] < #[trigger] r@[j],
{
    let accounts = config.accounts@;
    let n = accounts.len() as int;
    let s = selected(accounts, filter_view(filter), n);
    lemma_selected(accounts, filter_view(filter), n);
    assert(places(r@) == s);
    assert(s.len() == r@.len());
    assert forall|i: int| 0 <= i < r@.len() implies #[trigger] r@[i] == s[i] by {
        assert(places(r@)[i] == r@[i]);
    }
    assert forall|k: int| 0 <= k < n implies ((#[trigger] accounts[k]).enabled && (filter is Some
        ==> accounts[k].name@ == filter->0@) <==> exists|i: int|
        0 <= i < r@.len() && #[trigger] r@[i] == k) by {
        assert(is_selected(accounts[k], filter_view(filter)) <==> s.contains(k));
        if s.contains(k) {
            let i = choose|i: int| 0 <= i < s.len() && s[i] == k;
            assert(r@[i] == k);
        }
        if exists|i: int| 0 <= i < r@.len() && #[trigger] r@[i] == k {
            let i = choose|i: int| 0 <= i < r@.len() && #[trigger] r@[i] == k;
            assert(s[i] == k);
        }
    }
}

proof fn lemma_selected(accounts: Seq<Account>, filter: Option<Seq<char>>, n: int)
    requires
        0 <= n <= accounts.len(),
    ensures
        forall|k: int|
            0 <= k < n ==> (is_selected(#[trigger] accounts[k], filter) <==> selected(
                accounts,
                filter,
                n,
            ).contains(k)),
        forall|i: int|
            0 <= i < selected(accounts, filter, n).len() ==> 0 <= #[trigger] selected(
                accounts,
                filter,
                n,
            )[i] < n,
        forall|i: int, j: int|
            0 <= i < j < selected(accounts, filter, n).len() ==> #[trigger] selected(
                accounts,
                filter,
                n,
            )[i] < #[trigger] selected(accounts, filter, n)[j],
    decreases n,
{
    if n > 0 {
        lemma_selected(accounts, filter, n - 1);
        let before = selected(accounts, filter, n - 1);
        let s = selected(accounts, filter, n);
        assert forall|k: int| 0 <= k < n implies (is_selected(#[trigger] accounts[k], filter)
            <==> s.contains(k)) by {
            if is_selected(accounts[n - 1], filter) {
                crate::search::lemma_push_contains(before, n - 1, k);
            }
            if k == n - 1 && before.contains(k) {
                let i = choose|i: int| 0 <= i < before.len() && before[i] == k;
                assert(before[i] < n - 1);
            }
        }
    }
}

/// The daemon goes on exactly if it runs something.
pub proof fn law_daemon_needs_something_to_run(started: u64, r: Result<(), RunError>)
    requires
        call_ensures(daemon_verdict, (started,), r),
    ensures
        r is Ok <==> started > 0,
        r is Err ==> r->Err_0 is NothingToRun,
{
}

/// A run succeeds exactly if there was something to sync and nothing failed. If nothing was
/// to be synced, that is said, with the name if one was asked for; otherwise how many failed
/// is.
pub proof fn law_run_succeeds_without_failures(
    filter: Option<&str>,
    matched: u64,
    errors: u64,
    r: Result<(), RunError>,
)
    requires
        call_ensures(sync_verdict, (filter, matched, errors), r),
    ensures
        r is Ok <==> matched > 0 && errors == 0,
        matched == 0 && filter is Some ==> r is Err && r->Err_0@ == RunError::NoSuchAccount(
            filter->0@,
        ),
        matched == 0 && filter is None ==> r is Err && r->Err_0 is NothingToSync,
        matched > 0 && errors > 0 ==> r is Err && r->Err_0@ == RunError::<Seq<char>>::SyncsFailed(
            errors,
        ),
{
}

/// Two accounts have two files.
pub proof fn law_accounts_have_files_of_their_own(one: &str, other: &str, a: String, b: String)
    requires
        call_ensures(database_name, (one,), a),
        call_ensures(database_name, (other,), b),
    ensures
        a@ == b@ <==> one@ == other@,
{
    let ending = ".sqlite"@;
    assert(a@ == one@ + ending);
    assert(b@ == other@ + ending);
    if a@ == b@ {
        assert(one@.len() + ending.len() == other@.len() + ending.len());
        assert(a@.take(one@.len() as int) =~= one@);
        assert(b@.take(one@.len() as int) =~= other@);
    }
}

/// The user reads which account there is not, and how many could not be synced.
pub proof fn law_run_error_says_what_failed(e: RunError<Seq<char>>)
    ensures
        e is NoSuchAccount ==> has_suffix(run_error_text(e), debug_text(e->NoSuchAccount_0)),
        e is SyncsFailed ==> has_prefix(run_error_text(e), decimal(e->SyncsFailed_0 as nat)),
{
    let t = run_error_text(e);
    match e {
        RunError::NoSuchAccount(n) => {
            let tail = debug_text(n);
            assert(t.subrange(t.len() - tail.len(), t.len() as int) =~= tail);
        },
        RunError::SyncsFailed(n) => {
            let head = decimal(n as nat);
            assert(t.subrange(0, head.len() as int) =~= head);
        },
        _ => {},
    }
}

} // verus!
