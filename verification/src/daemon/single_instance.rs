//! One daemon at a time: what stands in the lock file, and what a second daemon is
//! told.

use vstd::prelude::*;
use vstd::string::*;

use crate::numbers::{decimal, digit, digits_value, is_digit, parse_u32, parsed_u32, push_decimal, unsigned_digits};
use crate::text::{is_white, trim, trim_back, trim_front, trimmed};

verus! {

/// What the daemon with this process id writes to the lock file.
pub open spec fn lock_text(pid: u32) -> Seq<char> {
    decimal(pid as nat) + "\n"@
}

/// What the daemon with this process id writes to the lock file.
pub fn lock_contents(pid: u32) -> (r: String)
    ensures
        r@ == lock_text(pid),
{
    let mut out = String::new();
    push_decimal(&mut out, pid as u64);
    out.append("\n");
    assert(out@ =~= lock_text(pid));
    out
}

/// Who holds the lock, by what stands in the lock file: a process id, or nobody knows.
pub open spec fn holder_in(contents: Option<Seq<char>>) -> Seq<char> {
    match contents {
        Some(s) => match parsed_u32(trimmed(s)) {
            Some(pid) => decimal(pid as nat),
            None => "unknown"@,
        },
        None => "unknown"@,
    }
}

/// What a second daemon is told, by what stands in the lock file that the first one
/// holds.
pub fn already_running(contents: Option<&str>) -> (r: String)
    ensures
        r@ == refusal(
            match contents {
                Some(s) => Some(s@),
                None => None,
            },
        ),
{
    let mut out: String = "jmapsyncd daemon already running (pid=".to_owned();
    let pid: Option<u32> = match contents {
        Some(s) => {
            let t = trim(s);
            parse_u32(t.as_str())
        },
        None => None,
    };
    match pid {
        Some(p) => push_decimal(&mut out, p as u64),
        None => out.append("unknown"),
    }
    out.append("); refusing to start a second instance");
    out
}

/// What a daemon that wants the lock does next. `T` is a text.
#[derive(Debug)]
#[verifier::ext_equal]
pub enum LockStep<T = String> {
    /// The lock is taken: this replaces what stands in the file.
    Hold(T),
    /// Another daemon holds the lock: this is what the user reads, and the file stays as
    /// it is.
    Refuse(T),
}

impl View for LockStep<String> {
    type V = LockStep<Seq<char>>;

    open spec fn view(&self) -> Self::V {
        match *self {
            LockStep::Hold(s) => LockStep::Hold(s@),
            LockStep::Refuse(s) => LockStep::Refuse(s@),
        }
    }
}

/// What a second daemon is told.
pub open spec fn refusal(contents: Option<Seq<char>>) -> Seq<char> {
    "jmapsyncd daemon already running (pid="@ + holder_in(contents)
        + "); refusing to start a second instance"@
}

/// What the daemon with this process id does, by whether it was given the lock and by
/// what stands in the file.
pub open spec fn lock_reaction(taken: bool, pid: u32, contents: Option<Seq<char>>) -> LockStep<
    Seq<char>,
> {
    if taken {
        LockStep::Hold(lock_text(pid))
    } else {
        LockStep::Refuse(refusal(contents))
    }
}

/// What the daemon with this process id does, by whether it was given the lock and by
/// what stands in the file, as far as that can be read.
pub fn acquire_step(taken: bool, pid: u32, contents: Option<&str>) -> (r: LockStep)
    ensures
        r@ == lock_reaction(
            taken,
            pid,
            match contents {
                Some(s) => Some(s@),
                None => None,
            },
        ),
{
    if taken {
        LockStep::Hold(lock_contents(pid))
    } else {
        LockStep::Refuse(already_running(contents))
    }
}

/// The lock file: whether an open file holds the lock, and what stands in it.
#[verifier::ext_equal]
pub struct LockFile {
    pub held: bool,
    pub contents: Seq<char>,
}

/// The lock file after the daemon with this process id has asked for the lock, which is
/// given to one that asks while nobody holds it.
pub open spec fn after_request(f: LockFile, pid: u32) -> LockFile {
    match lock_reaction(!f.held, pid, Some(f.contents)) {
        LockStep::Hold(s) => LockFile { held: true, contents: s },
        LockStep::Refuse(_) => f,
    }
}

/// The lock file after its holder has closed it or is gone.
pub open spec fn after_release(f: LockFile) -> LockFile {
    LockFile { held: false, ..f }
}

/// While one daemon holds the lock, a second is refused, is told the first one's process
/// id, and leaves the file as it is. Once the first has let go, the second gets the lock
/// and the file holds its process id.
pub proof fn law_one_daemon_at_a_time(f: LockFile, first: u32, second: u32)
    requires
        !f.held,
    ensures
        ({
            let one = after_request(f, first);
            &&& one == (LockFile { held: true, contents: lock_text(first) })
            &&& lock_reaction(!one.held, second, Some(one.contents)) == LockStep::Refuse(
                "jmapsyncd daemon already running (pid="@ + decimal(first as nat)
                    + "); refusing to start a second instance"@,
            )
            &&& after_request(one, second) == one
            &&& lock_reaction(
                !after_release(one).held,
                second,
                Some(after_release(one).contents),
            ) == LockStep::Hold(lock_text(second))
            &&& after_request(after_release(one), second) == (LockFile {
                held: true,
                contents: lock_text(second),
            })
        }),
{
    law_holder_is_named(first);
}

proof fn lemma_decimal_reads_back(n: nat)
    ensures
        decimal(n).len() > 0,
        digits_value(decimal(n)) == n,
        forall|i: int| 0 <= i < decimal(n).len() ==> is_digit(#[trigger] decimal(n)[i]),
    decreases n,
{
    assert forall|d: nat| d < 10 implies #[trigger] digit(d) as int == 48 + d && is_digit(digit(d)) by {}
    let s = decimal(n);
    if n < 10 {
        assert(s.drop_last() =~= Seq::empty());
        assert(digit(n) as int == 48 + n);
        assert(digits_value(s.drop_last()) == 0);
    } else {
        lemma_decimal_reads_back(n / 10);
        assert(s.drop_last() =~= decimal(n / 10));
        assert(digit(n % 10) as int == 48 + n % 10);
        assert forall|i: int| 0 <= i < s.len() implies is_digit(#[trigger] s[i]) by {
            if i < decimal(n / 10).len() {
                assert(s[i] == decimal(n / 10)[i]);
            }
        }
    }
}

/// A second daemon is told the process id that the first one wrote.
pub proof fn law_holder_is_named(pid: u32)
    ensures
        holder_in(Some(lock_text(pid))) == decimal(pid as nat),
{
    reveal_strlit("\n");
    let d = decimal(pid as nat);
    let s = lock_text(pid);
    lemma_decimal_reads_back(pid as nat);
    assert(is_digit(d[0]));
    assert(s[0] == d[0]);
    assert(!is_white(s[0]));
    assert(trim_front(s) == s);
    assert(s.last() == '\n');
    assert(s.drop_last() =~= d);
    assert(is_digit(d[d.len() - 1]));
    assert(!is_white(d.last()));
    assert(trim_back(d) == d);
    assert(trimmed(s) == d);
    assert(unsigned_digits(d) == d);
}

/// A daemon that is given the lock takes it, whatever stands in the file, and one that is not
/// is refused, whatever stands there. What it is told names the holder if the file does, and
/// says that the holder is not known if it does not.
pub proof fn law_lock_decides(taken: bool, pid: u32, contents: Option<&str>, r: LockStep)
    requires
        call_ensures(acquire_step, (taken, pid, contents), r),
    ensures
        r is Hold <==> taken,
        r is Refuse <==> !taken,
        r is Hold ==> r->Hold_0@ == decimal(pid as nat) + "\n"@,
        r is Refuse && contents is Some && parsed_u32(trimmed(contents->0@)) is Some
            ==> r->Refuse_0@ == "jmapsyncd daemon already running (pid="@ + decimal(
            parsed_u32(trimmed(contents->0@))->0 as nat,
        ) + "); refusing to start a second instance"@,
        r is Refuse && (contents is None || parsed_u32(trimmed(contents->0@)) is None)
            ==> r->Refuse_0@ == "jmapsyncd daemon already running (pid="@ + "unknown"@
            + "); refusing to start a second instance"@,
{
}

} // verus!
