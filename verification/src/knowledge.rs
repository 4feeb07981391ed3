//! Plain-language descriptions for processes that appear on every Windows
//! machine.
//!
//! The point is not to be a threat database. It is to stop a reader from
//! spending attention on `csrss.exe` or `Memory Compression` when what they
//! actually want to look at is the one unrecognised binary further down the
//! list. Entries are limited to components shipped by Windows itself, because
//! third-party descriptions go stale and a confidently wrong description is
//! worse than none.

use crate::text::{ascii_lowercase_chars, ascii_lowered, chars_equal, chars_of, trim_both, trimmed, Trim};
use vstd::prelude::*;

verus! {

/// The description table: process name (matched ignoring ASCII case) and
/// what it is.
pub open spec fn knowledge_table() -> Seq<(Seq<char>, Seq<char>)> {
    seq![
        ("svchost.exe"@, "Generic host for Windows services that run from DLLs. Dozens of copies are normal; each hosts a different set of services."@),
        ("explorer.exe"@, "Provides the desktop, taskbar, and File Explorer windows."@),
        ("csrss.exe"@, "Client/Server Runtime Subsystem. Handles console windows and thread bookkeeping. Cannot be ended."@),
        ("wininit.exe"@, "Windows start-up application. Runs background initialisation for the session."@),
        ("smss.exe"@, "Session Manager Subsystem. Starts user sessions and sets up system environment variables."@),
        ("lsass.exe"@, "Local Security Authority Subsystem Service. Enforces security policy and handles logons."@),
        ("services.exe"@, "Service Control Manager. Starts, stops, and tracks the machine's Windows services."@),
        ("winlogon.exe"@, "Handles interactive logon and logoff, the secure attention sequence, and screen locking."@),
        ("conhost.exe"@, "Console Window Host. Draws the window for Command Prompt and other console programs."@),
        ("spoolsv.exe"@, "Print Spooler. Queues printing and faxing jobs."@),
        ("dwm.exe"@, "Desktop Window Manager. Composites the on-screen image using the GPU."@),
        ("taskhostw.exe"@, "Host for Windows scheduled tasks that run as DLLs rather than their own executable."@),
        ("sihost.exe"@, "Shell Infrastructure Host. Runs the Start menu, action centre, and parts of the taskbar."@),
        ("runtimebroker.exe"@, "Checks that Store apps stay within the permissions they declared."@),
        ("searchindexer.exe"@, "Windows Search Indexer. Builds the index behind Start-menu and File Explorer search."@),
        ("fontdrvhost.exe"@, "Isolated font driver host. Parses font files away from the kernel."@),
        ("registry"@, "Kernel process holding the Windows registry in memory. Has no executable on disk."@),
        ("memory compression"@, "Kernel process that compresses memory pages instead of paging them to disk. Its memory use is expected to be large."@),
        ("system"@, "The kernel itself and its worker threads. Has no executable on disk."@),
        ("system idle process"@, "Not a real program. Its CPU share is the percentage of time the processor is doing nothing."@)
    ]
}

/// The entries of the description table, in order.
pub fn knowledge_entries() -> (r: Vec<(&'static str, &'static str)>)
    ensures
        r@.map_values(|e: (&str, &str)| (e.0@, e.1@)) == knowledge_table(),
{
    let r = vec![
        ("svchost.exe", "Generic host for Windows services that run from DLLs. Dozens of copies are normal; each hosts a different set of services."),
        ("explorer.exe", "Provides the desktop, taskbar, and File Explorer windows."),
        ("csrss.exe", "Client/Server Runtime Subsystem. Handles console windows and thread bookkeeping. Cannot be ended."),
        ("wininit.exe", "Windows start-up application. Runs background initialisation for the session."),
        ("smss.exe", "Session Manager Subsystem. Starts user sessions and sets up system environment variables."),
        ("lsass.exe", "Local Security Authority Subsystem Service. Enforces security policy and handles logons."),
        ("services.exe", "Service Control Manager. Starts, stops, and tracks the machine's Windows services."),
        ("winlogon.exe", "Handles interactive logon and logoff, the secure attention sequence, and screen locking."),
        ("conhost.exe", "Console Window Host. Draws the window for Command Prompt and other console programs."),
        ("spoolsv.exe", "Print Spooler. Queues printing and faxing jobs."),
        ("dwm.exe", "Desktop Window Manager. Composites the on-screen image using the GPU."),
        ("taskhostw.exe", "Host for Windows scheduled tasks that run as DLLs rather than their own executable."),
        ("sihost.exe", "Shell Infrastructure Host. Runs the Start menu, action centre, and parts of the taskbar."),
        ("runtimebroker.exe", "Checks that Store apps stay within the permissions they declared."),
        ("searchindexer.exe", "Windows Search Indexer. Builds the index behind Start-menu and File Explorer search."),
        ("fontdrvhost.exe", "Isolated font driver host. Parses font files away from the kernel."),
        ("registry", "Kernel process holding the Windows registry in memory. Has no executable on disk."),
        ("memory compression", "Kernel process that compresses memory pages instead of paging them to disk. Its memory use is expected to be large."),
        ("system", "The kernel itself and its worker threads. Has no executable on disk."),
        ("system idle process", "Not a real program. Its CPU share is the percentage of time the processor is doing nothing.")
    ];
    assert(r@.map_values(|e: (&str, &str)| (e.0@, e.1@)) =~= knowledge_table());
    r
}

/// The first description whose name equals `name` once both are compared
/// ignoring ASCII case (`name` trimmed of surrounding whitespace first).
pub open spec fn description_for(name: Seq<char>, table: Seq<(Seq<char>, Seq<char>)>) -> Option<
    Seq<char>,
>
    decreases table.len(),
{
    if table.len() == 0 {
        None
    } else if ascii_lowered(table[0].0) == ascii_lowered(trim_both(name, Trim::Whitespace)) {
        Some(table[0].1)
    } else {
        description_for(name, table.drop_first())
    }
}

/// Description for a process name, if this is a component Windows ships.
pub fn describe(name: &str) -> (r: Option<&'static str>)
    ensures
        match r {
            Some(d) => description_for(name@, knowledge_table()) == Some(d@),
            None => description_for(name@, knowledge_table()) is None,
        },
{
    let raw = chars_of(name);
    let trimmed_name = trimmed(&raw, Trim::Whitespace);
    let wanted = ascii_lowercase_chars(&trimmed_name);
    let table = knowledge_entries();
    let ghost t = knowledge_table();
    let mut i: usize = 0;
    proof {
        assert(t.skip(0) =~= t);
    }
    while i < table.len()
        invariant
            i <= table.len(),
            table@.map_values(|e: (&str, &str)| (e.0@, e.1@)) == t,
            t == knowledge_table(),
            wanted@ == ascii_lowered(trim_both(name@, Trim::Whitespace)),
            description_for(name@, t) == description_for(name@, t.skip(i as int)),
        decreases table.len() - i,
    {
        let (candidate, description) = table[i];
        let c = chars_of(candidate);
        let lowered = ascii_lowercase_chars(&c);
        proof {
            assert(t[i as int] == (candidate@, description@));
            assert(t.skip(i as int)[0] == t[i as int]);
            assert(t.skip(i as int).drop_first() =~= t.skip(i + 1));
        }
        if chars_equal(&lowered, &wanted) {
            return Some(description);
        }
        i = i + 1;
    }
    None
}

} // verus!
