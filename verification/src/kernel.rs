//! The decisions around the kernel's process list: whether a query is read,
//! retried with a larger buffer or given up, and where the records lie in
//! the bytes it returned.

use vstd::prelude::*;

verus! {

/// The query succeeded.
pub const STATUS_SUCCESS: u32 = 0;

/// The buffer was too small for the list (the statuses that ask for a
/// retry).
pub const STATUS_INFO_LENGTH_MISMATCH: u32 = 0xC000_0004;

pub const STATUS_BUFFER_OVERFLOW: u32 = 0x8000_0005;

pub const STATUS_BUFFER_TOO_SMALL: u32 = 0xC000_0023;

/// How many times the list is asked for before giving up.
pub const QUERY_ATTEMPTS: u32 = 5;

/// Room added beyond the size the kernel reported, for processes started
/// in between.
pub const QUERY_SLACK: usize = 65536;

/// What to do after one query of the process list.
#[derive(Debug, PartialEq, Eq)]
pub enum QueryStep {
    /// The buffer holds the list: read it.
    Parse,
    /// Grow the buffer to this many bytes and ask again.
    Grow(usize),
    /// Grow the buffer to this many bytes (for the next refresh) and stop
    /// with this error: the list stayed too large.
    GiveUp(usize, String),
    /// Stop with this error: the query failed.
    Fail(String),
}

/// Whether a status asks for a larger buffer.
pub open spec fn asks_for_room(status: u32) -> bool {
    status == STATUS_INFO_LENGTH_MISMATCH || status == STATUS_BUFFER_OVERFLOW || status
        == STATUS_BUFFER_TOO_SMALL
}

/// The next buffer size: twice the current one, or what the kernel reported
/// plus the slack (saturating), whichever is larger.
pub open spec fn grown_size(returned: u32, buffer_len: usize) -> int {
    let needed = if returned + QUERY_SLACK > usize::MAX {
        usize::MAX as int
    } else {
        returned + QUERY_SLACK
    };
    if buffer_len * 2 >= needed {
        buffer_len * 2
    } else {
        needed
    }
}

/// The uppercase hexadecimal digit of `d` (below 16).
pub open spec fn hex_char(d: nat) -> char {
    if d < 10 {
        (48 + d) as char
    } else {
        (55 + d) as char
    }
}

/// The last `n` hexadecimal digits of `v`, most significant first.
pub open spec fn hex_digits(v: nat, n: nat) -> Seq<char>
    decreases n,
{
    if n == 0 {
        seq![]
    } else {
        hex_digits(v / 16, (n - 1) as nat).push(hex_char(v % 16))
    }
}

fn push_hex(out: &mut Vec<char>, v: u32, n: u32)
    requires
        n <= 8,
    ensures
        final(out)@ == old(out)@ + hex_digits(v as nat, n as nat),
    decreases n,
{
    if n > 0 {
        push_hex(out, v / 16, n - 1);
        let d = v % 16;
        let c: char = if d < 10 {
            ((48 + d) as u8) as char
        } else {
            ((55 + d) as u8) as char
        };
        assert(c == hex_char(d as nat));
        out.push(c);
    }
}

/// `prefix`, the status as eight uppercase hexadecimal digits, and `)`.
fn status_message(prefix: &str, status: u32) -> (r: String)
    ensures
        r@ == prefix@ + hex_digits(status as nat, 8) + ")"@,
{
    let mut out: Vec<char> = Vec::new();
    let p = crate::text::chars_of(prefix);
    crate::text::push_all(&mut out, &p);
    push_hex(&mut out, status, 8);
    let close = crate::text::chars_of(")");
    crate::text::push_all(&mut out, &close);
    crate::text::string_from_chars(out.as_slice())
}

/// The error for a query that failed outright.
pub open spec fn failed_message(status: u32) -> Seq<char> {
    "kernel process query failed (NTSTATUS 0x"@ + hex_digits(status as nat, 8) + ")"@
}

/// The error for a list that stayed too large for every attempt.
pub open spec fn too_large_message(status: u32) -> Seq<char> {
    "kernel process query remained too large after five attempts (NTSTATUS 0x"@ + hex_digits(
        status as nat,
        8,
    ) + ")"@
}

/// What to do after attempt number `attempt` (counting from 0) returned
/// `status`, with `returned` the size the kernel reported and `buffer_len`
/// the buffer's size: read the list on success; on a status that asks for
/// room, grow the buffer and ask again, or give up after the fifth attempt;
/// on any other status, fail.
pub fn query_step(attempt: u32, status: u32, returned: u32, buffer_len: usize) -> (r: QueryStep)
    requires
        buffer_len <= usize::MAX / 2,
    ensures
        status == STATUS_SUCCESS ==> r == QueryStep::Parse,
        status != STATUS_SUCCESS && asks_for_room(status) && attempt + 1 < QUERY_ATTEMPTS ==> r
            == QueryStep::Grow(grown_size(returned, buffer_len) as usize),
        status != STATUS_SUCCESS && asks_for_room(status) && attempt + 1 >= QUERY_ATTEMPTS ==> (r
            matches QueryStep::GiveUp(n, m) && n == grown_size(returned, buffer_len) && m@
            == too_large_message(status)),
        status != STATUS_SUCCESS && !asks_for_room(status) ==> (r matches QueryStep::Fail(m)
            && m@ == failed_message(status)),
{
    if status == STATUS_SUCCESS {
        return QueryStep::Parse;
    }
    if !(status == STATUS_INFO_LENGTH_MISMATCH || status == STATUS_BUFFER_OVERFLOW || status
        == STATUS_BUFFER_TOO_SMALL) {
        return QueryStep::Fail(status_message("kernel process query failed (NTSTATUS 0x", status));
    }
    let needed = (returned as usize).saturating_add(QUERY_SLACK);
    let doubled = buffer_len * 2;
    let size = if doubled >= needed {
        doubled
    } else {
        needed
    };
    if attempt < QUERY_ATTEMPTS - 1 {
        QueryStep::Grow(size)
    } else {
        QueryStep::GiveUp(
            size,
            status_message(
                "kernel process query remained too large after five attempts (NTSTATUS 0x",
                status,
            ),
        )
    }
}

/// The little-endian 32-bit value at `at`.
pub open spec fn le_u32(bytes: Seq<u8>, at: int) -> int {
    bytes[at] + bytes[at + 1] * 256 + bytes[at + 2] * 65536 + bytes[at + 3] * 16777216
}

/// The bytes of the buffer the kernel filled: all of it when it reported no
/// size, else the reported size clipped to the buffer.
pub open spec fn used_bytes(returned: u32, buffer_len: int) -> int {
    if returned == 0 {
        buffer_len
    } else if returned < buffer_len {
        returned as int
    } else {
        buffer_len
    }
}

/// How far a walk from `at` is from the end of the used bytes.
pub open spec fn room_left(used: int, at: int) -> nat {
    if at < used {
        (used - at) as nat
    } else {
        0
    }
}

/// The offsets of the records from `at` on: each record of `size` bytes
/// that fits in the used bytes starts with the distance to the next one, and
/// a distance of zero ends the list. The offsets saturate at the largest
/// `usize`.
pub open spec fn record_walk(bytes: Seq<u8>, used: int, size: int, at: int) -> Seq<int>
    decreases room_left(used, at),
{
    if size < 4 || at < 0 || at + size > used || used > bytes.len() || used > usize::MAX {
        seq![]
    } else {
        let next = le_u32(bytes, at);
        if next <= 0 {
            seq![at]
        } else {
            let following = if at + next > usize::MAX {
                usize::MAX as int
            } else {
                at + next
            };
            seq![at] + record_walk(bytes, used, size, following)
        }
    }
}

/// The offsets of the process records in the bytes a successful query
/// returned (see `record_walk`), for records of `size` bytes.
pub fn record_offsets(bytes: &[u8], returned: u32, size: usize) -> (r: Vec<usize>)
    requires
        size >= 4,
    ensures
        r@.map_values(|o: usize| o as int) == record_walk(
            bytes@,
            used_bytes(returned, bytes@.len() as int),
            size as int,
            0,
        ),
{
    let used = if returned == 0 {
        bytes.len()
    } else if (returned as usize) < bytes.len() {
        returned as usize
    } else {
        bytes.len()
    };
    let ghost u = used as int;
    assert(u == used_bytes(returned, bytes@.len() as int));
    let mut out: Vec<usize> = Vec::new();
    let mut at: usize = 0;
    loop
        invariant_except_break
            size >= 4,
            used <= bytes@.len(),
            u == used as int,
            out@.map_values(|o: usize| o as int) + record_walk(bytes@, u, size as int, at as int)
                == record_walk(bytes@, u, size as int, 0),
        ensures
            out@.map_values(|o: usize| o as int) == record_walk(bytes@, u, size as int, 0),
        decreases room_left(used as int, at as int),
    {
        let ghost before = out@;
        if size > used || at > used - size {
            assert(record_walk(bytes@, u, size as int, at as int) =~= Seq::<int>::empty());
            assert(out@.map_values(|o: usize| o as int) + Seq::<int>::empty() =~= out@.map_values(
                |o: usize| o as int,
            ));
            break;
        }
        let next = (bytes[at] as u32) + (bytes[at + 1] as u32) * 256 + (bytes[at + 2] as u32)
            * 65536 + (bytes[at + 3] as u32) * 16777216;
        assert(next as int == le_u32(bytes@, at as int));
        out.push(at);
        assert(out@.map_values(|o: usize| o as int) =~= before.map_values(|o: usize| o as int).push(
            at as int,
        ));
        if next == 0 {
            assert(record_walk(bytes@, u, size as int, at as int) == seq![at as int]);
            assert(before.map_values(|o: usize| o as int).push(at as int) =~= before.map_values(
                |o: usize| o as int,
            ) + seq![at as int]);
            break;
        }
        let following = at.saturating_add(next as usize);
        assert(record_walk(bytes@, u, size as int, at as int) == seq![at as int] + record_walk(
            bytes@,
            u,
            size as int,
            following as int,
        ));
        assert(before.map_values(|o: usize| o as int).push(at as int) + record_walk(
            bytes@,
            u,
            size as int,
            following as int,
        ) =~= before.map_values(|o: usize| o as int) + (seq![at as int] + record_walk(
            bytes@,
            u,
            size as int,
            following as int,
        )));
        at = following;
    }
    out
}

} // verus!
