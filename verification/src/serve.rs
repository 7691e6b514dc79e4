//! What a server takes in, and what it refuses.
use vstd::prelude::*;
use vstd::utf8::*;

use crate::ingest::Malformed;
use crate::text::utf8_len;

verus! {

/// The bytes that a request may have.
pub const MAX_BODY: usize = 16 * 1024 * 1024;

/// The requests that are served at the same time.
pub const MAX_CONCURRENT_REQUESTS: usize = 64;

/// The bytes of lines that may wait.
pub const MAX_QUEUED_BYTES: usize = 256 * 1024 * 1024;

/// The requests that may wait.
pub const MAX_QUEUED_REQUESTS: usize = 65_536;

/// The bytes that a line takes besides its text.
pub const LINE_OVERHEAD: usize = 64;

/// The requests that are triaged together.
pub const BATCH_REQUESTS: usize = 256;

/// The milliseconds that the first request of a batch waits for others.
pub const BATCH_LINGER_MILLIS: u64 = 200;

/// The seconds between two times that alerts are looked for.
pub const FLUSH_EVERY_SECONDS: u64 = 5;

/// Why lines are refused.
#[derive(Debug, Clone, Copy, PartialEq, Eq, Structural)]
pub enum Refusal {
    /// The lines of the request alone take more than may wait.
    TooManyLines,
    /// There is no room until lines that wait are triaged.
    QueueFull,
    /// Nothing is taken in any more.
    ShuttingDown,
}

impl Refusal {
    /// The HTTP status of the refusal.
    pub fn status(self) -> (status: u16)
        ensures
            status == (match self {
                Refusal::TooManyLines => 413u16,
                Refusal::QueueFull => 429,
                Refusal::ShuttingDown => 503,
            }),
    {
        match self {
            Refusal::TooManyLines => 413,
            Refusal::QueueFull => 429,
            Refusal::ShuttingDown => 503,
        }
    }

    /// What the sender is told.
    pub fn message(self) -> (message: &'static str)
        ensures
            message@ == (match self {
                Refusal::TooManyLines => "request has too many lines"@,
                Refusal::QueueFull => "ingest queue is full, retry later"@,
                Refusal::ShuttingDown => "shutting down"@,
            }),
    {
        match self {
            Refusal::TooManyLines => "request has too many lines",
            Refusal::QueueFull => "ingest queue is full, retry later",
            Refusal::ShuttingDown => "shutting down",
        }
    }
}

/// The HTTP status for a body that cannot be read.
pub const BAD_REQUEST: u16 = 400;

/// What the sender of a malformed OTLP body is told.
pub fn malformed_message(malformed: &Malformed) -> (message: String)
    ensures
        message@ == "invalid OTLP/JSON: "@ + malformed.message@,
{
    let mut message = String::new();
    message.append("invalid OTLP/JSON: ");
    message.append(malformed.message.as_str());
    message
}

/// The bytes that the first `n` of the lines take while they wait.
pub open spec fn cost(lines: Seq<String>, n: nat) -> nat
    decreases n,
{
    if n == 0 {
        0
    } else {
        cost(lines, (n - 1) as nat) + utf8_len(lines[n - 1]@) + LINE_OVERHEAD as nat
    }
}

proof fn lemma_cost_grows(lines: Seq<String>, n: nat, m: nat)
    requires
        n <= m,
    ensures
        cost(lines, n) <= cost(lines, m),
    decreases m,
{
    if n < m {
        lemma_cost_grows(lines, n, (m - 1) as nat);
    }
}

/// The bytes of the queue that `lines` need, if there are any lines.
pub fn enqueue(lines: &Vec<String>) -> (room: Result<Option<u32>, Refusal>)
    ensures
        lines@.len() == 0 ==> room == Ok::<Option<u32>, Refusal>(None),
        lines@.len() > 0 && cost(lines@, lines@.len()) > MAX_QUEUED_BYTES ==> room == Err::<
            Option<u32>,
            Refusal,
        >(Refusal::TooManyLines),
        lines@.len() > 0 && cost(lines@, lines@.len()) <= MAX_QUEUED_BYTES ==> room == Ok::<
            Option<u32>,
            Refusal,
        >(Some(cost(lines@, lines@.len()) as u32)),
{
    if lines.len() == 0 {
        return Ok(None);
    }
    let mut total: u32 = 0;
    let mut i: usize = 0;
    while i < lines.len()
        invariant
            i <= lines@.len(),
            total == cost(lines@, i as nat),
            total <= MAX_QUEUED_BYTES,
        decreases lines@.len() - i,
    {
        let len: usize = lines[i].as_str().as_bytes().len();
        proof {
            lemma_cost_grows(lines@, (i + 1) as nat, lines@.len());
        }
        if len > MAX_QUEUED_BYTES {
            return Err(Refusal::TooManyLines);
        }
        total = total + len as u32 + LINE_OVERHEAD as u32;
        if total as usize > MAX_QUEUED_BYTES {
            return Err(Refusal::TooManyLines);
        }
        i += 1;
    }
    Ok(Some(total))
}

/// What became of lines that were handed to the queue.
#[derive(Debug, Clone, Copy, PartialEq, Eq, Structural)]
pub enum Handed {
    Taken,
    /// There was no room for their bytes, or for one more request.
    Full,
    Closed,
}

/// Whether lines that were handed to the queue are accepted.
pub fn accepted(handed: Handed) -> (outcome: Result<(), Refusal>)
    ensures
        outcome == (match handed {
            Handed::Taken => Ok::<(), Refusal>(()),
            Handed::Full => Err::<(), Refusal>(Refusal::QueueFull),
            Handed::Closed => Err::<(), Refusal>(Refusal::ShuttingDown),
        }),
{
    match handed {
        Handed::Taken => Ok(()),
        Handed::Full => Err(Refusal::QueueFull),
        Handed::Closed => Err(Refusal::ShuttingDown),
    }
}

/// Each line that waits takes its bytes and sixty-four more, whatever its place:
/// the cost of a list is the sum over its lines.
pub proof fn law_each_line_costs_its_bytes(lines: Seq<String>, n: nat, m: nat)
    requires
        n <= m,
    ensures
        cost(lines, 0) == 0,
        cost(lines, n + 1) == cost(lines, n) + encode_utf8(lines[n as int]@).len() + 64,
        cost(lines, m) >= cost(lines, n) + 64 * (m - n),
        forall|i: int|
            0 <= i < n ==> cost(lines, n) >= encode_utf8((#[trigger] lines[i])@).len() + 64 * n,
    decreases m,
{
    if n < m {
        law_each_line_costs_its_bytes(lines, n, (m - 1) as nat);
    } else if n > 0 {
        let k = (n - 1) as nat;
        law_each_line_costs_its_bytes(lines, k, k);
        law_each_line_costs_its_bytes(lines, 0, k);
        assert forall|i: int| 0 <= i < n implies cost(lines, n) >= encode_utf8(
            (#[trigger] lines[i])@,
        ).len() + 64 * n by {
            if i < k {
                assert(cost(lines, k) >= encode_utf8(lines[i]@).len() + 64 * k);
            }
        }
    }
}

/// What a server takes in is bounded: sixteen mebibytes a request, 256 mebibytes
/// and 65,536 requests that wait, and 64 requests at a time.
pub proof fn law_intake_is_bounded()
    ensures
        MAX_BODY == 16_777_216,
        MAX_QUEUED_BYTES == 268_435_456,
        MAX_QUEUED_REQUESTS == 65_536,
        MAX_CONCURRENT_REQUESTS == 64,
        BATCH_REQUESTS == 256,
        BATCH_LINGER_MILLIS == 200,
        FLUSH_EVERY_SECONDS == 5,
{
}

} // verus!
