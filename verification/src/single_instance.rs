//! One window: a second launch hands its file to the window that is open.
//!
//! The launches talk over a loopback socket. Here it is decided which launch owns the window,
//! what is sent, and what a request asks for.
use crate::path::FilePath;
use crate::text::{mended, trim, trimmed};
use vstd::prelude::*;
use vstd::utf8::{decode_utf8, encode_utf8, valid_utf8};

verus! {

/// The loopback port that the window listens on.
pub const PORT: u16 = 49677;

/// What a launch is.
#[derive(Clone, Copy, Debug, PartialEq, Eq, Structural)]
pub enum Startup {
    /// It owns the window, and serves requests.
    Primary,
    /// Another owns the window; it has been handed the file.
    Secondary,
}

/// What a launch does next.
#[derive(Clone, Copy, Debug, PartialEq, Eq, Structural)]
pub enum StartupStep {
    /// Hand the file to whoever listens.
    Forward,
    /// Begin to listen.
    Bind,
    /// It is settled what the launch is.
    Settled(Startup),
}

/// What has happened so far.
#[derive(Clone, Copy, Debug, PartialEq, Eq, Structural)]
pub enum StartupEvent {
    /// The launch has begun.
    Launched,
    /// The file was handed on, if anyone listened.
    Forwarded {
        /// Whether anyone listened.
        reached: bool,
        /// Whether the launch had tried to listen before.
        bound_before: bool,
    },
    /// The launch has tried to listen.
    Bound {
        /// Whether it listens now.
        listening: bool,
    },
}

/// What a launch does next: it hands its file on; where no one listens it listens itself; and
/// where it cannot, someone else has just begun to, and is handed the file.
pub open spec fn next_step(event: StartupEvent) -> StartupStep {
    match event {
        StartupEvent::Launched => StartupStep::Forward,
        StartupEvent::Forwarded { reached, bound_before } => if reached || bound_before {
            StartupStep::Settled(Startup::Secondary)
        } else {
            StartupStep::Bind
        },
        StartupEvent::Bound { listening } => if listening {
            StartupStep::Settled(Startup::Primary)
        } else {
            StartupStep::Forward
        },
    }
}

/// Decides what a launch does next.
pub fn acquire(event: StartupEvent) -> (r: StartupStep)
    ensures
        r == next_step(event),
{
    match event {
        StartupEvent::Launched => StartupStep::Forward,
        StartupEvent::Forwarded { reached, bound_before } => {
            if reached || bound_before {
                StartupStep::Settled(Startup::Secondary)
            } else {
                StartupStep::Bind
            }
        },
        StartupEvent::Bound { listening } => {
            if listening {
                StartupStep::Settled(Startup::Primary)
            } else {
                StartupStep::Forward
            }
        },
    }
}

/// A launch comes to own the window only by listening for the others.
pub proof fn law_only_a_listener_owns_the_window(event: StartupEvent)
    ensures
        next_step(event) == StartupStep::Settled(Startup::Primary) <==> event
            == (StartupEvent::Bound { listening: true }),
{
}

/// What is sent to the open window: the path as text.
pub fn forward(path: &FilePath) -> (r: String)
    ensures
        r@ == mended(path@),
        valid_utf8(path@) ==> r@ == decode_utf8(path@),
{
    path.display()
}

/// The file that a request asks for: nothing where the request is blank.
pub fn requested_path(request: &str) -> (r: Option<FilePath>)
    ensures
        r is Some <==> trimmed(request@).len() > 0,
        r matches Some(path) ==> path@ == encode_utf8(trimmed(request@)),
{
    let path = trim(request);
    if path.as_str().is_empty() {
        None
    } else {
        Some(FilePath::from_text(path.as_str()))
    }
}

/// A path that is text, without white space around it, is asked for as it was sent.
pub proof fn law_request_arrives(path: Seq<u8>)
    requires
        valid_utf8(path),
        trimmed(decode_utf8(path)) == decode_utf8(path),
    ensures
        encode_utf8(trimmed(decode_utf8(path))) == path,
{
    vstd::utf8::decode_utf8_encode_utf8(path);
}

/// The file that the program was started with: an empty argument is none.
pub fn path_from_os(argument: Vec<u8>) -> (r: Option<FilePath>)
    ensures
        r is Some <==> argument@.len() > 0,
        r matches Some(path) ==> path@ == argument@,
{
    if argument.len() == 0 {
        None
    } else {
        Some(FilePath::from_bytes(argument))
    }
}

/// The request that counts of those that have come: the latest.
pub fn latest_request(requests: usize) -> (r: Option<usize>)
    ensures
        r == if requests == 0 { None::<usize> } else { Some((requests - 1) as usize) },
        r matches Some(at) ==> at < requests <= at + 1,
        r is None ==> requests == 0,
{
    if requests == 0 {
        None
    } else {
        Some(requests - 1)
    }
}

/// The dropped item that counts: the first that is a file.
pub fn first_file(is_file: &[bool]) -> (r: Option<usize>)
    ensures
        match r {
            Some(at) => at < is_file@.len() && is_file@[at as int] && forall|i: int|
                0 <= i < at ==> !#[trigger] is_file@[i],
            None => forall|i: int| 0 <= i < is_file@.len() ==> !#[trigger] is_file@[i],
        },
{
    let mut i: usize = 0;
    while i < is_file.len()
        invariant
            i <= is_file@.len(),
            forall|j: int| 0 <= j < i ==> !#[trigger] is_file@[j],
        decreases is_file@.len() - i,
    {
        if is_file[i] {
            return Some(i);
        }
        i = i + 1;
    }
    None
}

} // verus!
