//! Clipboard support: the decision which clipboard backend to use, and the
//! OSC 52 escape sequence that sets a terminal's clipboard.  The backends
//! themselves (a WSL bridge, a native clipboard, a terminal write) are I/O
//! and stay with the caller; base64 encoding of the OSC 52 payload is done
//! by an outside crate behind a trusted wrapper.

use vstd::prelude::*;
use base64::Engine;
use crate::text::push_all;

verus! {

/// Which clipboard backend to use.
#[derive(Clone, Copy, Debug, PartialEq, Eq, Structural)]
pub enum ClipboardRoute {
    /// Inside WSL: pipe the text to the Windows clipboard tool.
    WslClip,
    /// Inside an SSH session: emit an OSC 52 escape sequence.
    Osc52,
    /// Otherwise: the host's native clipboard.
    Native,
}

/// The backend for a host: the WSL bridge when running under WSL, OSC 52
/// inside an SSH session, and the native clipboard otherwise.
pub fn clipboard_route(is_wsl: bool, in_ssh_session: bool) -> (r: ClipboardRoute)
    ensures
        r == (if is_wsl {
            ClipboardRoute::WslClip
        } else if in_ssh_session {
            ClipboardRoute::Osc52
        } else {
            ClipboardRoute::Native
        }),
{
    if is_wsl {
        ClipboardRoute::WslClip
    } else if in_ssh_session {
        ClipboardRoute::Osc52
    } else {
        ClipboardRoute::Native
    }
}

/// The standard-alphabet, padded base64 encoding of a byte string.
pub uninterp spec fn b64_of(s: Seq<u8>) -> Seq<u8>;

/// Relies on base64's `Engine::encode` with the standard engine: the result
/// is a function of the input bytes alone, and the padded encoding is four
/// output bytes for every three input bytes begun.  `encode` aborts when
/// that length overflows `usize`, so such inputs are excluded.
#[verifier::external_body]
fn base64_encode(s: &[u8]) -> (r: Vec<u8>)
    requires
        4 * ((s@.len() + 2) / 3) <= usize::MAX,
    ensures
        r@ == b64_of(s@),
        r@.len() == 4 * ((s@.len() + 2) / 3),
{
    base64::engine::general_purpose::STANDARD.encode(s).into_bytes()
}

/// The bytes before the payload of an OSC 52 clipboard sequence.
pub open spec fn osc52_prefix() -> Seq<u8> {
    seq![27u8, ']' as u8, '5' as u8, '2' as u8, ';' as u8, 'c' as u8, ';' as u8]
}

/// The OSC 52 escape sequence that sets the clipboard to `text`: the
/// prefix, the base64 payload, and a BEL terminator.
pub fn osc52_sequence(text: &[u8]) -> (r: Vec<u8>)
    requires
        4 * ((text@.len() + 2) / 3) <= usize::MAX,
    ensures
        r@ == osc52_prefix() + b64_of(text@) + seq![7u8],
{
    let mut out: Vec<u8> = Vec::new();
    out.push(27u8);
    out.push(']' as u8);
    out.push('5' as u8);
    out.push('2' as u8);
    out.push(';' as u8);
    out.push('c' as u8);
    out.push(';' as u8);
    proof {
        assert(out@ =~= osc52_prefix());
    }
    let payload = base64_encode(text);
    push_all(&mut out, payload.as_slice());
    out.push(7u8);
    proof {
        assert(out@ =~= osc52_prefix() + b64_of(text@) + seq![7u8]);
    }
    out
}

} // verus!
