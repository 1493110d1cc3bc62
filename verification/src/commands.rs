//! The command registry and command resolution.
//!
//! The registry is the static table behind command lookup: each registered
//! command has a canonical name, an arity (negative meaning "at least that
//! many arguments, sign dropped"), and a one-line description.  Resolution
//! takes the first element of a request array and finds the registered
//! command it names, matching ASCII case-insensitively.

use vstd::prelude::*;

use crate::codec::frames_view;
use crate::codec::Frame;
use crate::codec::FrameV;
use crate::errors::CmdErrV;
use crate::errors::CommandExecutionError;
use crate::errors::FrameError;
use crate::ring::spec_route;
use crate::ring::xxhash64_of;
use crate::ring::ConsistentHashRing;
use vstd::utf8::*;

verus! {

/// The identifier of a registered command.
#[derive(Clone, Copy, Debug, Hash, PartialEq, Eq, Structural)]
pub enum CommandKind {
    Get,
    SetCmd,
}

/// The canonical (upper-case) name of a registered command.
pub open spec fn kind_name(k: CommandKind) -> Seq<u8> {
    match k {
        CommandKind::Get => seq![71u8, 69u8, 84u8],
        CommandKind::SetCmd => seq![83u8, 69u8, 84u8],
    }
}

/// A byte mapped to its ASCII upper-case form; other bytes are unchanged.
pub open spec fn ascii_upper(b: u8) -> u8 {
    if 97 <= b <= 122 {
        (b - 32) as u8
    } else {
        b
    }
}

/// A byte string mapped to ASCII upper case.
pub open spec fn upper_seq(s: Seq<u8>) -> Seq<u8> {
    Seq::new(s.len(), |i: int| ascii_upper(s[i]))
}

/// The registered command that an upper-cased name denotes.
pub open spec fn spec_command_of(u: Seq<u8>) -> Option<CommandKind> {
    if u == kind_name(CommandKind::Get) {
        Option::Some(CommandKind::Get)
    } else if u == kind_name(CommandKind::SetCmd) {
        Option::Some(CommandKind::SetCmd)
    } else {
        Option::None
    }
}

/// The payload of a string-like frame: a simple or bulk string.
pub open spec fn frame_str(f: FrameV) -> Option<Seq<u8>> {
    match f {
        FrameV::Simple(d) => Option::Some(d),
        FrameV::Bulk(d) => Option::Some(d),
        _ => Option::None,
    }
}

/// How a frame resolves against the registry: the top-level frame must be
/// a non-empty array whose first element is a string-like command name.
/// A name that is not valid UTF-8 is rejected as such; a valid name that
/// matches no registered command, ASCII case-insensitively, is unknown.
pub open spec fn spec_resolve(f: FrameV) -> Result<CommandKind, FrameError> {
    match f {
        FrameV::Array(s) => if s.len() == 0 {
            Result::Err(FrameError::MissingCommand)
        } else {
            match frame_str(s[0]) {
                Option::None => Result::Err(FrameError::InvalidFrame),
                Option::Some(name) => if !valid_utf8(name) {
                    Result::Err(FrameError::Utf8Error)
                } else {
                    match spec_command_of(upper_seq(name)) {
                        Option::Some(k) => Result::Ok(k),
                        Option::None => Result::Err(FrameError::UnknownCommand),
                    }
                },
            }
        },
        _ => Result::Err(FrameError::InvalidFrame),
    }
}

/// Whether `v` is a valid UTF-8 encoding, scalar by scalar.
fn is_valid_utf8(v: &Vec<u8>) -> (r: bool)
    ensures
        r == valid_utf8(v@),
{
    let n: usize = v.len();
    let mut i: usize = 0;
    proof {
        assert(v@.skip(0) =~= v@);
    }
    while i < n
        invariant
            i <= n,
            n == v@.len(),
            valid_utf8(v@) == valid_utf8(v@.skip(i as int)),
        decreases n - i,
    {
        let ghost suf: Seq<u8> = v@.skip(i as int);
        proof {
            assert(suf.len() == n - i);
            assert(forall|k: int| 0 <= k < suf.len() ==> suf[k] == v@[i + k]);
        }
        let b0: u8 = v[i];
        let width: usize = if b0 <= 0x7f {
            1
        } else if 0xc0 <= b0 && b0 <= 0xdf {
            2
        } else if 0xe0 <= b0 && b0 <= 0xef {
            3
        } else if 0xf0 <= b0 && b0 <= 0xf7 {
            4
        } else {
            // Neither a leading byte of any width nor ASCII: a lone
            // continuation byte or an out-of-range byte.
            proof {
                assert(!valid_leading_and_continuation_bytes_first_codepoint(suf));
                assert(!valid_utf8(suf));
            }
            return false;
        };
        if n - i < width {
            // The scalar is truncated: its continuation bytes are missing.
            proof {
                assert(!valid_leading_and_continuation_bytes_first_codepoint(suf));
                assert(!valid_utf8(suf));
            }
            return false;
        }
        let mut okc: bool = true;
        if width >= 2 && !(0x80 <= v[i + 1] && v[i + 1] <= 0xbf) {
            okc = false;
        }
        if width >= 3 && !(0x80 <= v[i + 2] && v[i + 2] <= 0xbf) {
            okc = false;
        }
        if width >= 4 && !(0x80 <= v[i + 3] && v[i + 3] <= 0xbf) {
            okc = false;
        }
        if !okc {
            proof {
                assert(!valid_leading_and_continuation_bytes_first_codepoint(suf));
                assert(!valid_utf8(suf));
            }
            return false;
        }
        proof {
            assert(valid_leading_and_continuation_bytes_first_codepoint(suf));
            assert(length_of_first_codepoint(suf) == width);
        }
        let cp: u32 = if width == 1 {
            (b0 & 0x7f) as u32
        } else if width == 2 {
            (((b0 & 0x1f) as u32) << 6u32) | ((v[i + 1] & 0x3f) as u32)
        } else if width == 3 {
            (((b0 & 0x0f) as u32) << 12u32) | (((v[i + 1] & 0x3f) as u32) << 6u32) | ((v[i + 2]
                & 0x3f) as u32)
        } else {
            (((b0 & 0x07) as u32) << 18u32) | (((v[i + 1] & 0x3f) as u32) << 12u32) | (((v[i + 2]
                & 0x3f) as u32) << 6u32) | ((v[i + 3] & 0x3f) as u32)
        };
        proof {
            assert(cp == decode_first_codepoint(suf));
        }
        let bad: bool = (width == 2 && cp < 0x80) || (width == 3 && cp < 0x800) || (width == 4
            && !(0x10000 <= cp && cp <= 0x10ffff)) || (0xd800 <= cp && cp <= 0xdfff);
        if bad {
            // An overlong encoding, a surrogate, or a value past the
            // Unicode range.
            proof {
                assert(!valid_first_scalar(suf));
                assert(!valid_utf8(suf));
            }
            return false;
        }
        proof {
            assert(valid_first_scalar(suf));
            assert(pop_first_scalar(suf) =~= v@.skip(i + width));
            assert(valid_utf8(suf) == valid_utf8(v@.skip(i + width)));
        }
        i = i + width;
    }
    proof {
        assert(v@.skip(n as int) =~= Seq::<u8>::empty());
    }
    true
}

/// The ASCII upper-case form of `v`; bytes outside the ASCII lower-case
/// range are unchanged.
pub(crate) fn to_upper_ascii(v: &Vec<u8>) -> (r: Vec<u8>)
    ensures
        r@ == upper_seq(v@),
{
    let mut out: Vec<u8> = Vec::new();
    let mut i: usize = 0;
    while i < v.len()
        invariant
            i <= v@.len(),
            out@.len() == i,
            forall|j: int| 0 <= j < i ==> out@[j] == ascii_upper(v@[j]),
        decreases v@.len() - i,
    {
        let b: u8 = v[i];
        if 97 <= b && b <= 122 {
            out.push(b - 32);
        } else {
            out.push(b);
        }
        i = i + 1;
    }
    proof {
        assert(out@ =~= upper_seq(v@));
    }
    out
}

impl CommandKind {
    /// The number of arguments the command takes, command name included; a
    /// negative arity means "at least that many", sign dropped.
    pub fn arity(&self) -> (r: i64)
        ensures
            *self is Get ==> r == 2,
            *self is SetCmd ==> r == -3,
    {
        match *self {
            CommandKind::Get => 2,
            CommandKind::SetCmd => -3,
        }
    }

    /// A one-line description of the command.
    pub fn desc(&self) -> &'static str {
        match *self {
            CommandKind::Get => "Returns the value of a key",
            CommandKind::SetCmd => "Sets the value of a key, with optional expiry and existence conditions",
        }
    }

    /// The canonical name as bytes.
    pub fn name_bytes(&self) -> (r: Vec<u8>)
        ensures
            r@ == kind_name(*self),
    {
        match *self {
            CommandKind::Get => vec![71u8, 69u8, 84u8],
            CommandKind::SetCmd => vec![83u8, 69u8, 84u8],
        }
    }

    /// Look a name up in the registry, matching ASCII case-insensitively.
    pub fn from_name(name: &Vec<u8>) -> (r: Option<CommandKind>)
        ensures
            r == spec_command_of(upper_seq(name@)),
    {
        let up = to_upper_ascii(name);
        if up.len() == 3 && up[0] == 71 && up[1] == 69 && up[2] == 84 {
            proof {
                assert(up@ =~= kind_name(CommandKind::Get));
            }
            Option::Some(CommandKind::Get)
        } else if up.len() == 3 && up[0] == 83 && up[1] == 69 && up[2] == 84 {
            proof {
                assert(up@ =~= kind_name(CommandKind::SetCmd));
            }
            Option::Some(CommandKind::SetCmd)
        } else {
            proof {
                if up@ == kind_name(CommandKind::Get) {
                    assert(up@.len() == 3 && up@[0] == 71 && up@[1] == 69 && up@[2] == 84);
                }
                if up@ == kind_name(CommandKind::SetCmd) {
                    assert(up@.len() == 3 && up@[0] == 83 && up@[1] == 69 && up@[2] == 84);
                }
            }
            Option::None
        }
    }

    /// Resolve a request frame to the registered command it names.
    ///
    /// The frame must be a non-empty array whose first element is a simple
    /// or bulk string holding valid UTF-8; the name is matched ASCII
    /// case-insensitively, and a valid name that matches nothing is an
    /// unknown command.
    pub fn from_frame(frame: &Frame) -> (r: Result<CommandKind, FrameError>)
        ensures
            r == spec_resolve(frame@),
    {
        match frame {
            Frame::Array(v) => {
                if v.len() == 0 {
                    proof {
                        assert(frames_view(v@).len() == 0);
                    }
                    return Result::Err(FrameError::MissingCommand);
                }
                proof {
                    assert(frames_view(v@)[0] == crate::codec::frame_view(v@[0]));
                }
                let name: &Vec<u8> = match &v[0] {
                    Frame::Simple(d) => d,
                    Frame::Bulk(d) => d,
                    _ => {
                        return Result::Err(FrameError::InvalidFrame);
                    },
                };
                if !is_valid_utf8(name) {
                    return Result::Err(FrameError::Utf8Error);
                }
                match CommandKind::from_name(name) {
                    Option::Some(k) => Result::Ok(k),
                    Option::None => Result::Err(FrameError::UnknownCommand),
                }
            },
            _ => Result::Err(FrameError::InvalidFrame),
        }
    }
}

/// A command at the dispatch level: what the router needs to know to pick
/// the owning shard before the handler runs.
#[derive(Clone, Copy, Debug, PartialEq, Eq, Structural)]
pub enum Command {
    Get,
    SetCmd,
}

impl Command {
    /// The registry identifier of this command.
    pub open spec fn spec_kind(&self) -> CommandKind {
        match *self {
            Command::Get => CommandKind::Get,
            Command::SetCmd => CommandKind::SetCmd,
        }
    }

    /// The registry identifier of this command.
    #[verifier::when_used_as_spec(spec_kind)]
    pub fn kind(&self) -> (r: CommandKind)
        ensures
            r == self.spec_kind(),
    {
        match *self {
            Command::Get => CommandKind::Get,
            Command::SetCmd => CommandKind::SetCmd,
        }
    }

    /// Extract the command's key — the first argument, which must be
    /// string-like — and route it on the ring to the owning shard.
    pub fn route(&self, args: &[Frame], ring: &ConsistentHashRing) -> (r: Result<
        usize,
        CommandExecutionError,
    >)
        requires
            ring.wf(),
        ensures
            match crate::handlers::arg_key(frames_view(args@)) {
                Option::None => r matches Err(e) && e@ == CmdErrV::WrongArity(self.kind()),
                Option::Some(k) => r matches Ok(i) && i == spec_route(ring@, xxhash64_of(k)),
            },
    {
        proof {
            if args@.len() > 0 {
                assert(frames_view(args@)[0] == crate::codec::frame_view(args@[0]));
            }
        }
        if args.len() < 1 {
            return Result::Err(CommandExecutionError::WrongArity(self.kind()));
        }
        let key: &Vec<u8> = match &args[0] {
            Frame::Simple(d) => d,
            Frame::Bulk(d) => d,
            _ => {
                return Result::Err(CommandExecutionError::WrongArity(self.kind()));
            },
        };
        Result::Ok(ring.get_shard(key))
    }
}

} // verus!
