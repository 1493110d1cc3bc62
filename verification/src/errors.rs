//! The error taxonomy: frame-level errors from parsing incoming frames,
//! key-access errors, and command-execution errors.  Every error converts
//! to a wire error frame whose payload is the error's message.

use vstd::prelude::*;

use crate::codec::Frame;
use crate::codec::FrameV;
use crate::codec::push_all;
use crate::commands::kind_name;
use crate::commands::CommandKind;

verus! {

/// Errors found while interpreting an incoming frame as a command.
#[derive(Clone, Copy, Debug, PartialEq, Eq, Structural)]
pub enum FrameError {
    /// The frame, or its first element, is of the wrong kind.
    InvalidFrame,
    /// The command array is empty.
    MissingCommand,
    /// The command name is not valid UTF-8.
    Utf8Error,
    /// The name matches no registered command.
    UnknownCommand,
}

/// Errors of key access and expiration.
#[derive(Clone, Copy, Debug, PartialEq, Eq, Structural)]
pub enum ExecutionError {
    KeyExpired,
    KeyNotFound,
}

/// Errors raised by a command handler while checking its arguments and
/// parameters.  The store is never changed when one of these is returned.
#[derive(Debug, PartialEq, Eq)]
pub enum CommandExecutionError {
    /// The handler was given too few arguments, or a key of the wrong kind.
    WrongArity(CommandKind),
    /// A TTL value that is not a positive number of units.
    InvalidExpire,
    /// A TTL flag with no value after it.
    MissingExpire,
    /// An unrecognized or repeated option token.
    SyntaxError(Vec<u8>),
    /// Options that contradict each other.
    InvalidParams(CommandKind),
    /// No handler is registered for the command.
    UnknownCommand,
}

/// The mathematical model of a [`CommandExecutionError`].
pub enum CmdErrV {
    WrongArity(CommandKind),
    InvalidExpire,
    MissingExpire,
    SyntaxError(Seq<u8>),
    InvalidParams(CommandKind),
    UnknownCommand,
}

impl View for CommandExecutionError {
    type V = CmdErrV;

    open spec fn view(&self) -> CmdErrV {
        match *self {
            CommandExecutionError::WrongArity(k) => CmdErrV::WrongArity(k),
            CommandExecutionError::InvalidExpire => CmdErrV::InvalidExpire,
            CommandExecutionError::MissingExpire => CmdErrV::MissingExpire,
            CommandExecutionError::SyntaxError(ref t) => CmdErrV::SyntaxError(t@),
            CommandExecutionError::InvalidParams(k) => CmdErrV::InvalidParams(k),
            CommandExecutionError::UnknownCommand => CmdErrV::UnknownCommand,
        }
    }
}

/// The message of a frame-level error.
pub open spec fn frame_err_msg(e: FrameError) -> Seq<u8> {
    match e {
        FrameError::InvalidFrame => seq![69u8, 82u8, 82u8, 32u8, 105u8, 110u8, 118u8, 97u8, 108u8, 105u8, 100u8, 32u8, 102u8, 114u8, 97u8, 109u8, 101u8, 32u8, 116u8, 121u8, 112u8, 101u8],
        FrameError::MissingCommand => seq![69u8, 82u8, 82u8, 32u8, 109u8, 105u8, 115u8, 115u8, 105u8, 110u8, 103u8, 32u8, 99u8, 111u8, 109u8, 109u8, 97u8, 110u8, 100u8, 32u8, 105u8, 110u8, 32u8, 97u8, 114u8, 114u8, 97u8, 121u8],
        FrameError::Utf8Error => seq![69u8, 82u8, 82u8, 32u8, 105u8, 110u8, 118u8, 97u8, 108u8, 105u8, 100u8, 32u8, 85u8, 84u8, 70u8, 45u8, 56u8, 32u8, 105u8, 110u8, 32u8, 99u8, 111u8, 109u8, 109u8, 97u8, 110u8, 100u8],
        FrameError::UnknownCommand => seq![69u8, 82u8, 82u8, 32u8, 117u8, 110u8, 107u8, 110u8, 111u8, 119u8, 110u8, 32u8, 99u8, 111u8, 109u8, 109u8, 97u8, 110u8, 100u8],
    }
}

/// The message of a key-access error.
pub open spec fn exec_err_msg(e: ExecutionError) -> Seq<u8> {
    match e {
        ExecutionError::KeyExpired => seq![69u8, 82u8, 82u8, 32u8, 107u8, 101u8, 121u8, 32u8, 104u8, 97u8, 115u8, 32u8, 101u8, 120u8, 112u8, 105u8, 114u8, 101u8, 100u8],
        ExecutionError::KeyNotFound => seq![69u8, 82u8, 82u8, 32u8, 107u8, 101u8, 121u8, 32u8, 110u8, 111u8, 116u8, 32u8, 102u8, 111u8, 117u8, 110u8, 100u8],
    }
}

/// The message of a command-execution error.
pub open spec fn cmd_err_msg(e: CmdErrV) -> Seq<u8> {
    match e {
        CmdErrV::WrongArity(k) => seq![69u8, 82u8, 82u8, 32u8, 119u8, 114u8, 111u8, 110u8, 103u8, 32u8, 110u8, 117u8, 109u8, 98u8, 101u8, 114u8, 32u8, 111u8, 102u8, 32u8, 97u8, 114u8, 103u8, 117u8, 109u8, 101u8, 110u8, 116u8, 115u8, 32u8, 102u8, 111u8, 114u8, 32u8, 39u8] + kind_name(k)
            + seq![39u8, 32u8, 99u8, 111u8, 109u8, 109u8, 97u8, 110u8, 100u8],
        CmdErrV::InvalidExpire => seq![69u8, 82u8, 82u8, 32u8, 105u8, 110u8, 118u8, 97u8, 108u8, 105u8, 100u8, 32u8, 101u8, 120u8, 112u8, 105u8, 114u8, 101u8, 32u8, 116u8, 105u8, 109u8, 101u8],
        CmdErrV::MissingExpire => seq![69u8, 82u8, 82u8, 32u8, 109u8, 105u8, 115u8, 115u8, 105u8, 110u8, 103u8, 32u8, 101u8, 120u8, 112u8, 105u8, 114u8, 101u8, 32u8, 116u8, 105u8, 109u8, 101u8],
        CmdErrV::SyntaxError(t) => seq![69u8, 82u8, 82u8, 32u8, 115u8, 121u8, 110u8, 116u8, 97u8, 120u8, 32u8, 101u8, 114u8, 114u8, 111u8, 114u8, 32u8, 110u8, 101u8, 97u8, 114u8, 32u8, 39u8] + t + seq![39u8],
        CmdErrV::InvalidParams(k) => seq![69u8, 82u8, 82u8, 32u8, 105u8, 110u8, 118u8, 97u8, 108u8, 105u8, 100u8, 32u8, 112u8, 97u8, 114u8, 97u8, 109u8, 101u8, 116u8, 101u8, 114u8, 115u8, 32u8, 102u8, 111u8, 114u8, 32u8, 99u8, 111u8, 109u8, 109u8, 97u8, 110u8, 100u8, 32u8, 39u8] + kind_name(k)
            + seq![39u8],
        CmdErrV::UnknownCommand => seq![69u8, 82u8, 82u8, 32u8, 117u8, 110u8, 107u8, 110u8, 111u8, 119u8, 110u8, 32u8, 99u8, 111u8, 109u8, 109u8, 97u8, 110u8, 100u8],
    }
}

impl FrameError {
    /// Present this error as a wire error frame carrying its message.
    pub fn to_frame(&self) -> (r: Frame)
        ensures
            r@ == FrameV::Error(frame_err_msg(*self)),
    {
        match *self {
            FrameError::InvalidFrame => Frame::Error(vec![69u8, 82u8, 82u8, 32u8, 105u8, 110u8, 118u8, 97u8, 108u8, 105u8, 100u8, 32u8, 102u8, 114u8, 97u8, 109u8, 101u8, 32u8, 116u8, 121u8, 112u8, 101u8]),
            FrameError::MissingCommand => Frame::Error(vec![69u8, 82u8, 82u8, 32u8, 109u8, 105u8, 115u8, 115u8, 105u8, 110u8, 103u8, 32u8, 99u8, 111u8, 109u8, 109u8, 97u8, 110u8, 100u8, 32u8, 105u8, 110u8, 32u8, 97u8, 114u8, 114u8, 97u8, 121u8]),
            FrameError::Utf8Error => Frame::Error(vec![69u8, 82u8, 82u8, 32u8, 105u8, 110u8, 118u8, 97u8, 108u8, 105u8, 100u8, 32u8, 85u8, 84u8, 70u8, 45u8, 56u8, 32u8, 105u8, 110u8, 32u8, 99u8, 111u8, 109u8, 109u8, 97u8, 110u8, 100u8]),
            FrameError::UnknownCommand => Frame::Error(vec![69u8, 82u8, 82u8, 32u8, 117u8, 110u8, 107u8, 110u8, 111u8, 119u8, 110u8, 32u8, 99u8, 111u8, 109u8, 109u8, 97u8, 110u8, 100u8]),
        }
    }
}

impl ExecutionError {
    /// Present this error as a wire error frame carrying its message.
    pub fn to_frame(&self) -> (r: Frame)
        ensures
            r@ == FrameV::Error(exec_err_msg(*self)),
    {
        match *self {
            ExecutionError::KeyExpired => Frame::Error(vec![69u8, 82u8, 82u8, 32u8, 107u8, 101u8, 121u8, 32u8, 104u8, 97u8, 115u8, 32u8, 101u8, 120u8, 112u8, 105u8, 114u8, 101u8, 100u8]),
            ExecutionError::KeyNotFound => Frame::Error(vec![69u8, 82u8, 82u8, 32u8, 107u8, 101u8, 121u8, 32u8, 110u8, 111u8, 116u8, 32u8, 102u8, 111u8, 117u8, 110u8, 100u8]),
        }
    }
}

impl CommandExecutionError {
    /// Present this error as a wire error frame carrying its message.
    pub fn to_frame(&self) -> (r: Frame)
        ensures
            r@ == FrameV::Error(cmd_err_msg(self@)),
    {
        match self {
            CommandExecutionError::WrongArity(k) => {
                let mut m: Vec<u8> = vec![69u8, 82u8, 82u8, 32u8, 119u8, 114u8, 111u8, 110u8, 103u8, 32u8, 110u8, 117u8, 109u8, 98u8, 101u8, 114u8, 32u8, 111u8, 102u8, 32u8, 97u8, 114u8, 103u8, 117u8, 109u8, 101u8, 110u8, 116u8, 115u8, 32u8, 102u8, 111u8, 114u8, 32u8, 39u8];
                let name = k.name_bytes();
                push_all(&mut m, name.as_slice());
                let tail: Vec<u8> = vec![39u8, 32u8, 99u8, 111u8, 109u8, 109u8, 97u8, 110u8, 100u8];
                push_all(&mut m, tail.as_slice());
                proof {
                    assert(m@ =~= cmd_err_msg(self@));
                }
                Frame::Error(m)
            },
            CommandExecutionError::InvalidExpire => Frame::Error(vec![69u8, 82u8, 82u8, 32u8, 105u8, 110u8, 118u8, 97u8, 108u8, 105u8, 100u8, 32u8, 101u8, 120u8, 112u8, 105u8, 114u8, 101u8, 32u8, 116u8, 105u8, 109u8, 101u8]),
            CommandExecutionError::MissingExpire => Frame::Error(vec![69u8, 82u8, 82u8, 32u8, 109u8, 105u8, 115u8, 115u8, 105u8, 110u8, 103u8, 32u8, 101u8, 120u8, 112u8, 105u8, 114u8, 101u8, 32u8, 116u8, 105u8, 109u8, 101u8]),
            CommandExecutionError::SyntaxError(t) => {
                let mut m: Vec<u8> = vec![69u8, 82u8, 82u8, 32u8, 115u8, 121u8, 110u8, 116u8, 97u8, 120u8, 32u8, 101u8, 114u8, 114u8, 111u8, 114u8, 32u8, 110u8, 101u8, 97u8, 114u8, 32u8, 39u8];
                push_all(&mut m, t.as_slice());
                let tail: Vec<u8> = vec![39u8];
                push_all(&mut m, tail.as_slice());
                proof {
                    assert(m@ =~= cmd_err_msg(self@));
                }
                Frame::Error(m)
            },
            CommandExecutionError::InvalidParams(k) => {
                let mut m: Vec<u8> = vec![69u8, 82u8, 82u8, 32u8, 105u8, 110u8, 118u8, 97u8, 108u8, 105u8, 100u8, 32u8, 112u8, 97u8, 114u8, 97u8, 109u8, 101u8, 116u8, 101u8, 114u8, 115u8, 32u8, 102u8, 111u8, 114u8, 32u8, 99u8, 111u8, 109u8, 109u8, 97u8, 110u8, 100u8, 32u8, 39u8];
                let name = k.name_bytes();
                push_all(&mut m, name.as_slice());
                let tail: Vec<u8> = vec![39u8];
                push_all(&mut m, tail.as_slice());
                proof {
                    assert(m@ =~= cmd_err_msg(self@));
                }
                Frame::Error(m)
            },
            CommandExecutionError::UnknownCommand => Frame::Error(vec![69u8, 82u8, 82u8, 32u8, 117u8, 110u8, 107u8, 110u8, 111u8, 119u8, 110u8, 32u8, 99u8, 111u8, 109u8, 109u8, 97u8, 110u8, 100u8]),
        }
    }
}

} // verus!
