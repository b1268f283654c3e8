//! The decisions behind rewriting a bot descriptor.
//!
//! The descriptor itself is a table document the surrounding binary parses
//! and re-emits; this module decides what goes into it: whether the
//! descriptor may be used at all, which run commands its settings receive,
//! and which sibling assets are copied.

use vstd::prelude::*;

use crate::bytes::clone_bytes;
use crate::codec::copy_range;
use crate::tree::{is_strictly_under, path_strictly_under};

verus! {

/// Why a descriptor rewrite was refused.
#[derive(Debug, PartialEq, Eq, Structural, Clone, Copy)]
pub enum BotConfigError {
    /// The canonical descriptor path lies outside the project root.
    OutsideProjectRoot,
    /// The build produced no Windows binary.
    NoWindowsBinary,
}

/// The run commands a rewritten descriptor's settings receive.  A missing
/// Linux command means any pre-existing one is removed.
#[derive(Debug, PartialEq, Eq)]
pub struct RunCommands {
    pub run_command: Vec<u8>,
    pub run_command_linux: Option<Vec<u8>>,
}

/// May this canonical descriptor path be used under this project root?
/// Escapes via `..` resolve outside the root and are rejected.
pub fn descriptor_within_root(descriptor: &[u8], root: &[u8]) -> (r: bool)
    ensures
        r == (descriptor@ == root@ || is_strictly_under(descriptor@, root@)),
{
    if crate::bytes::bytes_eq(descriptor, root) {
        true
    } else {
        path_strictly_under(descriptor, root)
    }
}

/// The path of `abs` relative to the root it lies strictly under.
pub fn rel_to_root(abs: &[u8], root: &[u8]) -> (r: Option<Vec<u8>>)
    ensures
        match r {
            Option::Some(rel) => is_strictly_under(abs@, root@) && rel@ == abs@.subrange(
                root@.len() + 1int,
                abs@.len() as int,
            ),
            Option::None => !is_strictly_under(abs@, root@),
        },
{
    if path_strictly_under(abs, root) {
        let rl = root.len();
        let al = abs.len();
        proof {
            assert(rl < al);
        }
        Option::Some(copy_range(abs, rl + 1, al))
    } else {
        Option::None
    }
}

/// Decide the run commands for a descriptor.
///
/// Without a Windows binary the rewrite fails; with one, `run_command` is
/// its root-relative path, and `run_command_linux` is the Linux binary's
/// when one exists and is removed otherwise.
pub fn run_command_updates(
    windows_rel: &Option<Vec<u8>>,
    linux_rel: &Option<Vec<u8>>,
) -> (r: Result<RunCommands, BotConfigError>)
    ensures
        match windows_rel {
            Option::None => r matches Result::Err(e) && e == BotConfigError::NoWindowsBinary,
            Option::Some(w) => r matches Result::Ok(rc) && rc.run_command@ == w@ && (
            match linux_rel {
                Option::Some(l) => rc.run_command_linux matches Option::Some(rl) && rl@ == l@,
                Option::None => rc.run_command_linux is None,
            }),
        },
{
    match windows_rel {
        Option::None => Result::Err(BotConfigError::NoWindowsBinary),
        Option::Some(w) => Result::Ok(
            RunCommands {
                run_command: clone_bytes(w),
                run_command_linux: match linux_rel {
                    Option::Some(l) => Option::Some(clone_bytes(l)),
                    Option::None => Option::None,
                },
            },
        ),
    }
}

/// The default logo file name, `logo.png`.
pub open spec fn default_logo() -> Seq<u8> {
    seq![108u8, 111u8, 103u8, 111u8, 46u8, 112u8, 110u8, 103u8]
}

/// The logo file named by the settings, or the default `logo.png`.
pub fn logo_file_name(configured: &Option<Vec<u8>>) -> (r: Vec<u8>)
    ensures
        match configured {
            Option::Some(c) => r@ == c@,
            Option::None => r@ == default_logo(),
        },
{
    match configured {
        Option::Some(c) => clone_bytes(c),
        Option::None => {
            let mut r: Vec<u8> = Vec::new();
            r.push(108);
            r.push(111);
            r.push(103);
            r.push(111);
            r.push(46);
            r.push(112);
            r.push(110);
            r.push(103);
            proof {
                assert(r@ =~= default_logo());
            }
            r
        },
    }
}

} // verus!
