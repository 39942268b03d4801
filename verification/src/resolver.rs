//! Classifying a request target against the served root.

use crate::bytes::{append, contains, contains_seq, copy_bytes, occurs_at, starts_with};
use vstd::prelude::*;
use vstd::string::*;

verus! {

/// What the filesystem says of a candidate path.
pub struct Probe {
    /// The absolute, canonical form of the candidate; `None` where the path
    /// could not be resolved.
    pub canonical: Option<Vec<u8>>,
    /// The canonical path names a directory.
    pub is_dir: bool,
}

/// The class of a request target.
#[derive(Debug, PartialEq, Eq)]
pub enum Resolution {
    /// The target names a file under the served root: its canonical path.
    Found(Vec<u8>),
    /// The target does not exist or names a directory.
    NotFound,
    /// The target resolves to a path outside the served root.
    Forbidden,
    /// The target is reserved for administrators and the client is none.
    Unauthorized,
}

/// The mathematical value of a `Resolution`.
pub ghost enum Outcome {
    Found(Seq<u8>),
    NotFound,
    Forbidden,
    Unauthorized,
}

impl View for Resolution {
    type V = Outcome;

    open spec fn view(&self) -> Outcome {
        match self {
            Resolution::Found(p) => Outcome::Found(p@),
            Resolution::NotFound => Outcome::NotFound,
            Resolution::Forbidden => Outcome::Forbidden,
            Resolution::Unauthorized => Outcome::Unauthorized,
        }
    }
}

impl View for Probe {
    type V = (Option<Seq<u8>>, bool);

    open spec fn view(&self) -> (Option<Seq<u8>>, bool) {
        (
            match self.canonical {
                Some(p) => Some(p@),
                None => None,
            },
            self.is_dir,
        )
    }
}

/// The marker of an administrator-only target.
pub open spec fn admin_marker() -> Seq<u8> {
    "ADMIN".spec_bytes()
}

/// The class of `target`, given the served root in absolute form, what the
/// filesystem said of the candidate path, and whether the client is an
/// administrator. The tests apply in this order: missing or a directory, then
/// outside the root, then reserved.
pub open spec fn resolve(
    target: Seq<u8>,
    root: Seq<u8>,
    probe: (Option<Seq<u8>>, bool),
    is_admin: bool,
) -> Outcome {
    match probe.0 {
        None => Outcome::NotFound,
        Some(path) => if probe.1 {
            Outcome::NotFound
        } else if !occurs_at(path, root, 0) {
            Outcome::Forbidden
        } else if contains_seq(target, admin_marker()) && !is_admin {
            Outcome::Unauthorized
        } else {
            Outcome::Found(path)
        },
    }
}

/// The path to hand to the filesystem: the served root, a slash, the target.
pub open spec fn candidate_of(root: Seq<u8>, target: Seq<u8>) -> Seq<u8> {
    root.push(47u8) + target
}

/// The candidate path for `target` under `root`.
pub fn candidate(root: &[u8], target: &[u8]) -> (r: Vec<u8>)
    ensures
        r@ == candidate_of(root@, target@),
{
    let mut out: Vec<u8> = copy_bytes(root);
    out.push(47u8);
    append(&mut out, target);
    out
}

/// Whether `target` is reserved for administrators.
pub fn is_reserved(target: &[u8]) -> (r: bool)
    ensures
        r == contains_seq(target@, admin_marker()),
{
    contains(target, "ADMIN".as_bytes())
}

/// Classifies `target`.
pub fn classify(target: &[u8], root: &[u8], probe: Probe, is_admin: bool) -> (r: Resolution)
    ensures
        r@ == resolve(target@, root@, probe@, is_admin),
{
    match probe.canonical {
        None => Resolution::NotFound,
        Some(path) => {
            if probe.is_dir {
                Resolution::NotFound
            } else if !starts_with(path.as_slice(), root) {
                Resolution::Forbidden
            } else if is_reserved(target) && !is_admin {
                Resolution::Unauthorized
            } else {
                Resolution::Found(path)
            }
        },
    }
}

} // verus!
