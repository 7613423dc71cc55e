use crate::codec::COLON;
use crate::errors::CoreError;
use crate::token::Privilege;
use vstd::prelude::*;

verus! {

pub const SLASH: u8 = 0x2f;

pub const BACKSLASH: u8 = 0x5c;

pub const DOT: u8 = 0x2e;

/// A protocol name must be a bare file name: nonempty, free of path
/// separators and of the two traversal names.
pub open spec fn valid_protocol_name(s: Seq<u8>) -> bool {
    &&& s.len() > 0
    &&& forall|i: int| 0 <= i < s.len() ==> #[trigger] s[i] != SLASH && s[i] != BACKSLASH
    &&& s != seq![DOT]
    &&& s != seq![DOT, DOT]
}

pub fn check_protocol_name(name: &[u8]) -> (r: bool)
    ensures
        r == valid_protocol_name(name@),
{
    if name.len() == 0 {
        return false;
    }
    if name.len() == 1 && name[0] == DOT {
        proof {
            assert(name@ =~= seq![DOT]);
        }
        return false;
    }
    if name.len() == 2 && name[0] == DOT && name[1] == DOT {
        proof {
            assert(name@ =~= seq![DOT, DOT]);
        }
        return false;
    }
    let mut i: usize = 0;
    while i < name.len()
        invariant
            i <= name@.len(),
            forall|j: int| 0 <= j < i ==> #[trigger] name@[j] != SLASH && name@[j] != BACKSLASH,
        decreases name@.len() - i,
    {
        if name[i] == SLASH || name[i] == BACKSLASH {
            return false;
        }
        i = i + 1;
    }
    proof {
        if name@ == seq![DOT] {
            assert(name@.len() == 1 && name@[0] == DOT);
        }
        if name@ == seq![DOT, DOT] {
            assert(name@.len() == 2 && name@[0] == DOT && name@[1] == DOT);
        }
    }
    true
}

/// What the supervisor reads out of a protocol manifest: the entrypoint and
/// the declared sources. Everything else in the document is ignored.
pub struct Manifest {
    pub entrypoint: Option<Vec<u8>>,
    pub git_url: Option<Vec<u8>>,
    pub git_commit: Option<Vec<u8>>,
    pub has_platform_binary: bool,
    pub has_archive_source: bool,
}

/// How a protocol absent from disk is fetched: only the git source, cloned at
/// its exact commit, is supported; a manifest that offers only a platform
/// binary or an archive is declared unimplemented; one that offers nothing is
/// damaged.
pub fn resolve_fetch(m: &Manifest) -> (r: Result<(&Vec<u8>, &Vec<u8>), CoreError>)
    ensures
        r matches Ok(p) ==> (m.git_url matches Some(u) && p.0@ == u@) && (m.git_commit
            matches Some(c) && p.1@ == c@),
        r matches Err(e) ==> !(m.git_url is Some && m.git_commit is Some) && ((e
            == CoreError::Unimplemented && (m.has_platform_binary || m.has_archive_source)) || (e
            == CoreError::NotFound && !m.has_platform_binary && !m.has_archive_source)),
{
    match (&m.git_url, &m.git_commit) {
        (Some(u), Some(c)) => Ok((u, c)),
        _ => {
            if m.has_platform_binary || m.has_archive_source {
                Err(CoreError::Unimplemented)
            } else {
                Err(CoreError::NotFound)
            }
        },
    }
}

/// The launch gate: the core must know its own address, and the manifest must
/// name an entrypoint.
pub fn resolve_entrypoint<'a>(m: &'a Manifest, core_uri_known: bool) -> (r: Result<
    &'a Vec<u8>,
    CoreError,
>)
    ensures
        r matches Ok(e) ==> core_uri_known && (m.entrypoint matches Some(x) && e@ == x@),
        r matches Err(e) ==> (e == CoreError::Internal && !core_uri_known) || (e
            == CoreError::NotFound && core_uri_known && m.entrypoint is None),
{
    if !core_uri_known {
        return Err(CoreError::Internal);
    }
    match &m.entrypoint {
        Some(e) => Ok(e),
        None => Err(CoreError::NotFound),
    }
}

/// Who may stop a running instance: the host, or the user who owns it.
pub fn may_stop_instance(privilege: Privilege, caller_user: &[u8], owner: &[u8]) -> (r: bool)
    ensures
        r == (privilege == Privilege::Host || caller_user@ == owner@),
{
    privilege == Privilege::Host || crate::codec::bytes_eq(caller_user, owner)
}

/// The storage key one field of a namespaced record lives under:
/// `<namespace>:<record>:<field>`.
pub open spec fn namespaced_key_of(ns: Seq<u8>, record: Seq<u8>, field: Seq<u8>) -> Seq<u8> {
    ns + seq![COLON] + record + seq![COLON] + field
}

pub fn namespaced_key(ns: &[u8], record: &[u8], field: &[u8]) -> (r: Vec<u8>)
    ensures
        r@ == namespaced_key_of(ns@, record@, field@),
{
    let mut r: Vec<u8> = Vec::new();
    r.extend_from_slice(ns);
    r.push(COLON);
    r.extend_from_slice(record);
    r.push(COLON);
    r.extend_from_slice(field);
    proof {
        assert(r@ =~= namespaced_key_of(ns@, record@, field@));
    }
    r
}

} // verus!
