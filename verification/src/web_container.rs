//! The record that holds the web app: metadata, and the packed app itself.
//!
//! ```text
//! [metadata length: u64 BE][metadata][app length: u64 BE][app]
//! ```

use crate::bytes::{
    be_bytes, be_value, lemma_be_bytes_read_back, lemma_pow256_of_eight, pow256, push_all, push_be,
    read_be64,
};
use crate::crypto::{Signature, SigningKey};
use vstd::prelude::*;
use vstd::string::*;

verus! {

/// What the publisher signs: the version, then the app.
pub open spec fn release_bytes(version: u32, webapp: Seq<u8>) -> Seq<u8> {
    be_bytes(version as nat, 4) + webapp
}

/// What the publisher signs. With the version in it, an old release cannot
/// pass for a newer one.
pub fn signing_bytes(version: u32, webapp: &[u8]) -> (r: Vec<u8>)
    ensures
        r@ == release_bytes(version, webapp@),
{
    let mut message: Vec<u8> = Vec::new();
    push_be(&mut message, version as u64, 4);
    push_all(&mut message, webapp);
    assert(message@ =~= release_bytes(version, webapp@));
    message
}

#[derive(Debug, Clone, Copy, PartialEq, Eq)]
pub struct WebContainerMetadata {
    /// Counts the releases; 0 is no release.
    pub version: u32,
    /// The publisher's signature over [`signing_bytes`].
    pub signature: Signature,
}

/// Sign a release.
pub fn sign_release(publisher: &SigningKey, version: u32, webapp: &[u8]) -> (r:
    WebContainerMetadata)
    ensures
        r.version == version,
        r.signature == publisher.signed(release_bytes(version, webapp@)),
{
    let message = signing_bytes(version, webapp);
    WebContainerMetadata { version, signature: publisher.sign(message.as_slice()) }
}

pub open spec fn framed(metadata: Seq<u8>, webapp: Seq<u8>) -> Seq<u8> {
    be_bytes(metadata.len(), 8) + metadata + be_bytes(webapp.len(), 8) + webapp
}

/// Put the record together.
pub fn encode_state(metadata_cbor: &[u8], webapp: &[u8]) -> (r: Vec<u8>)
    ensures
        r@ == framed(metadata_cbor@, webapp@),
{
    let mut out: Vec<u8> = Vec::new();
    push_be(&mut out, metadata_cbor.len() as u64, 8);
    push_all(&mut out, metadata_cbor);
    push_be(&mut out, webapp.len() as u64, 8);
    push_all(&mut out, webapp);
    assert(out@ =~= framed(metadata_cbor@, webapp@));
    out
}

/// The eight-byte length that stands at `at`.
pub open spec fn length_at(state: Seq<u8>, at: int) -> int {
    be_value(state.subrange(at, at + 8)) as int
}

/// The two parts of a record, or what is wrong with it.
pub open spec fn unframed(state: Seq<u8>) -> Result<(Seq<u8>, Seq<u8>), Seq<char>> {
    if state.len() < 8 {
        Err("truncated length field"@)
    } else {
        let end = 8 + length_at(state, 0);
        if end > usize::MAX {
            Err("metadata length overflows"@)
        } else if end > state.len() {
            Err("truncated metadata"@)
        } else if end + 8 > usize::MAX {
            Err("length field overflows"@)
        } else if end + 8 > state.len() {
            Err("truncated length field"@)
        } else {
            let web_end = end + 8 + length_at(state, end);
            if web_end > usize::MAX {
                Err("web length overflows"@)
            } else if web_end > state.len() {
                Err("truncated web archive"@)
            } else {
                Ok((state.subrange(8, end), state.subrange(end + 8, web_end)))
            }
        }
    }
}

/// Split a record into its metadata and its app.
pub fn decode_state(state: &[u8]) -> (r: Result<(&[u8], &[u8]), String>)
    ensures
        match r {
            Ok((metadata, webapp)) => unframed(state@) == Ok::<(Seq<u8>, Seq<u8>), Seq<char>>(
                (metadata@, webapp@),
            ),
            Err(e) => unframed(state@) == Err::<(Seq<u8>, Seq<u8>), Seq<char>>(e@),
        },
{
    if state.len() < 8 {
        return Err("truncated length field".to_string());
    }
    let metadata_len = read_be64(state, 0);
    if metadata_len > (usize::MAX - 8) as u64 {
        return Err("metadata length overflows".to_string());
    }
    let metadata_end: usize = 8 + metadata_len as usize;
    if metadata_end > state.len() {
        return Err("truncated metadata".to_string());
    }
    if metadata_end > usize::MAX - 8 {
        return Err("length field overflows".to_string());
    }
    let web_start: usize = metadata_end + 8;
    if web_start > state.len() {
        return Err("truncated length field".to_string());
    }
    let web_len = read_be64(state, metadata_end);
    if web_len > (usize::MAX - web_start) as u64 {
        return Err("web length overflows".to_string());
    }
    let web_end: usize = web_start + web_len as usize;
    if web_end > state.len() {
        return Err("truncated web archive".to_string());
    }
    let metadata = vstd::slice::slice_subrange(state, 8, metadata_end);
    let webapp = vstd::slice::slice_subrange(state, web_start, web_end);
    Ok((metadata, webapp))
}

/// A record that was put together comes apart into the same two parts, with
/// whatever follows it.
pub proof fn law_records_come_apart(metadata: Seq<u8>, webapp: Seq<u8>, rest: Seq<u8>)
    requires
        metadata.len() + webapp.len() + rest.len() + 16 <= usize::MAX,
    ensures
        unframed(framed(metadata, webapp) + rest) == Ok::<(Seq<u8>, Seq<u8>), Seq<char>>(
            (metadata, webapp),
        ),
{
    lemma_pow256_of_eight();
    lemma_be_bytes_read_back(metadata.len(), 8);
    lemma_be_bytes_read_back(webapp.len(), 8);
    let s = framed(metadata, webapp) + rest;
    let end = 8 + metadata.len() as int;
    assert(s.subrange(0, 8) =~= be_bytes(metadata.len(), 8));
    assert(s.subrange(end, end + 8) =~= be_bytes(webapp.len(), 8));
    assert(s.subrange(8, end) =~= metadata);
    assert(s.subrange(end + 8, end + 8 + webapp.len() as int) =~= webapp);
}

/// A record that was cut short does not come apart.
pub proof fn law_truncated_records_are_refused(metadata: Seq<u8>, webapp: Seq<u8>, cut: int)
    requires
        metadata.len() + webapp.len() + 16 <= usize::MAX,
        0 <= cut < framed(metadata, webapp).len(),
    ensures
        unframed(framed(metadata, webapp).take(cut)) is Err,
{
    lemma_pow256_of_eight();
    lemma_be_bytes_read_back(metadata.len(), 8);
    lemma_be_bytes_read_back(webapp.len(), 8);
    let s = framed(metadata, webapp);
    let t = s.take(cut);
    let end = 8 + metadata.len() as int;
    if cut >= 8 {
        assert(t.subrange(0, 8) =~= be_bytes(metadata.len(), 8));
        if cut >= end + 8 {
            assert(t.subrange(end, end + 8) =~= be_bytes(webapp.len(), 8));
        }
    }
}

/// One app under two versions is signed as two different things.
pub proof fn law_version_changes_what_is_signed(a: u32, b: u32, webapp: Seq<u8>)
    requires
        release_bytes(a, webapp) == release_bytes(b, webapp),
    ensures
        a == b,
{
    lemma_be_bytes_read_back(a as nat, 4);
    lemma_be_bytes_read_back(b as nat, 4);
    assert(release_bytes(a, webapp).take(4) =~= be_bytes(a as nat, 4));
    assert(release_bytes(b, webapp).take(4) =~= be_bytes(b as nat, 4));
    assert(pow256(4) == 0x1_0000_0000) by {
        reveal_with_fuel(pow256, 5);
    }
}

} // verus!
