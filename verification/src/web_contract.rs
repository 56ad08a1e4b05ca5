//! The contract that hosts the web app.
//!
//! Its parameters are the publisher's key, so that its address tells who may
//! publish there. Releases are counted, and an older one never takes the place
//! of a newer one, though both are signed.

use crate::bytes::{array_from, be_bytes, be_value, push_be};
use crate::crypto::{
    ed25519_check_key, ed25519_verify_strict, key_fault, strict_fault, VerifyingKey,
};
use crate::text::{digits, join2, with_number};
use crate::web_container::{
    decode_state, release_bytes, signing_bytes, unframed, WebContainerMetadata,
};
use vstd::prelude::*;
use vstd::string::*;

verus! {

/// How long the metadata may be, in bytes.
pub const MAX_METADATA_SIZE: usize = 1024;

/// How long the app may be, in bytes.
pub const MAX_WEB_SIZE: usize = 104_857_600;

/// Why a state or an update is refused.
#[derive(Debug, PartialEq, Eq)]
pub enum ContractFault {
    /// The parameters or the sizes are wrong.
    Other(String),
    /// The bytes cannot be read.
    Deser(String),
    InvalidState,
    InvalidUpdate,
    /// The signature does not hold.
    InvalidSignature(String),
}

/// A refusal by what it says.
#[verifier::ext_equal]
pub enum Refusal {
    Other(Seq<char>),
    Deser(Seq<char>),
    InvalidState,
    InvalidUpdate,
    InvalidSignature(Seq<char>),
}

impl View for ContractFault {
    type V = Refusal;

    open spec fn view(&self) -> Refusal {
        match *self {
            ContractFault::Other(s) => Refusal::Other(s@),
            ContractFault::Deser(s) => Refusal::Deser(s@),
            ContractFault::InvalidState => Refusal::InvalidState,
            ContractFault::InvalidUpdate => Refusal::InvalidUpdate,
            ContractFault::InvalidSignature(s) => Refusal::InvalidSignature(s@),
        }
    }
}

/// A state, and what its metadata reads as. Where the bytes do not come apart
/// it does not matter what is read.
#[derive(Debug, PartialEq, Eq)]
pub struct Release {
    pub state: Vec<u8>,
    pub metadata: Result<WebContainerMetadata, String>,
}

/// A state and its metadata, by what they hold.
#[verifier::ext_equal]
pub struct ReleaseView {
    pub state: Seq<u8>,
    pub metadata: Result<WebContainerMetadata, Seq<char>>,
}

impl View for Release {
    type V = ReleaseView;

    open spec fn view(&self) -> ReleaseView {
        ReleaseView {
            state: self.state@,
            metadata: match self.metadata {
                Ok(m) => Ok(m),
                Err(e) => Err(e@),
            },
        }
    }
}

/// What may come with an update.
#[derive(Debug, PartialEq, Eq)]
pub enum Offer {
    /// A whole state.
    Whole(Release),
    /// Anything else: there is nothing that an app could be patched with.
    Partial,
}

/// An offer, by what it holds.
#[verifier::ext_equal]
pub enum OfferView {
    Whole(ReleaseView),
    Partial,
}

impl View for Offer {
    type V = OfferView;

    open spec fn view(&self) -> OfferView {
        match *self {
            Offer::Whole(r) => OfferView::Whole(r@),
            Offer::Partial => OfferView::Partial,
        }
    }
}

/// The publisher's key that the parameters are.
pub open spec fn publisher_of(parameters: Seq<u8>) -> [u8; 32] {
    choose|key: [u8; 32]| #[trigger] key@ == parameters
}

/// The version of a release, or why it is refused, the first thing first.
pub open spec fn checked_version(parameters: Seq<u8>, r: ReleaseView) -> Result<u32, Refusal> {
    let key = publisher_of(parameters);
    if parameters.len() != 32 {
        Err(
            Refusal::Other(
                "parameters must be a 32-byte verifying key, got "@ + digits(parameters.len())
                    + " bytes"@,
            ),
        )
    } else if key_fault(key) is Some {
        Err(Refusal::Other("invalid publisher key: "@ + key_fault(key)->0))
    } else {
        match unframed(r.state) {
            Err(e) => Err(Refusal::Deser(e)),
            Ok((metadata, webapp)) => if metadata.len() > MAX_METADATA_SIZE {
                Err(
                    Refusal::Other(
                        "metadata is "@ + digits(metadata.len()) + " bytes, over the 1024 limit"@,
                    ),
                )
            } else if webapp.len() > MAX_WEB_SIZE {
                Err(
                    Refusal::Other(
                        "webapp is "@ + digits(webapp.len()) + " bytes, over the 104857600 limit"@,
                    ),
                )
            } else {
                match r.metadata {
                    Err(e) => Err(Refusal::Deser("could not decode metadata: "@ + e)),
                    Ok(m) => if m.version == 0 {
                        Err(Refusal::InvalidState)
                    } else {
                        match strict_fault(key, release_bytes(m.version, webapp), m.signature.0) {
                            Some(e) => Err(
                                Refusal::InvalidSignature(
                                    "webapp signature does not verify: "@ + e,
                                ),
                            ),
                            None => Ok(m.version),
                        }
                    },
                }
            },
        }
    }
}

/// The version of a state, or why it is refused. An empty state is version 0.
pub open spec fn state_version(parameters: Seq<u8>, r: ReleaseView) -> Result<u32, Refusal> {
    if r.state.len() == 0 {
        Ok(0)
    } else {
        checked_version(parameters, r)
    }
}

/// The state once offers have come in, with its version: of the releases the
/// newest stays, and the first thing that is wrong ends it.
pub open spec fn newest(
    parameters: Seq<u8>,
    current: (u32, Seq<u8>),
    offers: Seq<OfferView>,
) -> Result<(u32, Seq<u8>), Refusal>
    decreases offers.len(),
{
    if offers.len() == 0 {
        Ok(current)
    } else {
        match newest(parameters, current, offers.drop_last()) {
            Err(e) => Err(e),
            Ok(best) => match offers.last() {
                OfferView::Partial => Err(Refusal::InvalidUpdate),
                OfferView::Whole(r) => match checked_version(parameters, r) {
                    Err(e) => Err(e),
                    Ok(version) => if version > best.0 {
                        Ok((version, r.state))
                    } else {
                        Ok(best)
                    },
                },
            },
        }
    }
}

/// The version that a state's metadata tells, unchecked.
pub open spec fn told_version(r: ReleaseView) -> Result<u32, Refusal> {
    if r.state.len() == 0 {
        Ok(0)
    } else {
        match unframed(r.state) {
            Err(e) => Err(Refusal::Deser(e)),
            Ok(_) => match r.metadata {
                Err(e) => Err(Refusal::Deser(e)),
                Ok(m) => Ok(m.version),
            },
        }
    }
}

/// The version that a summary tells; 0 where it tells none.
pub open spec fn summary_version(summary: Seq<u8>) -> nat {
    if summary.len() == 4 {
        be_value(summary)
    } else {
        0
    }
}

/// What is told of a release.
pub open spec fn summary_of(r: ReleaseView) -> Result<Seq<u8>, Refusal> {
    match told_version(r) {
        Err(e) => Err(e),
        Ok(version) => Ok(be_bytes(version as nat, 4)),
    }
}

/// What is sent to a peer that told of its release: a newer one whole, or
/// nothing.
pub open spec fn sent_to(r: ReleaseView, summary: Seq<u8>) -> Result<Seq<u8>, Refusal> {
    match told_version(r) {
        Err(e) => Err(e),
        Ok(version) => if version > summary_version(summary) {
            Ok(r.state)
        } else {
            Ok(Seq::empty())
        },
    }
}

/// What a result is by what it holds.
pub open spec fn number_result(r: Result<u32, ContractFault>) -> Result<u32, Refusal> {
    match r {
        Ok(n) => Ok(n),
        Err(e) => Err(e@),
    }
}

pub open spec fn bytes_result(r: Result<Vec<u8>, ContractFault>) -> Result<Seq<u8>, Refusal> {
    match r {
        Ok(v) => Ok(v@),
        Err(e) => Err(e@),
    }
}

proof fn lemma_newest_stops(
    parameters: Seq<u8>,
    current: (u32, Seq<u8>),
    offers: Seq<OfferView>,
    n: int,
)
    requires
        0 <= n <= offers.len(),
        newest(parameters, current, offers.take(n)) is Err,
    ensures
        newest(parameters, current, offers) == newest(parameters, current, offers.take(n)),
    decreases offers.len(),
{
    if n == offers.len() {
        assert(offers.take(n) =~= offers);
    } else {
        assert(offers.drop_last().take(n) =~= offers.take(n));
        lemma_newest_stops(parameters, current, offers.drop_last(), n);
    }
}

pub open spec fn offers_held(s: Seq<Offer>) -> Seq<OfferView> {
    Seq::new(s.len(), |i: int| s[i]@)
}

/// The contract.
#[derive(Debug, Clone, Copy, PartialEq, Eq)]
pub struct WebContainerContract;

impl WebContainerContract {
    /// The publisher's key that the parameters are.
    fn publisher(parameters: &[u8]) -> (r: Result<VerifyingKey, ContractFault>)
        ensures
            match r {
                Ok(key) => parameters@.len() == 32 && key.0 == publisher_of(parameters@)
                    && key_fault(key.0) is None,
                Err(e) => (parameters@.len() != 32 || key_fault(publisher_of(parameters@)) is Some)
                    && forall|release: ReleaseView| #[trigger]
                    checked_version(parameters@, release) == Err::<u32, Refusal>(e@),
            },
    {
        if parameters.len() != 32 {
            return Err(
                ContractFault::Other(
                    with_number(
                        "parameters must be a 32-byte verifying key, got ",
                        parameters.len() as u128,
                        " bytes",
                    ),
                ),
            );
        }
        let key: [u8; 32] = array_from::<32>(parameters, 0);
        assert(key@ =~= parameters@);
        assert(publisher_of(parameters@)@ == key@);
        assert(publisher_of(parameters@) =~= key);
        match ed25519_check_key(&key) {
            Ok(()) => Ok(VerifyingKey(key)),
            Err(e) => Err(ContractFault::Other(join2("invalid publisher key: ", e.as_str()))),
        }
    }

    /// Check a release in full, and tell its version.
    pub fn validate_bytes(parameters: &[u8], release: &Release) -> (r: Result<u32, ContractFault>)
        ensures
            number_result(r) == checked_version(parameters@, release@),
    {
        let publisher = match WebContainerContract::publisher(parameters) {
            Ok(key) => key,
            Err(e) => {
                assert(checked_version(parameters@, release@) == Err::<u32, Refusal>(e@));
                return Err(e);
            },
        };
        let (metadata, webapp) = match decode_state(release.state.as_slice()) {
            Ok(parts) => parts,
            Err(e) => return Err(ContractFault::Deser(e)),
        };
        if metadata.len() > MAX_METADATA_SIZE {
            return Err(
                ContractFault::Other(
                    with_number(
                        "metadata is ",
                        metadata.len() as u128,
                        " bytes, over the 1024 limit",
                    ),
                ),
            );
        }
        if webapp.len() > MAX_WEB_SIZE {
            return Err(
                ContractFault::Other(
                    with_number(
                        "webapp is ",
                        webapp.len() as u128,
                        " bytes, over the 104857600 limit",
                    ),
                ),
            );
        }
        let m = match &release.metadata {
            Ok(m) => m,
            Err(e) => return Err(
                ContractFault::Deser(join2("could not decode metadata: ", e.as_str())),
            ),
        };
        if m.version == 0 {
            return Err(ContractFault::InvalidState);
        }
        let message = signing_bytes(m.version, webapp);
        match ed25519_verify_strict(&publisher.0, message.as_slice(), &m.signature.0) {
            Ok(()) => Ok(m.version),
            Err(e) => Err(
                ContractFault::InvalidSignature(
                    join2("webapp signature does not verify: ", e.as_str()),
                ),
            ),
        }
    }

    /// Whether a state may stand, and its version.
    pub fn validate_state(parameters: &[u8], release: &Release) -> (r: Result<u32, ContractFault>)
        ensures
            number_result(r) == state_version(parameters@, release@),
    {
        if release.state.len() == 0 {
            return Ok(0);
        }
        WebContainerContract::validate_bytes(parameters, release)
    }

    /// The state once an update has come in.
    pub fn update_state(parameters: &[u8], current: &Release, offers: &Vec<Offer>) -> (r: Result<
        Vec<u8>,
        ContractFault,
    >)
        ensures
            bytes_result(r) == (match state_version(parameters@, current@) {
                Err(e) => Err(e),
                Ok(version) => match newest(
                    parameters@,
                    (version, current@.state),
                    offers_held(offers@),
                ) {
                    Err(e) => Err(e),
                    Ok(best) => Ok(best.1),
                },
            }),
    {
        let version = match WebContainerContract::validate_state(parameters, current) {
            Ok(version) => version,
            Err(e) => return Err(e),
        };
        let mut best = vstd::slice::slice_to_vec(current.state.as_slice());
        let mut best_version = version;
        let ghost all = offers_held(offers@);
        let mut i: usize = 0;
        assert(all.take(0) =~= Seq::<OfferView>::empty());
        while i < offers.len()
            invariant
                i <= offers@.len(),
                all == offers_held(offers@),
                state_version(parameters@, current@) == Ok::<u32, Refusal>(version),
                newest(parameters@, (version, current@.state), all.take(i as int)) == Ok::<
                    (u32, Seq<u8>),
                    Refusal,
                >((best_version, best@)),
            decreases offers.len() - i,
        {
            let ghost next = all.take(i + 1);
            assert(next.drop_last() =~= all.take(i as int));
            assert(next.last() == offers@[i as int]@);
            let candidate = match &offers[i] {
                Offer::Whole(release) => release,
                Offer::Partial => {
                    proof {
                        lemma_newest_stops(parameters@, (version, current@.state), all, i + 1);
                    }
                    return Err(ContractFault::InvalidUpdate);
                },
            };
            let offered = match WebContainerContract::validate_bytes(parameters, candidate) {
                Ok(version) => version,
                Err(e) => {
                    proof {
                        lemma_newest_stops(parameters@, (version, current@.state), all, i + 1);
                    }
                    return Err(e);
                },
            };
            if offered > best_version {
                best_version = offered;
                best = vstd::slice::slice_to_vec(candidate.state.as_slice());
            }
            i = i + 1;
        }
        assert(all.take(all.len() as int) =~= all);
        Ok(best)
    }

    fn version_of(release: &Release) -> (r: Result<u32, ContractFault>)
        ensures
            number_result(r) == told_version(release@),
    {
        if release.state.len() == 0 {
            return Ok(0);
        }
        match decode_state(release.state.as_slice()) {
            Ok(_) => {},
            Err(e) => return Err(ContractFault::Deser(e)),
        }
        match &release.metadata {
            Ok(m) => Ok(m.version),
            Err(e) => Err(ContractFault::Deser(e.clone())),
        }
    }

    /// What to tell of a state: its version, which says all there is to say.
    pub fn summarize_state(release: &Release) -> (r: Result<Vec<u8>, ContractFault>)
        ensures
            bytes_result(r) == (match told_version(release@) {
                Err(e) => Err(e),
                Ok(version) => Ok(be_bytes(version as nat, 4)),
            }),
            bytes_result(r) == summary_of(release@),
    {
        let version = match WebContainerContract::version_of(release) {
            Ok(version) => version,
            Err(e) => return Err(e),
        };
        let mut out: Vec<u8> = Vec::new();
        push_be(&mut out, version as u64, 4);
        assert(out@ =~= be_bytes(version as nat, 4));
        Ok(out)
    }

    /// What to send to a peer that told of its state: the whole of a newer one,
    /// or nothing.
    pub fn get_state_delta(release: &Release, summary: &[u8]) -> (r: Result<
        Vec<u8>,
        ContractFault,
    >)
        ensures
            bytes_result(r) == (match told_version(release@) {
                Err(e) => Err(e),
                Ok(version) => if version > summary_version(summary@) {
                    Ok(release@.state)
                } else {
                    Ok(Seq::empty())
                },
            }),
            bytes_result(r) == sent_to(release@, summary@),
    {
        let theirs: u64 = read_summary(summary);
        let ours = match WebContainerContract::version_of(release) {
            Ok(version) => version,
            Err(e) => return Err(e),
        };
        if ours as u64 > theirs {
            Ok(vstd::slice::slice_to_vec(release.state.as_slice()))
        } else {
            let none: Vec<u8> = Vec::new();
            Ok(none)
        }
    }
}

fn read_summary(summary: &[u8]) -> (r: u64)
    ensures
        r == summary_version(summary@),
{
    if summary.len() != 4 {
        return 0;
    }
    let a: u64 = summary[0] as u64;
    let b: u64 = summary[1] as u64;
    let c: u64 = summary[2] as u64;
    let d: u64 = summary[3] as u64;
    proof {
        let s = summary@;
        assert(s =~= seq![s[0], s[1], s[2], s[3]]);
        reveal_with_fuel(be_value, 5);
        assert(s.drop_last() =~= seq![s[0], s[1], s[2]]);
        assert(s.drop_last().drop_last() =~= seq![s[0], s[1]]);
        assert(s.drop_last().drop_last().drop_last() =~= seq![s[0]]);
        assert(s.drop_last().drop_last().drop_last().drop_last() =~= Seq::<u8>::empty());
    }
    ((a * 256 + b) * 256 + c) * 256 + d
}

/// No update takes a release back to an older one, and the newest that was
/// offered is the one that stays.
pub proof fn law_releases_are_never_taken_back(
    parameters: Seq<u8>,
    current: (u32, Seq<u8>),
    offers: Seq<OfferView>,
)
    requires
        newest(parameters, current, offers) is Ok,
    ensures
        ({
            let best = newest(parameters, current, offers)->Ok_0;
            &&& best.0 >= current.0
            &&& best.0 == current.0 ==> best == current
            &&& best != current ==> exists|i: int|
                0 <= i < offers.len() && (#[trigger] offers[i]) is Whole && offers[i]->0.state
                    == best.1 && checked_version(parameters, offers[i]->0) == Ok::<u32, Refusal>(
                    best.0,
                )
            &&& forall|i: int|
                0 <= i < offers.len() ==> (#[trigger] offers[i]) is Whole && checked_version(
                    parameters,
                    offers[i]->0,
                ) is Ok && checked_version(parameters, offers[i]->0)->Ok_0 <= best.0
        }),
    decreases offers.len(),
{
    if offers.len() > 0 {
        let front = offers.drop_last();
        law_releases_are_never_taken_back(parameters, current, front);
        let so_far = newest(parameters, current, front)->Ok_0;
        let best = newest(parameters, current, offers)->Ok_0;
        if best != current {
            if best == so_far {
                let i = choose|i: int|
                    0 <= i < front.len() && (#[trigger] front[i]) is Whole && front[i]->0.state
                        == so_far.1 && checked_version(parameters, front[i]->0) == Ok::<
                        u32,
                        Refusal,
                    >(so_far.0);
                assert(offers[i] == front[i]);
            } else {
                assert(offers[offers.len() - 1] == offers.last());
            }
        }
        assert forall|i: int| 0 <= i < offers.len() implies (#[trigger] offers[i]) is Whole
            && checked_version(parameters, offers[i]->0) is Ok && checked_version(
            parameters,
            offers[i]->0,
        )->Ok_0 <= best.0 by {
            if i < front.len() {
                assert(front[i] == offers[i]);
            }
        }
    }
}

/// A peer that told of a state with the same version, or a newer one, is sent
/// nothing.
pub proof fn law_who_is_up_to_date_is_sent_nothing(version: u32, theirs: u32)
    requires
        theirs >= version,
    ensures
        summary_version(be_bytes(theirs as nat, 4)) >= version,
{
    crate::bytes::lemma_be_bytes_read_back(theirs as nat, 4);
    assert(crate::bytes::pow256(4) == 0x1_0000_0000) by {
        reveal_with_fuel(crate::bytes::pow256, 5);
    }
}

/// A release is accepted, with the version it has, if the publisher's key is a
/// key, the state comes apart into at most 1024 bytes of metadata and 100 MiB of
/// web archive, the metadata reads, its version is not zero, and the publisher
/// signed that version of that archive.
pub proof fn law_releases_are_the_publishers(parameters: Seq<u8>, r: ReleaseView, version: u32)
    ensures
        checked_version(parameters, r) == Ok::<u32, Refusal>(version) <==> {
            let key = publisher_of(parameters);
            let parts = unframed(r.state);
            &&& parameters.len() == 32
            &&& key_fault(key) is None
            &&& parts is Ok && (parts->Ok_0).0.len() <= 1024 && (parts->Ok_0).1.len()
                <= 100 * 1024 * 1024
            &&& r.metadata is Ok && (r.metadata->Ok_0).version == version && version != 0
            &&& strict_fault(
                key,
                release_bytes(version, (parts->Ok_0).1),
                (r.metadata->Ok_0).signature.0,
            ) is None
        },
{
}

/// An empty state has version zero, and another the version that it is checked
/// to have.
pub proof fn law_nothing_is_released_at_first(parameters: Seq<u8>, r: ReleaseView)
    ensures
        r.state.len() == 0 ==> state_version(parameters, r) == Ok::<u32, Refusal>(0),
        r.state.len() > 0 ==> state_version(parameters, r) == checked_version(parameters, r),
        r.state.len() == 0 ==> told_version(r) == Ok::<u32, Refusal>(0),
{
}

/// What is told of a release that was accepted is its version.
pub proof fn law_releases_tell_their_version(parameters: Seq<u8>, r: ReleaseView)
    requires
        r.state.len() > 0,
        checked_version(parameters, r) is Ok,
    ensures
        told_version(r) == checked_version(parameters, r),
{
}

/// An update is refused if any offer is no whole release or is not accepted, for
/// the first reason there is; and a newer release that is accepted takes over.
pub proof fn law_every_offer_is_checked(
    parameters: Seq<u8>,
    current: (u32, Seq<u8>),
    offers: Seq<OfferView>,
    offer: OfferView,
)
    ensures
        newest(parameters, current, Seq::empty()) == Ok::<(u32, Seq<u8>), Refusal>(current),
        ({
            let before = newest(parameters, current, offers);
            let after = newest(parameters, current, offers.push(offer));
            &&& before is Err ==> after == before
            &&& before is Ok && offer is Partial ==> after is Err && after->Err_0
                == Refusal::InvalidUpdate
            &&& before is Ok && offer is Whole ==> {
                let checked = checked_version(parameters, offer->0);
                &&& checked is Err ==> after is Err && after->Err_0 == checked->Err_0
                &&& checked is Ok && checked->Ok_0 > (before->Ok_0).0 ==> after is Ok
                    && after->Ok_0 == (checked->Ok_0, offer->0.state)
                &&& checked is Ok && checked->Ok_0 <= (before->Ok_0).0 ==> after == before
            }
        }),
{
    assert(offers.push(offer).drop_last() =~= offers);
}

/// A summary of other than four bytes tells of no release, and one of four bytes
/// of the version that they spell.
pub proof fn law_summaries_are_versions(summary: Seq<u8>, version: u32)
    ensures
        summary.len() != 4 ==> summary_version(summary) == 0,
        summary_version(be_bytes(version as nat, 4)) == version,
{
    crate::bytes::lemma_be_bytes_read_back(version as nat, 4);
    assert(crate::bytes::pow256(4) == 0x1_0000_0000) by {
        reveal_with_fuel(crate::bytes::pow256, 5);
    }
}

/// Between two peers with accepted releases, the one with the newer sends it
/// whole, the other sends nothing, and what was sent is what both have then.
pub proof fn law_the_newer_release_spreads(
    parameters: Seq<u8>,
    ours: ReleaseView,
    theirs: ReleaseView,
)
    requires
        ours.state.len() > 0,
        theirs.state.len() > 0,
        checked_version(parameters, ours) is Ok,
        checked_version(parameters, theirs) is Ok,
    ensures
        ({
            let (a, b) = (
                checked_version(parameters, ours)->Ok_0,
                checked_version(parameters, theirs)->Ok_0,
            );
            let told = summary_of(theirs);
            let sent = sent_to(ours, told->Ok_0);
            let none = Seq::<u8>::empty();
            &&& told is Ok && sent is Ok
            &&& a > b ==> sent->Ok_0 == ours.state
            &&& a <= b ==> sent->Ok_0 == none
            &&& a > b ==> newest(
                parameters,
                (b, theirs.state),
                seq![OfferView::Whole(ours)],
            ) == Ok::<(u32, Seq<u8>), Refusal>((a, ours.state))
        }),
{
    law_releases_tell_their_version(parameters, ours);
    law_releases_tell_their_version(parameters, theirs);
    let b = checked_version(parameters, theirs)->Ok_0;
    law_summaries_are_versions(be_bytes(b as nat, 4), b);
    let none = Seq::<OfferView>::empty();
    law_every_offer_is_checked(parameters, (b, theirs.state), none, OfferView::Whole(ours));
    assert(none.push(OfferView::Whole(ours)) =~= seq![OfferView::Whole(ours)]);
}

} // verus!
