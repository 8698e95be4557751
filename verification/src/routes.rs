//! Provider routes: what a session ran on, revision by revision.

use vstd::prelude::*;

use crate::agent::ProviderFailure;
use crate::protocol::{
    ProvenanceView, ProviderApiFamily, ProviderResponseProvenance, ProviderRouteSource,
    ReasoningContinuity, ReasoningEffort,
};
use crate::text;

verus! {

/// A durable line of the route timeline.
#[derive(Debug, PartialEq, Eq)]
pub struct ProviderRouteReceipt {
    pub route_revision: u64,
    pub route_boundary: u64,
    pub provider_id: String,
    pub api_family: ProviderApiFamily,
    pub endpoint_fingerprint: String,
    pub model: String,
    pub effort: Option<ReasoningEffort>,
    pub source: ProviderRouteSource,
    pub continuity: ReasoningContinuity,
}

/// A route frozen for one operation.
#[derive(Debug, PartialEq, Eq)]
pub struct FrozenProviderRoute {
    pub revision: u64,
    pub provider_id: String,
    pub api_family: ProviderApiFamily,
    pub endpoint_fingerprint: String,
    pub model: String,
    pub effort: Option<ReasoningEffort>,
    pub continuity: ReasoningContinuity,
}

/// One attempt on a frozen route.
#[derive(Debug, PartialEq, Eq)]
pub struct FrozenProviderAttempt {
    pub route_revision: u64,
    pub provider_id: String,
    pub api_family: ProviderApiFamily,
    pub endpoint_fingerprint: String,
    pub model: String,
}

/// A session that reopened on another route than it was written on.
#[derive(Debug, PartialEq, Eq)]
pub struct RouteReopened {
    pub from_provider: String,
    pub from_model: String,
    pub to_provider: String,
    pub to_model: String,
    pub continuity: ReasoningContinuity,
}

/// Why recorded provenance does not fit the timeline.
#[derive(Clone, Copy, Debug, PartialEq, Eq, Structural)]
pub enum ProvenanceMismatch {
    UnknownRevision,
    OriginOutsideInterval,
    OriginNotOnItsLine,
    IdentityMismatch,
    BlockShapeMismatch,
}

/// Why the catalog refused a route.
#[derive(Debug, PartialEq, Eq)]
pub enum SwitchError {
    RevisionExhausted,
    Refused(String),
}

/// Why a session could not change its route.
#[derive(Debug, PartialEq, Eq)]
pub enum ProviderSwitchError {
    Route(SwitchError),
    History(ProviderFailure),
    Persistence(String),
}

// ---------------------------------------------------------------------------
// Models
// ---------------------------------------------------------------------------

#[verifier::ext_equal]
pub struct ReceiptView {
    pub route_revision: u64,
    pub route_boundary: u64,
    pub provider_id: Seq<char>,
    pub api_family: ProviderApiFamily,
    pub endpoint_fingerprint: Seq<char>,
    pub model: Seq<char>,
    pub effort: Option<ReasoningEffort>,
    pub source: ProviderRouteSource,
    pub continuity: ReasoningContinuity,
}

#[verifier::ext_equal]
pub struct RouteView {
    pub revision: u64,
    pub provider_id: Seq<char>,
    pub api_family: ProviderApiFamily,
    pub endpoint_fingerprint: Seq<char>,
    pub model: Seq<char>,
    pub effort: Option<ReasoningEffort>,
    pub continuity: ReasoningContinuity,
}

#[verifier::ext_equal]
pub struct AttemptView {
    pub route_revision: u64,
    pub provider_id: Seq<char>,
    pub api_family: ProviderApiFamily,
    pub endpoint_fingerprint: Seq<char>,
    pub model: Seq<char>,
}

#[verifier::ext_equal]
pub struct ReopenedView {
    pub from_provider: Seq<char>,
    pub from_model: Seq<char>,
    pub to_provider: Seq<char>,
    pub to_model: Seq<char>,
    pub continuity: ReasoningContinuity,
}

impl View for ProviderRouteReceipt {
    type V = ReceiptView;

    open spec fn view(&self) -> ReceiptView {
        ReceiptView {
            route_revision: self.route_revision,
            route_boundary: self.route_boundary,
            provider_id: self.provider_id@,
            api_family: self.api_family,
            endpoint_fingerprint: self.endpoint_fingerprint@,
            model: self.model@,
            effort: self.effort,
            source: self.source,
            continuity: self.continuity,
        }
    }
}

impl View for FrozenProviderRoute {
    type V = RouteView;

    open spec fn view(&self) -> RouteView {
        RouteView {
            revision: self.revision,
            provider_id: self.provider_id@,
            api_family: self.api_family,
            endpoint_fingerprint: self.endpoint_fingerprint@,
            model: self.model@,
            effort: self.effort,
            continuity: self.continuity,
        }
    }
}

impl View for FrozenProviderAttempt {
    type V = AttemptView;

    open spec fn view(&self) -> AttemptView {
        AttemptView {
            route_revision: self.route_revision,
            provider_id: self.provider_id@,
            api_family: self.api_family,
            endpoint_fingerprint: self.endpoint_fingerprint@,
            model: self.model@,
        }
    }
}

impl View for RouteReopened {
    type V = ReopenedView;

    open spec fn view(&self) -> ReopenedView {
        ReopenedView {
            from_provider: self.from_provider@,
            from_model: self.from_model@,
            to_provider: self.to_provider@,
            to_model: self.to_model@,
            continuity: self.continuity,
        }
    }
}

/// The view of a timeline.
pub open spec fn receipts(v: Seq<ProviderRouteReceipt>) -> Seq<ReceiptView> {
    v.map_values(|r: ProviderRouteReceipt| r@)
}

/// The receipt that a route leaves at a boundary.
pub open spec fn receipt_of(
    route: RouteView,
    boundary: u64,
    source: ProviderRouteSource,
    continuity: ReasoningContinuity,
) -> ReceiptView {
    ReceiptView {
        route_revision: route.revision,
        route_boundary: boundary,
        provider_id: route.provider_id,
        api_family: route.api_family,
        endpoint_fingerprint: route.endpoint_fingerprint,
        model: route.model,
        effort: route.effort,
        source,
        continuity,
    }
}

/// The first attempt on a route.
pub open spec fn attempt_of(route: RouteView) -> AttemptView {
    AttemptView {
        route_revision: route.revision,
        provider_id: route.provider_id,
        api_family: route.api_family,
        endpoint_fingerprint: route.endpoint_fingerprint,
        model: route.model,
    }
}

/// The provenance of a response to an attempt.
pub open spec fn provenance_of(attempt: AttemptView, boundary: u64) -> ProvenanceView {
    ProvenanceView {
        route_revision: attempt.route_revision,
        route_boundary: boundary,
        provider_id: attempt.provider_id,
        api_family: attempt.api_family,
        endpoint_fingerprint: attempt.endpoint_fingerprint,
        model: attempt.model,
    }
}

/// Whether a response replays onto an attempt verbatim: the same provider,
/// protocol, endpoint and model, whatever the revision.
pub open spec fn exact_replay(source: ProvenanceView, attempt: AttemptView) -> bool {
    &&& source.provider_id == attempt.provider_id
    &&& source.api_family == attempt.api_family
    &&& source.endpoint_fingerprint == attempt.endpoint_fingerprint
    &&& source.model == attempt.model
}

/// Whether two routes are the same place, whatever the revision and effort.
pub open spec fn same_place(a: RouteView, b: RouteView) -> bool {
    &&& a.provider_id == b.provider_id
    &&& a.api_family == b.api_family
    &&& a.endpoint_fingerprint == b.endpoint_fingerprint
    &&& a.model == b.model
}

impl Clone for ProviderRouteReceipt {
    fn clone(&self) -> (r: Self)
        ensures
            r@ == self@,
    {
        ProviderRouteReceipt {
            route_revision: self.route_revision,
            route_boundary: self.route_boundary,
            provider_id: self.provider_id.clone(),
            api_family: self.api_family,
            endpoint_fingerprint: self.endpoint_fingerprint.clone(),
            model: self.model.clone(),
            effort: self.effort,
            source: self.source,
            continuity: self.continuity,
        }
    }
}

impl Clone for FrozenProviderRoute {
    fn clone(&self) -> (r: Self)
        ensures
            r@ == self@,
    {
        FrozenProviderRoute {
            revision: self.revision,
            provider_id: self.provider_id.clone(),
            api_family: self.api_family,
            endpoint_fingerprint: self.endpoint_fingerprint.clone(),
            model: self.model.clone(),
            effort: self.effort,
            continuity: self.continuity,
        }
    }
}

impl FrozenProviderRoute {
    /// The receipt that this route leaves at a boundary.
    pub fn receipt(
        &self,
        boundary: u64,
        source: ProviderRouteSource,
        continuity: ReasoningContinuity,
    ) -> (r: ProviderRouteReceipt)
        ensures
            r@ == receipt_of(self@, boundary, source, continuity),
    {
        ProviderRouteReceipt {
            route_revision: self.revision,
            route_boundary: boundary,
            provider_id: self.provider_id.clone(),
            api_family: self.api_family,
            endpoint_fingerprint: self.endpoint_fingerprint.clone(),
            model: self.model.clone(),
            effort: self.effort,
            source,
            continuity,
        }
    }

    /// The first attempt on this route.
    pub fn primary_attempt(&self) -> (r: FrozenProviderAttempt)
        ensures
            r@ == attempt_of(self@),
    {
        FrozenProviderAttempt {
            route_revision: self.revision,
            provider_id: self.provider_id.clone(),
            api_family: self.api_family,
            endpoint_fingerprint: self.endpoint_fingerprint.clone(),
            model: self.model.clone(),
        }
    }

    /// The same route at another revision and continuity.
    pub fn at_revision_with_continuity(
        &self,
        revision: u64,
        continuity: ReasoningContinuity,
    ) -> (r: Self)
        ensures
            r@ == (RouteView { revision, continuity, ..self@ }),
    {
        let mut r = self.clone();
        r.revision = revision;
        r.continuity = continuity;
        r
    }

    /// Whether two routes are the same place.
    pub fn same_route(&self, other: &Self) -> (r: bool)
        ensures
            r == same_place(self@, other@),
    {
        text::same(self.provider_id.as_str(), other.provider_id.as_str()) && self.api_family
            == other.api_family && text::same(
            self.endpoint_fingerprint.as_str(),
            other.endpoint_fingerprint.as_str(),
        ) && text::same(self.model.as_str(), other.model.as_str())
    }
}

impl FrozenProviderAttempt {
    /// The provenance of a response to this attempt.
    pub fn provenance(&self, route_boundary: u64) -> (r: ProviderResponseProvenance)
        ensures
            r@ == provenance_of(self@, route_boundary),
    {
        ProviderResponseProvenance {
            route_revision: self.route_revision,
            route_boundary,
            provider_id: self.provider_id.clone(),
            api_family: self.api_family,
            endpoint_fingerprint: self.endpoint_fingerprint.clone(),
            model: self.model.clone(),
        }
    }
}

impl ProviderResponseProvenance {
    /// Whether the response replays onto an attempt verbatim.
    pub fn exact_replay_compatible(&self, attempt: &FrozenProviderAttempt) -> (r: bool)
        ensures
            r == exact_replay(self@, attempt@),
    {
        text::same(self.provider_id.as_str(), attempt.provider_id.as_str()) && self.api_family
            == attempt.api_family && text::same(
            self.endpoint_fingerprint.as_str(),
            attempt.endpoint_fingerprint.as_str(),
        ) && text::same(self.model.as_str(), attempt.model.as_str())
    }
}

/// What a switch error reads as.
pub open spec fn switch_error_text(e: ProviderSwitchError) -> Seq<char> {
    match e {
        ProviderSwitchError::Route(SwitchError::RevisionExhausted) =>
            "provider route revision is exhausted"@,
        ProviderSwitchError::Route(SwitchError::Refused(why)) => why@,
        ProviderSwitchError::History(failure) => failure.message@,
        ProviderSwitchError::Persistence(error) => "provider route persistence failed: "@ + error@,
    }
}

impl ProviderSwitchError {
    /// What the error reads as.
    pub fn describe(&self) -> (r: String)
        ensures
            r@ == switch_error_text(*self),
    {
        match self {
            ProviderSwitchError::Route(SwitchError::RevisionExhausted) =>
                "provider route revision is exhausted".to_owned(),
            ProviderSwitchError::Route(SwitchError::Refused(why)) => why.clone(),
            ProviderSwitchError::History(failure) => failure.message.clone(),
            ProviderSwitchError::Persistence(error) => {
                let mut out = "provider route persistence failed: ".to_owned();
                out.append(error.as_str());
                out
            },
        }
    }
}

/// A copy of a timeline.
pub fn clone_receipts(v: &Vec<ProviderRouteReceipt>) -> (r: Vec<ProviderRouteReceipt>)
    ensures
        receipts(r@) == receipts(v@),
{
    let mut out: Vec<ProviderRouteReceipt> = Vec::new();
    let mut i: usize = 0;
    while i < v.len()
        invariant
            i <= v.len(),
            out.len() == i,
            forall|k: int| 0 <= k < i ==> out@[k]@ == #[trigger] v@[k]@,
        decreases v.len() - i,
    {
        out.push(v[i].clone());
        i += 1;
    }
    proof {
        assert(receipts(out@) =~= receipts(v@));
    }
    out
}

// ---------------------------------------------------------------------------
// Laws
// ---------------------------------------------------------------------------

/// A response to an attempt on one route replays onto an attempt on another exactly
/// where the two routes are the same place, and that is where they differ in
/// nothing but revision, effort and continuity.
pub proof fn law_a_response_replays_where_it_was_written(
    a: RouteView,
    b: RouteView,
    boundary: u64,
)
    ensures
        exact_replay(provenance_of(attempt_of(a), boundary), attempt_of(b)) <==> same_place(a, b),
        same_place(a, b) <==> a == (RouteView {
            revision: a.revision,
            effort: a.effort,
            continuity: a.continuity,
            ..b
        }),
{
}

/// What is written about a route, in its receipt and in the provenance of its
/// responses, is the route.
pub proof fn law_a_receipt_describes_its_route(
    route: RouteView,
    boundary: u64,
    at: u64,
    source: ProviderRouteSource,
    continuity: ReasoningContinuity,
)
    ensures
        ({
            let line = receipt_of(route, boundary, source, continuity);
            let origin = provenance_of(attempt_of(route), at);
            &&& line.route_revision == route.revision
            &&& line.route_boundary == boundary
            &&& line.provider_id == route.provider_id
            &&& line.api_family == route.api_family
            &&& line.endpoint_fingerprint == route.endpoint_fingerprint
            &&& line.model == route.model
            &&& line.effort == route.effort
            &&& line.source == source
            &&& line.continuity == continuity
            &&& origin.route_revision == route.revision
            &&& origin.route_boundary == at
            &&& origin.provider_id == route.provider_id
            &&& origin.api_family == route.api_family
            &&& origin.endpoint_fingerprint == route.endpoint_fingerprint
            &&& origin.model == route.model
        }),
{
}

/// What a refused switch reads as: the reason that was given, or what could not be done.
pub proof fn law_a_refused_switch_says_why(e: ProviderSwitchError)
    ensures
        switch_error_text(e) == (match e {
            ProviderSwitchError::Route(SwitchError::RevisionExhausted) =>
                "provider route revision is exhausted"@,
            ProviderSwitchError::Route(SwitchError::Refused(why)) => why@,
            ProviderSwitchError::History(failure) => failure.message@,
            ProviderSwitchError::Persistence(error) => "provider route persistence failed: "@
                + error@,
        }),
{
}

} // verus!
