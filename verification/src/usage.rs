//! The ledger of what requests cost.

use vstd::prelude::*;

use crate::agent::Usage;
use crate::protocol::ProviderApiFamily;
use crate::text;
use crate::tokens;

verus! {

/// What a request was for.
#[derive(Clone, Copy, Debug, PartialEq, Eq, Structural)]
pub enum UsageOperation {
    Sampling,
    Compaction,
}

/// The cost of one request, and where it ran.
#[derive(Debug, PartialEq, Eq)]
pub struct ProviderUsageRecord {
    pub provider_id: String,
    pub api_family: ProviderApiFamily,
    pub route_revision: u64,
    pub model: String,
    pub operation: UsageOperation,
    pub usage: Usage,
}

#[verifier::ext_equal]
pub struct UsageRecordView {
    pub provider_id: Seq<char>,
    pub api_family: ProviderApiFamily,
    pub route_revision: u64,
    pub model: Seq<char>,
    pub operation: UsageOperation,
    pub usage: Usage,
}

impl View for ProviderUsageRecord {
    type V = UsageRecordView;

    open spec fn view(&self) -> UsageRecordView {
        UsageRecordView {
            provider_id: self.provider_id@,
            api_family: self.api_family,
            route_revision: self.route_revision,
            model: self.model@,
            operation: self.operation,
            usage: self.usage,
        }
    }
}

/// The view of a ledger.
pub open spec fn records(v: Seq<ProviderUsageRecord>) -> Seq<UsageRecordView> {
    v.map_values(|r: ProviderUsageRecord| r@)
}

impl Clone for ProviderUsageRecord {
    fn clone(&self) -> (r: Self)
        ensures
            r@ == self@,
    {
        ProviderUsageRecord {
            provider_id: self.provider_id.clone(),
            api_family: self.api_family,
            route_revision: self.route_revision,
            model: self.model.clone(),
            operation: self.operation,
            usage: self.usage,
        }
    }
}

// ---------------------------------------------------------------------------
// Totals
// ---------------------------------------------------------------------------

/// A sum of token counts does not fit its type.
#[derive(Clone, Copy, Debug, PartialEq, Eq, Structural)]
pub struct UsageOverflow;

/// What a number of requests cost together.
#[derive(Clone, Copy, Debug, PartialEq, Eq, Structural)]
pub struct UsageAggregate {
    pub usage: Usage,
    pub reported_responses: u64,
}

/// What the requests to one model of one provider cost together.
#[derive(Debug, PartialEq, Eq)]
pub struct UsageGroup {
    pub provider_id: String,
    pub api_family: ProviderApiFamily,
    pub model: String,
    pub aggregate: UsageAggregate,
}

#[verifier::ext_equal]
pub struct GroupKey {
    pub provider_id: Seq<char>,
    pub api_family: ProviderApiFamily,
    pub model: Seq<char>,
}

/// Exact sums.
#[verifier::ext_equal]
pub struct UsageSum {
    pub input: nat,
    pub output: nat,
    pub cache_read: nat,
    pub cache_creation: nat,
    pub responses: nat,
}

/// Where a request ran.
pub open spec fn key_of(r: UsageRecordView) -> GroupKey {
    GroupKey { provider_id: r.provider_id, api_family: r.api_family, model: r.model }
}

/// Whether a record belongs to what is summed: to a group, or to everything.
pub open spec fn counts(r: UsageRecordView, of: Option<GroupKey>) -> bool {
    of matches Some(key) ==> key_of(r) == key
}

/// The sums over the first `n` records that count.
pub open spec fn sums(records: Seq<UsageRecordView>, of: Option<GroupKey>, n: nat) -> UsageSum
    decreases n,
{
    if n == 0 {
        UsageSum { input: 0, output: 0, cache_read: 0, cache_creation: 0, responses: 0 }
    } else {
        let before = sums(records, of, (n - 1) as nat);
        let r = records[n - 1];
        if counts(r, of) {
            UsageSum {
                input: before.input + r.usage.input_tokens as nat,
                output: before.output + r.usage.output_tokens as nat,
                cache_read: before.cache_read + r.usage.cache_read_input_tokens as nat,
                cache_creation: before.cache_creation
                    + r.usage.cache_creation_input_tokens as nat,
                responses: before.responses + 1,
            }
        } else {
            before
        }
    }
}

/// Whether sums fit the counters.
pub open spec fn fits(s: UsageSum) -> bool {
    &&& s.input <= u64::MAX
    &&& s.output <= u64::MAX
    &&& s.cache_read <= u64::MAX
    &&& s.cache_creation <= u64::MAX
    &&& s.responses <= u64::MAX
}

/// Whether counters hold sums.
pub open spec fn holds(a: UsageAggregate, s: UsageSum) -> bool {
    &&& a.usage.input_tokens == s.input
    &&& a.usage.output_tokens == s.output
    &&& a.usage.cache_read_input_tokens == s.cache_read
    &&& a.usage.cache_creation_input_tokens == s.cache_creation
    &&& a.reported_responses == s.responses
}

proof fn lemma_sums_grow(records: Seq<UsageRecordView>, of: Option<GroupKey>, k: nat, n: nat)
    requires
        k <= n,
    ensures
        fits(sums(records, of, n)) ==> fits(sums(records, of, k)),
    decreases n - k,
{
    if k < n {
        lemma_sums_grow(records, of, k, (n - 1) as nat);
    }
}

fn same_key(a: &ProviderUsageRecord, b: &ProviderUsageRecord) -> (r: bool)
    ensures
        r == (key_of(a@) == key_of(b@)),
{
    text::same(a.provider_id.as_str(), b.provider_id.as_str()) && a.api_family == b.api_family
        && text::same(a.model.as_str(), b.model.as_str())
}

/// The key to sum for.
pub open spec fn wanted(records: Seq<UsageRecordView>, like: Option<usize>) -> Option<GroupKey> {
    match like {
        Some(i) => Some(key_of(records[i as int])),
        None => None,
    }
}

fn sum_up(records: &Vec<ProviderUsageRecord>, like: Option<usize>) -> (r: Result<
    UsageAggregate,
    UsageOverflow,
>)
    requires
        like matches Some(i) ==> i < records@.len(),
    ensures
        match r {
            Ok(a) => holds(
                a,
                sums(
                    self::records(records@),
                    wanted(self::records(records@), like),
                    records@.len(),
                ),
            ),
            Err(_) => !fits(
                sums(
                    self::records(records@),
                    wanted(self::records(records@), like),
                    records@.len(),
                ),
            ),
        },
{
    let ghost all = self::records(records@);
    let ghost of = wanted(all, like);
    let mut input: u64 = 0;
    let mut output: u64 = 0;
    let mut cache_read: u64 = 0;
    let mut cache_creation: u64 = 0;
    let mut responses: u64 = 0;
    let mut n: usize = 0;
    while n < records.len()
        invariant
            n <= records@.len(),
            all == self::records(records@),
            of == wanted(all, like),
            like matches Some(i) ==> i < records@.len(),
            sums(all, of, n as nat) == (UsageSum {
                input: input as nat,
                output: output as nat,
                cache_read: cache_read as nat,
                cache_creation: cache_creation as nat,
                responses: responses as nat,
            }),
        decreases records@.len() - n,
    {
        let record = &records[n];
        let counted = match like {
            Some(i) => same_key(record, &records[i]),
            None => true,
        };
        proof {
            assert(all[n as int] == record@);
            lemma_sums_grow(all, of, (n + 1) as nat, records@.len());
        }
        n += 1;
        if counted {
            match (
                input.checked_add(record.usage.input_tokens),
                output.checked_add(record.usage.output_tokens),
                cache_read.checked_add(record.usage.cache_read_input_tokens),
                cache_creation.checked_add(record.usage.cache_creation_input_tokens),
                responses.checked_add(1),
            ) {
                (Some(a), Some(b), Some(c), Some(d), Some(e)) => {
                    input = a;
                    output = b;
                    cache_read = c;
                    cache_creation = d;
                    responses = e;
                },
                _ => {
                    return Err(UsageOverflow);
                },
            }
        }
    }
    Ok(
        UsageAggregate {
            usage: Usage {
                input_tokens: input,
                output_tokens: output,
                cache_read_input_tokens: cache_read,
                cache_creation_input_tokens: cache_creation,
            },
            reported_responses: responses,
        },
    )
}

/// What all requests cost together; nothing where there were none.
pub fn aggregate(records: &Vec<ProviderUsageRecord>) -> (r: Result<
    Option<UsageAggregate>,
    UsageOverflow,
>)
    ensures
        match r {
            Ok(None) => records@.len() == 0,
            Ok(Some(a)) => records@.len() > 0 && holds(
                a,
                sums(self::records(records@), None, records@.len()),
            ),
            Err(_) => !fits(sums(self::records(records@), None, records@.len())),
        },
{
    if records.len() == 0 {
        return Ok(None);
    }
    match sum_up(records, None) {
        Ok(a) => Ok(Some(a)),
        Err(e) => Err(e),
    }
}

/// Whether a record is the first of its group.
pub open spec fn leads(records: Seq<UsageRecordView>, i: int) -> bool {
    forall|j: int| 0 <= j < i ==> key_of(#[trigger] records[j]) != key_of(records[i])
}

/// The groups that the first `n` records open, in that order.
pub open spec fn group_keys(records: Seq<UsageRecordView>, n: nat) -> Seq<GroupKey>
    decreases n,
{
    if n == 0 {
        Seq::empty()
    } else {
        let before = group_keys(records, (n - 1) as nat);
        if leads(records, n - 1) {
            before.push(key_of(records[n - 1]))
        } else {
            before
        }
    }
}

/// The key of a group.
pub open spec fn group_key(g: UsageGroup) -> GroupKey {
    GroupKey { provider_id: g.provider_id@, api_family: g.api_family, model: g.model@ }
}

/// The keys of groups.
pub open spec fn keys(v: Seq<UsageGroup>) -> Seq<GroupKey> {
    v.map_values(|g: UsageGroup| group_key(g))
}

/// Whether groups are those of a ledger: one per model of a provider, in the
/// order of their first request, each with its exact sums.
pub open spec fn groups_of(v: Seq<UsageGroup>, records: Seq<UsageRecordView>) -> bool {
    &&& keys(v) == group_keys(records, records.len())
    &&& forall|i: int|
        0 <= i < v.len() ==> holds(
            (#[trigger] v[i]).aggregate,
            sums(records, Some(group_key(v[i])), records.len()),
        )
}

/// Whether some group's sums do not fit.
pub open spec fn some_group_overflows(records: Seq<UsageRecordView>) -> bool {
    exists|i: int|
        0 <= i < records.len() && !fits(
            sums(records, Some(key_of(#[trigger] records[i])), records.len()),
        )
}

fn is_first(records: &Vec<ProviderUsageRecord>, i: usize) -> (r: bool)
    requires
        i < records@.len(),
    ensures
        r == leads(self::records(records@), i as int),
{
    let ghost all = self::records(records@);
    let mut j: usize = 0;
    while j < i
        invariant
            j <= i < records@.len(),
            all == self::records(records@),
            forall|k: int| 0 <= k < j ==> key_of(#[trigger] all[k]) != key_of(all[i as int]),
        decreases i - j,
    {
        proof {
            assert(all[j as int] == records@[j as int]@);
            assert(all[i as int] == records@[i as int]@);
        }
        if same_key(&records[j], &records[i]) {
            return false;
        }
        j += 1;
    }
    true
}

/// The ledger by provider and model, in the order of the first request to each.
pub fn grouped(records: &Vec<ProviderUsageRecord>) -> (r: Result<Vec<UsageGroup>, UsageOverflow>)
    ensures
        match r {
            Ok(groups) => groups_of(groups@, self::records(records@)),
            Err(_) => some_group_overflows(self::records(records@)),
        },
{
    let ghost all = self::records(records@);
    let mut out: Vec<UsageGroup> = Vec::new();
    let mut i: usize = 0;
    proof {
        assert(keys(out@) =~= group_keys(all, 0));
    }
    while i < records.len()
        invariant
            i <= records@.len(),
            all == self::records(records@),
            keys(out@) == group_keys(all, i as nat),
            forall|k: int|
                0 <= k < out@.len() ==> holds(
                    (#[trigger] out@[k]).aggregate,
                    sums(all, Some(group_key(out@[k])), all.len()),
                ),
        decreases records@.len() - i,
    {
        proof {
            assert(all[i as int] == records@[i as int]@);
        }
        if is_first(records, i) {
            let total = match sum_up(records, Some(i)) {
                Ok(total) => total,
                Err(e) => {
                    return Err(e);
                },
            };
            let group = UsageGroup {
                provider_id: records[i].provider_id.clone(),
                api_family: records[i].api_family,
                model: records[i].model.clone(),
                aggregate: total,
            };
            let ghost before = keys(out@);
            proof {
                assert(group_key(group) =~= key_of(all[i as int]));
            }
            out.push(group);
            proof {
                assert(keys(out@) =~= before.push(group_key(group)));
            }
        }
        i += 1;
    }
    Ok(out)
}

/// The tokens of the prompts, cached or not, at most `u64::MAX`.
pub open spec fn prompt_of(u: Usage) -> nat {
    tokens::saturated(
        (u.input_tokens + u.cache_read_input_tokens + u.cache_creation_input_tokens) as nat,
    )
}

impl Usage {
    /// The tokens of the prompts, cached or not, saturating.
    pub fn prompt_tokens(&self) -> (r: u64)
        ensures
            r == prompt_of(*self),
    {
        self.input_tokens.saturating_add(self.cache_read_input_tokens).saturating_add(
            self.cache_creation_input_tokens,
        )
    }
}

/// A group costs no more than the ledger as a whole.
pub proof fn law_groups_are_part_of_the_whole(
    records: Seq<UsageRecordView>,
    key: GroupKey,
    n: nat,
)
    requires
        n <= records.len(),
    ensures
        sums(records, Some(key), n).input <= sums(records, None, n).input,
        sums(records, Some(key), n).output <= sums(records, None, n).output,
        sums(records, Some(key), n).cache_read <= sums(records, None, n).cache_read,
        sums(records, Some(key), n).cache_creation <= sums(records, None, n).cache_creation,
        sums(records, Some(key), n).responses <= sums(records, None, n).responses,
        sums(records, None, n).responses == n,
    decreases n,
{
    if n > 0 {
        law_groups_are_part_of_the_whole(records, key, (n - 1) as nat);
    }
}

proof fn lemma_sums_prefix(
    records: Seq<UsageRecordView>,
    more: UsageRecordView,
    of: Option<GroupKey>,
    n: nat,
)
    requires
        n <= records.len(),
    ensures
        sums(records.push(more), of, n) == sums(records, of, n),
    decreases n,
{
    if n > 0 {
        lemma_sums_prefix(records, more, of, (n - 1) as nat);
    }
}

/// A record counts once, with all its tokens, for the whole and for the group of its
/// own provider, protocol and model, and for no other group.
pub proof fn law_a_record_counts_for_its_group(
    records: Seq<UsageRecordView>,
    more: UsageRecordView,
    of: Option<GroupKey>,
)
    ensures
        ({
            let was = sums(records, of, records.len());
            let now = sums(records.push(more), of, (records.len() + 1) as nat);
            if of is None || (of->0.provider_id == more.provider_id && of->0.api_family
                == more.api_family && of->0.model == more.model) {
                &&& now.input == was.input + more.usage.input_tokens
                &&& now.output == was.output + more.usage.output_tokens
                &&& now.cache_read == was.cache_read + more.usage.cache_read_input_tokens
                &&& now.cache_creation == was.cache_creation
                    + more.usage.cache_creation_input_tokens
                &&& now.responses == was.responses + 1
            } else {
                now == was
            }
        }),
{
    lemma_sums_prefix(records, more, of, records.len());
    assert(records.push(more)[records.len() as int] == more);
}

/// The groups are listed once each, in the order in which they first appear, and
/// every record has its group.
pub proof fn law_every_record_has_its_group(records: Seq<UsageRecordView>, n: nat)
    requires
        n <= records.len(),
    ensures
        forall|k: int, l: int|
            0 <= k < l < group_keys(records, n).len() ==> #[trigger] group_keys(records, n)[k]
                != #[trigger] group_keys(records, n)[l],
        forall|i: int|
            0 <= i < n ==> group_keys(records, n).contains(
                GroupKey {
                    provider_id: (#[trigger] records[i]).provider_id,
                    api_family: records[i].api_family,
                    model: records[i].model,
                },
            ),
        forall|k: int|
            0 <= k < group_keys(records, n).len() ==> exists|i: int|
                0 <= i < n && (GroupKey {
                    provider_id: (#[trigger] records[i]).provider_id,
                    api_family: records[i].api_family,
                    model: records[i].model,
                }) == #[trigger] group_keys(records, n)[k],
        forall|k: int|
            0 <= k < group_keys(records, n).len() && n > 0 ==> (group_keys(
                records,
                (n - 1) as nat,
            ).len() > k ==> #[trigger] group_keys(records, n)[k] == group_keys(
                records,
                (n - 1) as nat,
            )[k]),
    decreases n,
{
    if n > 0 {
        let p = (n - 1) as nat;
        law_every_record_has_its_group(records, p);
        let before = group_keys(records, p);
        let now = group_keys(records, n);
        let key = key_of(records[n - 1]);
        if leads(records, n - 1) {
            if before.contains(key) {
                let k = choose|k: int| 0 <= k < before.len() && before[k] == key;
                let i = choose|i: int|
                    0 <= i < p && (GroupKey {
                        provider_id: (#[trigger] records[i]).provider_id,
                        api_family: records[i].api_family,
                        model: records[i].model,
                    }) == before[k];
                assert(key_of(records[i]) == key);
            }
            assert forall|k: int, l: int| 0 <= k < l < now.len() implies #[trigger] now[k]
                != #[trigger] now[l] by {
                if l == before.len() {
                    assert(now[k] == before[k]);
                    assert(before.contains(before[k]));
                }
            }
            assert(now[before.len() as int] == key);
        } else {
            let j = choose|j: int|
                0 <= j < n - 1 && key_of(#[trigger] records[j]) == key_of(records[n - 1]);
            assert(before.contains(key_of(records[j])));
        }
        assert forall|i: int| 0 <= i < n implies now.contains(
            GroupKey {
                provider_id: (#[trigger] records[i]).provider_id,
                api_family: records[i].api_family,
                model: records[i].model,
            },
        ) by {
            if i < p {
                let want = key_of(records[i]);
                assert(before.contains(want));
                let k = choose|k: int| 0 <= k < before.len() && before[k] == want;
                assert(now[k] == want);
            }
        }
        assert forall|k: int| 0 <= k < now.len() implies exists|i: int|
            0 <= i < n && (GroupKey {
                provider_id: (#[trigger] records[i]).provider_id,
                api_family: records[i].api_family,
                model: records[i].model,
            }) == #[trigger] now[k] by {
            if k < before.len() {
                assert(now[k] == before[k]);
                let i = choose|i: int|
                    0 <= i < p && (GroupKey {
                        provider_id: (#[trigger] records[i]).provider_id,
                        api_family: records[i].api_family,
                        model: records[i].model,
                    }) == before[k];
                assert(key_of(records[i]) == now[k]);
            } else {
                assert(key_of(records[n - 1]) == now[k]);
            }
        }
    }
}

/// A prompt is all that went in: fresh, read from the cache, or put into it.
pub proof fn law_a_prompt_is_all_that_went_in(u: Usage)
    ensures
        ({
            let all = u.input_tokens + u.cache_read_input_tokens + u.cache_creation_input_tokens;
            prompt_of(u) == if all <= u64::MAX {
                all
            } else {
                u64::MAX as int
            }
        }),
{
}

/// What is reported of a ledger is its exact sums, of the whole and of each group.
pub proof fn law_what_is_reported_is_the_exact_sum(
    a: UsageAggregate,
    records: Seq<UsageRecordView>,
    groups: Seq<UsageGroup>,
    of: Option<GroupKey>,
    i: int,
)
    ensures
        holds(a, sums(records, of, records.len())) ==> {
            let s = sums(records, of, records.len());
            &&& a.usage.input_tokens == s.input
            &&& a.usage.output_tokens == s.output
            &&& a.usage.cache_read_input_tokens == s.cache_read
            &&& a.usage.cache_creation_input_tokens == s.cache_creation
            &&& a.reported_responses == s.responses
        },
        groups_of(groups, records) && 0 <= i < groups.len() ==> {
            let key = GroupKey {
                provider_id: groups[i].provider_id@,
                api_family: groups[i].api_family,
                model: groups[i].model@,
            };
            &&& key == group_keys(records, records.len())[i]
            &&& groups.len() == group_keys(records, records.len()).len()
            &&& groups[i].aggregate.usage.input_tokens == sums(
                records,
                Some(key),
                records.len(),
            ).input
            &&& groups[i].aggregate.usage.output_tokens == sums(
                records,
                Some(key),
                records.len(),
            ).output
            &&& groups[i].aggregate.reported_responses == sums(
                records,
                Some(key),
                records.len(),
            ).responses
        },
{
    if groups_of(groups, records) && 0 <= i < groups.len() {
        assert(keys(groups)[i] == group_key(groups[i]));
        assert(keys(groups).len() == groups.len());
    }
}

/// A sum can be reported where each of its numbers can be held.
pub proof fn law_when_a_sum_can_be_reported(s: UsageSum, records: Seq<UsageRecordView>)
    ensures
        fits(s) <==> s.input <= u64::MAX && s.output <= u64::MAX && s.cache_read <= u64::MAX
            && s.cache_creation <= u64::MAX && s.responses <= u64::MAX,
        some_group_overflows(records) <==> exists|i: int|
            0 <= i < records.len() && !fits(
                sums(
                    records,
                    Some(
                        GroupKey {
                            provider_id: (#[trigger] records[i]).provider_id,
                            api_family: records[i].api_family,
                            model: records[i].model,
                        },
                    ),
                    records.len(),
                ),
            ),
{
    if some_group_overflows(records) {
        let i = choose|i: int|
            0 <= i < records.len() && !fits(
                sums(records, Some(key_of(#[trigger] records[i])), records.len()),
            );
        assert(!fits(
            sums(
                records,
                Some(
                    GroupKey {
                        provider_id: records[i].provider_id,
                        api_family: records[i].api_family,
                        model: records[i].model,
                    },
                ),
                records.len(),
            ),
        ));
    }
    if exists|i: int|
        0 <= i < records.len() && !fits(
            sums(
                records,
                Some(
                    GroupKey {
                        provider_id: (#[trigger] records[i]).provider_id,
                        api_family: records[i].api_family,
                        model: records[i].model,
                    },
                ),
                records.len(),
            ),
        ) {
        let i = choose|i: int|
            0 <= i < records.len() && !fits(
                sums(
                    records,
                    Some(
                        GroupKey {
                            provider_id: (#[trigger] records[i]).provider_id,
                            api_family: records[i].api_family,
                            model: records[i].model,
                        },
                    ),
                    records.len(),
                ),
            );
        assert(!fits(sums(records, Some(key_of(records[i])), records.len())));
    }
}

} // verus!
