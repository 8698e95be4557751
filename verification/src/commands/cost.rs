//! `/cost`: the context in use, and what the provider reported.

use vstd::prelude::*;

use crate::commands;
use crate::commands::SlashResult;
use crate::protocol::ProviderApiFamily;
use crate::text;
use crate::tokens;
use crate::usage;
use crate::usage::ProviderUsageRecord;
use crate::usage::UsageAggregate;
use crate::usage::UsageGroup;
use crate::usage::UsageOverflow;

verus! {

pub const SUMMARY: &'static str = "show provider route, context, and provider-reported usage";

/// The route, and how full its context is. `window` comes with the share in
/// use, in whole percent.
#[derive(Debug, PartialEq, Eq)]
pub struct ContextUse {
    pub provider_id: String,
    pub model: String,
    pub revision: u64,
    pub used: u64,
    pub window: Option<(u64, u64)>,
}

/// The lines on the route and the context.
pub open spec fn context_text(c: ContextUse) -> Seq<char> {
    "provider: "@ + c.provider_id@ + "\nmodel: "@ + c.model@ + "\nroute revision: "@
        + text::decimal(c.revision as nat) + "\ncontext: ~"@ + text::decimal(c.used as nat) + (
    match c.window {
        Some((window, percent)) => " / "@ + text::decimal(window as nat) + " tokens ("@
            + text::decimal(percent as nat) + "%)"@,
        None => " tokens (window limit off; compaction disabled)"@,
    })
}

fn context_lines(c: &ContextUse) -> (r: String)
    ensures
        r@ == context_text(*c),
{
    let mut out = "provider: ".to_owned();
    out.append(c.provider_id.as_str());
    out.append("\nmodel: ");
    out.append(c.model.as_str());
    out.append("\nroute revision: ");
    out.append(text::decimal_text(c.revision).as_str());
    out.append("\ncontext: ~");
    out.append(text::decimal_text(c.used).as_str());
    let ghost before = out@;
    match c.window {
        Some((window, percent)) => {
            out.append(" / ");
            out.append(text::decimal_text(window).as_str());
            out.append(" tokens (");
            out.append(text::decimal_text(percent).as_str());
            out.append("%)");
            proof {
                assert(out@ =~= before + (" / "@ + text::decimal(window as nat) + " tokens ("@
                    + text::decimal(percent as nat) + "%)"@));
            }
        },
        None => {
            out.append(" tokens (window limit off; compaction disabled)");
        },
    }
    out
}

/// How a protocol family is named.
pub open spec fn family_name(family: ProviderApiFamily) -> Seq<char> {
    match family {
        ProviderApiFamily::AnthropicMessages => "AnthropicMessages"@,
        ProviderApiFamily::OpenAiChatCompletions => "OpenAiChatCompletions"@,
        ProviderApiFamily::OpenAiResponses => "OpenAiResponses"@,
        ProviderApiFamily::Mock => "Mock"@,
    }
}

fn family_str(family: ProviderApiFamily) -> (r: &'static str)
    ensures
        r@ == family_name(family),
{
    match family {
        ProviderApiFamily::AnthropicMessages => "AnthropicMessages",
        ProviderApiFamily::OpenAiChatCompletions => "OpenAiChatCompletions",
        ProviderApiFamily::OpenAiResponses => "OpenAiResponses",
        ProviderApiFamily::Mock => "Mock",
    }
}

/// The line of a group.
pub open spec fn group_text(key: usage::GroupKey, s: usage::UsageSum) -> Seq<char> {
    "\n  "@ + key.provider_id + "/"@ + key.model + " ["@ + family_name(key.api_family)
        + "]: input="@ + text::decimal(s.input) + " output="@ + text::decimal(s.output)
        + " cache-read="@ + text::decimal(s.cache_read) + " cache-create="@ + text::decimal(
        s.cache_creation,
    ) + " responses="@ + text::decimal(s.responses)
}

fn group_line(group: &UsageGroup, Ghost(s): Ghost<usage::UsageSum>) -> (r: String)
    requires
        usage::holds(group.aggregate, s),
    ensures
        r@ == group_text(usage::group_key(*group), s),
{
    let total = group.aggregate.usage;
    let mut out = "\n  ".to_owned();
    out.append(group.provider_id.as_str());
    out.append("/");
    out.append(group.model.as_str());
    out.append(" [");
    out.append(family_str(group.api_family));
    out.append("]: input=");
    out.append(text::decimal_text(total.input_tokens).as_str());
    out.append(" output=");
    out.append(text::decimal_text(total.output_tokens).as_str());
    out.append(" cache-read=");
    out.append(text::decimal_text(total.cache_read_input_tokens).as_str());
    out.append(" cache-create=");
    out.append(text::decimal_text(total.cache_creation_input_tokens).as_str());
    out.append(" responses=");
    out.append(text::decimal_text(group.aggregate.reported_responses).as_str());
    out
}

/// What an overflow reads as.
pub const OVERFLOW_TEXT: &'static str = "provider usage overflow";

/// The line on the prompt cache: what of the prompts was read from it. `percent`
/// is that share in whole percent; a session without prompts has none.
pub open spec fn cache_text(
    aggregate: Result<Option<UsageAggregate>, UsageOverflow>,
    percent: u64,
) -> Seq<char> {
    match aggregate {
        Ok(None) => Seq::empty(),
        Ok(Some(a)) => "\ncache hit: "@ + text::decimal(a.usage.cache_read_input_tokens as nat)
            + " of "@ + text::decimal(usage::prompt_of(a.usage)) + " prompt tokens ("@ + (
        if usage::prompt_of(a.usage) == 0 {
            "n/a"@
        } else {
            text::decimal(percent as nat) + "%"@
        }) + ")"@,
        Err(_) => "\ncache hit: unavailable ("@ + OVERFLOW_TEXT@ + ")"@,
    }
}

/// The line on the prompt cache.
pub fn cache_hit_line(aggregate: &Result<Option<UsageAggregate>, UsageOverflow>, percent: u64) -> (r:
    String)
    ensures
        r@ == cache_text(*aggregate, percent),
{
    match aggregate {
        Ok(None) => {
            let none = String::new();
            proof {
                assert(none@ =~= Seq::<char>::empty());
            }
            none
        },
        Ok(Some(a)) => {
            let prompt = a.usage.prompt_tokens();
            let mut rate = "n/a".to_owned();
            if prompt != 0 {
                rate = text::decimal_text(percent);
                rate.append("%");
            }
            let mut out = "\ncache hit: ".to_owned();
            out.append(text::decimal_text(a.usage.cache_read_input_tokens).as_str());
            out.append(" of ");
            out.append(text::decimal_text(prompt).as_str());
            out.append(" prompt tokens (");
            out.append(rate.as_str());
            out.append(")");
            out
        },
        Err(_) => {
            let mut out = "\ncache hit: unavailable (".to_owned();
            out.append(OVERFLOW_TEXT);
            out.append(")");
            out
        },
    }
}

/// The lines of the first `n` groups.
pub open spec fn group_texts(
    records: Seq<usage::UsageRecordView>,
    keys: Seq<usage::GroupKey>,
    n: nat,
) -> Seq<char>
    decreases n,
{
    if n == 0 {
        Seq::empty()
    } else {
        group_texts(records, keys, (n - 1) as nat) + group_text(
            keys[n - 1],
            usage::sums(records, Some(keys[n - 1]), records.len()),
        )
    }
}

/// The line on the prompt cache for a ledger that is not empty.
pub open spec fn ledger_cache_text(records: Seq<usage::UsageRecordView>, percent: u64) -> Seq<char> {
    let total = usage::sums(records, None, records.len());
    if usage::fits(total) {
        let prompt = tokens::saturated(total.input + total.cache_read + total.cache_creation);
        "\ncache hit: "@ + text::decimal(total.cache_read) + " of "@ + text::decimal(prompt)
            + " prompt tokens ("@ + (if prompt == 0 {
            "n/a"@
        } else {
            text::decimal(percent as nat) + "%"@
        }) + ")"@
    } else {
        "\ncache hit: unavailable ("@ + OVERFLOW_TEXT@ + ")"@
    }
}

/// What `/cost` shows.
pub open spec fn cost_text(
    c: ContextUse,
    records: Seq<usage::UsageRecordView>,
    percent: u64,
) -> Seq<char> {
    let keys = usage::group_keys(records, records.len());
    context_text(c) + "\nprovider-reported usage by provider/model: "@ + (
    if usage::some_group_overflows(records) {
        "unavailable ("@ + OVERFLOW_TEXT@ + ")"@
    } else if records.len() == 0 {
        "unavailable"@
    } else {
        group_texts(records, keys, keys.len()) + ledger_cache_text(records, percent)
    })
}

/// Shows the route, the context in use, and the ledger by provider and model.
/// `cache_percent` is the share of the prompt tokens read from the cache.
pub fn run(context: &ContextUse, records: &Vec<ProviderUsageRecord>, cache_percent: u64) -> (r:
    SlashResult)
    ensures
        r@ == commands::shows(cost_text(*context, usage::records(records@), cache_percent)),
{
    let ghost all = usage::records(records@);
    let mut out = context_lines(context);
    out.append("\nprovider-reported usage by provider/model: ");
    let ghost start = out@;
    match usage::grouped(records) {
        Err(_) => {
            out.append("unavailable (");
            out.append(OVERFLOW_TEXT);
            out.append(")");
            proof {
                assert(out@ =~= start + ("unavailable ("@ + OVERFLOW_TEXT@ + ")"@));
            }
        },
        Ok(groups) => {
            let ghost group_keys = usage::group_keys(all, all.len());
            proof {
                lemma_no_overflow(groups@, all);
                lemma_keys_nonempty(all, all.len());
                assert(usage::keys(groups@).len() == groups@.len());
            }
            if groups.len() == 0 {
                out.append("unavailable");
            } else {
                let mut i: usize = 0;
                proof {
                    assert(out@ =~= start + group_texts(all, group_keys, 0));
                }
                while i < groups.len()
                    invariant
                        i <= groups@.len(),
                        usage::groups_of(groups@, all),
                        group_keys == usage::group_keys(all, all.len()),
                        out@ == start + group_texts(all, group_keys, i as nat),
                    decreases groups@.len() - i,
                {
                    let ghost key = usage::group_key(groups@[i as int]);
                    proof {
                        assert(usage::keys(groups@)[i as int] == key);
                    }
                    let line = group_line(
                        &groups[i],
                        Ghost(usage::sums(all, Some(key), all.len())),
                    );
                    out.append(line.as_str());
                    i += 1;
                    proof {
                        assert(out@ =~= start + group_texts(all, group_keys, i as nat));
                    }
                }
                let aggregate = usage::aggregate(records);
                proof {
                    lemma_aggregate_text(aggregate, all, cache_percent);
                }
                out.append(cache_hit_line(&aggregate, cache_percent).as_str());
                proof {
                    assert(out@ =~= start + (group_texts(all, group_keys, group_keys.len())
                        + ledger_cache_text(all, cache_percent)));
                }
            }
        },
    }
    SlashResult::message(out)
}

proof fn lemma_aggregate_text(
    aggregate: Result<Option<UsageAggregate>, UsageOverflow>,
    records: Seq<usage::UsageRecordView>,
    percent: u64,
)
    requires
        records.len() > 0,
        match aggregate {
            Ok(None) => false,
            Ok(Some(a)) => usage::holds(a, usage::sums(records, None, records.len())),
            Err(_) => !usage::fits(usage::sums(records, None, records.len())),
        },
    ensures
        cache_text(aggregate, percent) == ledger_cache_text(records, percent),
{
}

proof fn lemma_keys_nonempty(records: Seq<usage::UsageRecordView>, n: nat)
    requires
        n <= records.len(),
    ensures
        (usage::group_keys(records, n).len() == 0) == (n == 0),
    decreases n,
{
    if n > 1 {
        lemma_keys_nonempty(records, (n - 1) as nat);
    } else if n == 1 {
        assert(usage::leads(records, 0));
        assert(usage::group_keys(records, 0).len() == 0);
    }
}

proof fn lemma_key_listed(records: Seq<usage::UsageRecordView>, i: int, n: nat)
    requires
        0 <= i < n <= records.len(),
    ensures
        usage::group_keys(records, n).contains(usage::key_of(records[i])),
    decreases n, i,
{
    let before = usage::group_keys(records, (n - 1) as nat);
    let now = usage::group_keys(records, n);
    if i < n - 1 {
        lemma_key_listed(records, i, (n - 1) as nat);
        let k = choose|k: int|
            0 <= k < before.len() && before[k] == usage::key_of(records[i]);
        assert(now[k] == before[k]);
    } else if usage::leads(records, n - 1) {
        assert(now.last() == usage::key_of(records[i]));
    } else {
        let j = choose|j: int|
            0 <= j < n - 1 && usage::key_of(#[trigger] records[j]) == usage::key_of(records[n - 1]);
        lemma_key_listed(records, j, (n - 1) as nat);
    }
}

proof fn lemma_no_overflow(groups: Seq<UsageGroup>, records: Seq<usage::UsageRecordView>)
    requires
        usage::groups_of(groups, records),
    ensures
        !usage::some_group_overflows(records),
{
    assert forall|i: int| 0 <= i < records.len() implies usage::fits(
        usage::sums(records, Some(usage::key_of(#[trigger] records[i])), records.len()),
    ) by {
        lemma_key_listed(records, i, records.len());
        let list = usage::keys(groups);
        let k = choose|k: int| 0 <= k < list.len() && list[k] == usage::key_of(records[i]);
        assert(usage::group_key(groups[k]) == list[k]);
        assert(usage::holds(
            groups[k].aggregate,
            usage::sums(records, Some(usage::group_key(groups[k])), records.len()),
        ));
    }
}

// ---------------------------------------------------------------------------
// Laws
// ---------------------------------------------------------------------------

/// The use of the context names the provider, the model and the revision, and, where
/// there is a window, how much of it is used.
pub proof fn law_the_use_of_the_context(c: ContextUse)
    ensures
        c.window matches Some((window, percent)) ==> context_text(c) == "provider: "@
            + c.provider_id@ + "\nmodel: "@ + c.model@ + "\nroute revision: "@ + text::decimal(
            c.revision as nat,
        ) + "\ncontext: ~"@ + text::decimal(c.used as nat) + (" / "@ + text::decimal(
            window as nat,
        ) + " tokens ("@ + text::decimal(percent as nat) + "%)"@),
        c.window is None ==> text::ends_with(
            context_text(c),
            " tokens (window limit off; compaction disabled)"@,
        ),
{
    if c.window is None {
        let tail = " tokens (window limit off; compaction disabled)"@;
        let whole = context_text(c);
        assert(whole.skip(whole.len() - tail.len()) =~= tail);
    }
}

/// Every group of the ledger has its line, in the ledger's order, with its own sums.
pub proof fn law_every_group_has_its_line(
    records: Seq<usage::UsageRecordView>,
    keys: Seq<usage::GroupKey>,
    n: nat,
)
    requires
        n < keys.len(),
    ensures
        ({
            let s = usage::sums(records, Some(keys[n as int]), records.len());
            let key = keys[n as int];
            group_texts(records, keys, n + 1) == group_texts(records, keys, n) + ("\n  "@
                + key.provider_id + "/"@ + key.model + " ["@ + (match key.api_family {
                ProviderApiFamily::AnthropicMessages => "AnthropicMessages"@,
                ProviderApiFamily::OpenAiChatCompletions => "OpenAiChatCompletions"@,
                ProviderApiFamily::OpenAiResponses => "OpenAiResponses"@,
                ProviderApiFamily::Mock => "Mock"@,
            }) + "]: input="@ + text::decimal(s.input) + " output="@ + text::decimal(s.output)
                + " cache-read="@ + text::decimal(s.cache_read) + " cache-create="@
                + text::decimal(s.cache_creation) + " responses="@ + text::decimal(s.responses))
        }),
        group_texts(records, keys, 0).len() == 0,
{
}

/// The ledger is shown whole, behind the use of the context; where a sum passes what can
/// be counted, or nothing was reported, it says that instead.
pub proof fn law_the_ledger_is_shown_or_said_to_be_unavailable(
    c: ContextUse,
    records: Seq<usage::UsageRecordView>,
    percent: u64,
)
    ensures
        ({
            let head = context_text(c) + "\nprovider-reported usage by provider/model: "@;
            let keys = usage::group_keys(records, records.len());
            let total = usage::sums(records, None, records.len());
            &&& usage::some_group_overflows(records) ==> cost_text(c, records, percent) == head + (
            "unavailable ("@ + OVERFLOW_TEXT@ + ")"@)
            &&& !usage::some_group_overflows(records) && records.len() == 0 ==> cost_text(
                c,
                records,
                percent,
            ) == head + "unavailable"@
            &&& !usage::some_group_overflows(records) && records.len() > 0 ==> cost_text(
                c,
                records,
                percent,
            ) == head + (group_texts(records, keys, keys.len()) + ledger_cache_text(
                records,
                percent,
            ))
            &&& usage::fits(total) && total.input + total.cache_read + total.cache_creation == 0
                ==> ledger_cache_text(records, percent) == "\ncache hit: "@ + text::decimal(0)
                + " of "@ + text::decimal(0) + " prompt tokens ("@ + "n/a"@ + ")"@
            &&& usage::fits(total) && 0 < total.input + total.cache_read + total.cache_creation
                <= u64::MAX ==> ledger_cache_text(records, percent) == "\ncache hit: "@
                + text::decimal(total.cache_read) + " of "@ + text::decimal(
                total.input + total.cache_read + total.cache_creation,
            ) + " prompt tokens ("@ + (text::decimal(percent as nat) + "%"@) + ")"@
            &&& !usage::fits(total) ==> ledger_cache_text(records, percent)
                == "\ncache hit: unavailable ("@ + OVERFLOW_TEXT@ + ")"@
        }),
{
}

} // verus!
