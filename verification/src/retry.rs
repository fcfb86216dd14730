//! Retries: which errors are worth another attempt, how many attempts there are, and
//! how long the pause before the next one is.

use crate::failure::FailureView;
use crate::text::{contains_text, occurs, occurs_at};
use vstd::arithmetic::power2::{lemma2_to64, lemma_pow2_pos, lemma_pow2_unfold, pow2};
use vstd::prelude::*;
use vstd::string::*;

verus! {

/// How failed attempts are repeated.
#[derive(Clone, Copy, Debug)]
pub struct RetryOptions {
    /// How many attempts may follow the first one.
    pub retry: u32,
    /// The pause before the second attempt, in milliseconds.
    pub retry_delay_ms: u64,
}

/// An error whose message holds none of the phrases of a request that was refused
/// before it was sent.
pub open spec fn retryable(message: Seq<char>) -> bool {
    &&& !occurs(message, "unknown MCP server"@)
    &&& !occurs(message, "unknown tool"@)
    &&& !occurs(message, "ambiguous tool alias"@)
    &&& !occurs(message, "arguments do not satisfy"@)
    &&& !occurs(message, "tool arguments must be a JSON object"@)
}

/// Whether an error is worth another attempt, by its message.
pub fn is_retryable_error(message: &str) -> (answer: bool)
    ensures
        answer == retryable(message@),
{
    !contains_text(message, "unknown MCP server") && !contains_text(message, "unknown tool")
        && !contains_text(message, "ambiguous tool alias") && !contains_text(
        message,
        "arguments do not satisfy",
    ) && !contains_text(message, "tool arguments must be a JSON object")
}

/// The number, or the largest `u64` where it is larger.
pub open spec fn saturated(number: nat) -> nat {
    if number <= u64::MAX {
        number
    } else {
        u64::MAX as nat
    }
}

/// How often the pause has doubled before the attempt that follows this one.
pub open spec fn doublings(attempt: u32) -> nat {
    if attempt == 0 {
        0
    } else {
        (attempt - 1) as nat
    }
}

/// The pause behind a failed attempt, in milliseconds: the base, doubled with every
/// attempt, as far as a `u64` goes.
pub open spec fn delay_ms(base_delay_ms: u64, attempt: u32) -> nat {
    saturated(base_delay_ms as nat * pow2(doublings(attempt)))
}

/// Computes the pause behind a failed attempt, in milliseconds.
pub fn retry_delay(base_delay_ms: u64, attempt: u32) -> (delay: u64)
    ensures
        delay == delay_ms(base_delay_ms, attempt),
{
    let mut delay: u64 = base_delay_ms;
    let mut left: u32 = if attempt == 0 {
        0
    } else {
        attempt - 1
    };
    let ghost total: nat = left as nat;
    proof {
        lemma2_to64();
        assert(base_delay_ms as nat * 1 == base_delay_ms as nat);
    }
    while left > 0 && delay != 0 && delay != u64::MAX
        invariant
            left <= total,
            delay == saturated(base_delay_ms as nat * pow2((total - left) as nat)),
        decreases left,
    {
        proof {
            lemma_doubled(base_delay_ms as nat, (total - left) as nat);
        }
        delay = if delay <= u64::MAX / 2 {
            delay * 2
        } else {
            u64::MAX
        };
        left -= 1;
    }
    proof {
        lemma_settled(base_delay_ms as nat, (total - left) as nat, total);
    }
    delay
}

proof fn lemma_doubled(base: nat, times: nat)
    ensures
        base * pow2(times + 1) == 2 * (base * pow2(times)),
{
    lemma_pow2_unfold(times + 1);
    let power = pow2(times);
    assert(base * (2 * power) == 2 * (base * power)) by (nonlinear_arith);
}

/// Doubling once more never makes a pause shorter.
proof fn lemma_pause_grows(base: nat, few: nat, many: nat)
    requires
        few <= many,
    ensures
        base * pow2(few) <= base * pow2(many),
    decreases many - few,
{
    if few < many {
        lemma_pause_grows(base, few, (many - 1) as nat);
        lemma_doubled(base, (many - 1) as nat);
    }
}

proof fn lemma_settled(base: nat, done: nat, total: nat)
    requires
        done <= total,
        done == total || saturated(base * pow2(done)) == 0 || saturated(base * pow2(done))
            == u64::MAX,
    ensures
        saturated(base * pow2(total)) == saturated(base * pow2(done)),
{
    lemma_pause_grows(base, done, total);
    if base * pow2(done) == 0 {
        lemma_pow2_pos(done);
        let power = pow2(done);
        assert(base == 0) by (nonlinear_arith)
            requires
                base * power == 0,
                power > 0,
        ;
    }
}

/// How many attempts there are at most.
pub open spec fn max_attempts(options: RetryOptions) -> nat {
    if options.retry == u32::MAX {
        u32::MAX as nat
    } else {
        options.retry as nat + 1
    }
}

/// What follows a failed attempt.
#[derive(Clone, Copy, Debug, PartialEq, Eq)]
pub enum RetryDecision {
    /// The error stands.
    GiveUp,
    /// After a pause comes the attempt of this number.
    RetryAfter { delay_ms: u64, attempt: u32 },
}

/// What follows when an attempt fails with a message.
pub open spec fn decision(
    options: RetryOptions,
    attempt: u32,
    message: Seq<char>,
) -> RetryDecision {
    if attempt >= max_attempts(options) || !retryable(message) {
        RetryDecision::GiveUp
    } else {
        RetryDecision::RetryAfter {
            delay_ms: delay_ms(options.retry_delay_ms, attempt) as u64,
            attempt: (attempt + 1) as u32,
        }
    }
}

/// Decides what follows when an attempt fails. Attempts are numbered from one.
pub fn retry_operation(options: RetryOptions, attempt: u32, message: &str) -> (next: RetryDecision)
    ensures
        next == decision(options, attempt, message@),
        attempt > options.retry ==> next is GiveUp,
        next matches RetryDecision::RetryAfter { attempt: following, .. } ==> following == attempt
            + 1,
{
    let max: u32 = options.retry.saturating_add(1);
    if attempt >= max || !is_retryable_error(message) {
        RetryDecision::GiveUp
    } else {
        RetryDecision::RetryAfter {
            delay_ms: retry_delay(options.retry_delay_ms, attempt),
            attempt: attempt + 1,
        }
    }
}

/// The number of the last attempt, from `attempt` on, where `outcomes` says with which
/// message an attempt fails, if it does.
pub open spec fn last_attempt(
    options: RetryOptions,
    outcomes: spec_fn(u32) -> Option<Seq<char>>,
    attempt: u32,
) -> u32
    decreases u32::MAX - attempt,
{
    match outcomes(attempt) {
        None => attempt,
        Some(message) => match decision(options, attempt, message) {
            RetryDecision::GiveUp => attempt,
            RetryDecision::RetryAfter { .. } => if attempt < u32::MAX {
                last_attempt(options, outcomes, (attempt + 1) as u32)
            } else {
                attempt
            },
        },
    }
}

/// An operation is attempted until it succeeds, fails with an error that is not worth
/// another attempt, or has used up its attempts, and not once more.
pub proof fn law_attempts(
    options: RetryOptions,
    outcomes: spec_fn(u32) -> Option<Seq<char>>,
    attempt: u32,
)
    requires
        1 <= attempt <= max_attempts(options),
    ensures
        attempt <= last_attempt(options, outcomes, attempt) <= max_attempts(options),
        forall|earlier: u32|
            attempt <= earlier < last_attempt(options, outcomes, attempt) ==> {
                &&& (#[trigger] outcomes(earlier)) is Some
                &&& retryable(outcomes(earlier)->0)
            },
        outcomes(last_attempt(options, outcomes, attempt)) matches Some(message) ==> !retryable(
            message,
        ) || last_attempt(options, outcomes, attempt) == max_attempts(options),
    decreases u32::MAX - attempt,
{
    if outcomes(attempt) is Some && decision(options, attempt, outcomes(attempt)->0) is RetryAfter {
        law_attempts(options, outcomes, (attempt + 1) as u32);
    }
}

/// The pause never gets shorter from one attempt to the next.
pub proof fn law_pauses_grow(base_delay_ms: u64, attempt: u32)
    requires
        attempt < u32::MAX,
    ensures
        delay_ms(base_delay_ms, attempt) <= delay_ms(base_delay_ms, (attempt + 1) as u32),
{
    lemma_pause_grows(
        base_delay_ms as nat,
        doublings(attempt),
        doublings((attempt + 1) as u32),
    );
}

/// A longer base never makes a pause shorter.
pub proof fn law_pauses_grow_with_the_base(shorter: u64, longer: u64, attempt: u32)
    requires
        shorter <= longer,
    ensures
        delay_ms(shorter, attempt) <= delay_ms(longer, attempt),
{
    let power = pow2(doublings(attempt));
    assert(shorter as nat * power <= longer as nat * power) by (nonlinear_arith)
        requires
            shorter <= longer,
    ;
}

/// The first pause is the base, and each pause is twice the one before it, as far as a
/// `u64` goes.
pub proof fn law_pauses_double(base_delay_ms: u64, attempt: u32)
    requires
        1 <= attempt < u32::MAX,
    ensures
        delay_ms(base_delay_ms, 1) == base_delay_ms,
        delay_ms(base_delay_ms, (attempt + 1) as u32) == saturated(
            2 * delay_ms(base_delay_ms, attempt),
        ),
{
    lemma2_to64();
    assert(base_delay_ms as nat * 1 == base_delay_ms as nat);
    lemma_doubled(base_delay_ms as nat, doublings(attempt));
    assert(doublings((attempt + 1) as u32) == doublings(attempt) + 1);
}

/// A request for an unknown server or tool, under an ambiguous name, with arguments that
/// lack properties or are no object is not repeated, however many attempts are left.
pub proof fn law_refused_requests_are_not_repeated(
    options: RetryOptions,
    attempt: u32,
    failure: FailureView,
)
    requires
        failure is UnknownServer || failure is UnknownTool || failure is AmbiguousTool
            || failure is MissingProperties || failure is ArgumentsNotObject,
    ensures
        decision(options, attempt, failure.text()) is GiveUp,
{
    let text = failure.text();
    match failure {
        FailureView::UnknownServer { server } => {
            reveal_strlit("unknown MCP server");
            reveal_strlit("unknown MCP server '");
            lemma_starts_with(text, "unknown MCP server"@);
        }
        FailureView::UnknownTool { server, tool } => {
            reveal_strlit("unknown tool");
            reveal_strlit("unknown tool '");
            lemma_starts_with(text, "unknown tool"@);
        }
        FailureView::AmbiguousTool { server, tool, candidates } => {
            reveal_strlit("ambiguous tool alias");
            reveal_strlit("ambiguous tool alias '");
            lemma_starts_with(text, "ambiguous tool alias"@);
        }
        FailureView::MissingProperties { server, tool, missing, unknown, known } => {
            reveal_strlit("arguments do not satisfy");
            reveal_strlit("arguments do not satisfy ");
            lemma_starts_with(text, "arguments do not satisfy"@);
        }
        _ => {
            lemma_starts_with(text, "tool arguments must be a JSON object"@);
        }
    }
}

proof fn lemma_starts_with(text: Seq<char>, phrase: Seq<char>)
    requires
        phrase.len() <= text.len(),
        forall|i: int| 0 <= i < phrase.len() ==> text[i] == phrase[i],
    ensures
        occurs(text, phrase),
{
    assert(text.subrange(0, phrase.len() as int) =~= phrase);
    assert(occurs_at(text, phrase, 0));
}

/// After a failed attempt the error stands if as many attempts have followed the first as
/// were allowed, or if the message says that the request was refused; else the next
/// attempt follows, after the base pause doubled once for each attempt before this one,
/// as far as a `u64` goes.
pub proof fn law_decision(options: RetryOptions, attempt: u32, message: Seq<char>)
    requires
        1 <= attempt,
    ensures
        ({
            let refused = occurs(message, "unknown MCP server"@) || occurs(
                message,
                "unknown tool"@,
            ) || occurs(message, "ambiguous tool alias"@) || occurs(
                message,
                "arguments do not satisfy"@,
            ) || occurs(message, "tool arguments must be a JSON object"@);
            let pause = options.retry_delay_ms as int * pow2((attempt - 1) as nat);
            &&& retryable(message) == !refused
            &&& decision(options, attempt, message) is GiveUp <==> refused || attempt
                > options.retry || attempt == u32::MAX
            &&& decision(options, attempt, message) matches RetryDecision::RetryAfter {
                delay_ms,
                attempt: next,
            } ==> next == attempt + 1 && delay_ms as int == if pause <= u64::MAX {
                pause
            } else {
                u64::MAX as int
            }
        }),
{
}

/// The pause is the base, doubled once for each attempt before this one, as far as a
/// `u64` goes.
pub proof fn law_pause(base_delay_ms: u64, attempt: u32)
    requires
        1 <= attempt,
    ensures
        ({
            let pause = base_delay_ms as int * pow2((attempt - 1) as nat);
            delay_ms(base_delay_ms, attempt) == if pause <= u64::MAX {
                pause
            } else {
                u64::MAX as int
            }
        }),
        delay_ms(base_delay_ms, 0) == base_delay_ms,
{
    lemma2_to64();
    assert(base_delay_ms as nat * 1 == base_delay_ms as nat);
}

/// An operation that fails every time with an error that is worth another attempt is
/// attempted once and then as often again as was asked for; one that succeeds before is
/// not attempted again.
pub proof fn law_number_of_attempts(
    options: RetryOptions,
    outcomes: spec_fn(u32) -> Option<Seq<char>>,
    success: u32,
)
    requires
        options.retry < u32::MAX,
        1 <= success <= options.retry + 1,
        forall|attempt: u32|
            1 <= attempt < success ==> (#[trigger] outcomes(attempt)) is Some && retryable(
                outcomes(attempt)->0,
            ),
        outcomes(success) is None || success == options.retry + 1,
    ensures
        last_attempt(options, outcomes, 1) == success,
{
    lemma_attempts_until(options, outcomes, success, 1);
}

proof fn lemma_attempts_until(
    options: RetryOptions,
    outcomes: spec_fn(u32) -> Option<Seq<char>>,
    success: u32,
    attempt: u32,
)
    requires
        options.retry < u32::MAX,
        1 <= attempt <= success <= options.retry + 1,
        forall|attempt: u32|
            1 <= attempt < success ==> (#[trigger] outcomes(attempt)) is Some && retryable(
                outcomes(attempt)->0,
            ),
        outcomes(success) is None || success == options.retry + 1,
    ensures
        last_attempt(options, outcomes, attempt) == success,
    decreases success - attempt,
{
    if attempt < success {
        assert(outcomes(attempt) is Some);
        lemma_attempts_until(options, outcomes, success, (attempt + 1) as u32);
    }
}

} // verus!
