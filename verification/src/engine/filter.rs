use vstd::prelude::*;

use vstd::relations::sorted_by;

use crate::engine::errors::{CoreError, CoreResult};
use crate::ext::json;
use crate::index::sql::{all_white, has_visible, is_white};
use crate::math::topk::{lemma_insert_multiset, lemma_sorted_prefix_pair};
use crate::text;

verus! {

/// Configuration of the external filter HTTP endpoint.
#[derive(Debug, Clone)]
pub struct FilterHttpConfigPayload {
    pub url: String,
    pub timeout_ms: u64,
    pub auth_token: Option<String>,
    pub model: Option<String>,
}

/// One keep-or-drop verdict of the external filter.
#[derive(Debug, Clone)]
pub struct FilterDecision {
    pub node_id: String,
    pub keep: bool,
    pub reason: String,
}

/// One page candidate handed to the external filter.
#[derive(Debug, Clone)]
pub struct FilterCandidateInput {
    pub node_id: String,
    pub content: String,
}

/// Validates the filter endpoint configuration: a non-blank URL and a
/// positive timeout.
pub fn validate_filter_config(config: &FilterHttpConfigPayload) -> (r: CoreResult<()>)
    ensures
        r is Ok <==> !all_white(config.url@) && config.timeout_ms >= 1,
        r matches Err(e) ==> e is InvalidConfig,
{
    if !has_visible(config.url.as_str()) {
        return Err(CoreError::InvalidConfig("filter url must not be empty".to_string()));
    }
    if config.timeout_ms == 0 {
        return Err(
            CoreError::InvalidConfig("filter timeout must be at least one millisecond".to_string()),
        );
    }
    Ok(())
}

/// Exec decision of `is_white`.
fn white_char(c: char) -> (r: bool)
    ensures
        r == is_white(c),
{
    let u = c as u32;
    (0x09 <= u && u <= 0x0D) || u == 0x20 || u == 0x85 || u == 0xA0 || u == 0x1680 || (0x2000 <= u
        && u <= 0x200A) || u == 0x2028 || u == 0x2029 || u == 0x202F || u == 0x205F || u == 0x3000
}

/// `s` without its leading whitespace.
pub open spec fn trim_left(s: Seq<char>) -> Seq<char>
    decreases s.len(),
{
    if s.len() > 0 && is_white(s.first()) {
        trim_left(s.drop_first())
    } else {
        s
    }
}

/// `s` without its trailing whitespace.
pub open spec fn trim_right(s: Seq<char>) -> Seq<char>
    decreases s.len(),
{
    if s.len() > 0 && is_white(s.last()) {
        trim_right(s.drop_last())
    } else {
        s
    }
}

/// `s` without leading and trailing whitespace: what `str::trim` keeps.
pub open spec fn trim_spec(s: Seq<char>) -> Seq<char> {
    trim_right(trim_left(s))
}

/// Dropping a known-white prefix is what `trim_left` does.
proof fn lemma_trim_left(s: Seq<char>, i: int)
    requires
        0 <= i <= s.len(),
        forall|k: int| 0 <= k < i ==> is_white(#[trigger] s[k]),
        i == s.len() || !is_white(s[i]),
    ensures
        trim_left(s) == s.skip(i),
    decreases i,
{
    if i == 0 {
        assert(s.skip(0) =~= s);
    } else {
        let t = s.drop_first();
        assert(forall|k: int| 0 <= k < i - 1 ==> is_white(#[trigger] t[k]));
        lemma_trim_left(t, i - 1);
        assert(t.skip(i - 1) =~= s.skip(i));
    }
}

/// Dropping a known-white suffix is what `trim_right` does.
proof fn lemma_trim_right(s: Seq<char>, j: int)
    requires
        0 <= j <= s.len(),
        forall|k: int| j <= k < s.len() ==> is_white(#[trigger] s[k]),
        j == 0 || !is_white(s[j - 1]),
    ensures
        trim_right(s) == s.take(j),
    decreases s.len(),
{
    if j == s.len() {
        if s.len() > 0 && is_white(s.last()) {
            assert(!is_white(s[j - 1]));
        }
        assert(s.take(j) =~= s);
    } else {
        let t = s.drop_last();
        assert(forall|k: int| j <= k < t.len() ==> is_white(#[trigger] t[k]));
        lemma_trim_right(t, j);
        assert(t.take(j) =~= s.take(j));
    }
}

/// The trimmed copy of `s`.
fn trim_str(s: &str) -> (r: String)
    ensures
        r@ == trim_spec(s@),
{
    let n = s.unicode_len();
    let mut start: usize = 0;
    let mut found: bool = false;
    for i in 0..n
        invariant
            n as nat == s@.len(),
            !found ==> start == 0 && forall|k: int| 0 <= k < i as int ==> is_white(#[trigger] s@[k]),
            found ==> start < i as int + 1 && start < n && !is_white(s@[start as int]) && forall|
                k: int,
            |
                0 <= k < start as int ==> is_white(#[trigger] s@[k]),
    {
        if !found && !white_char(s.get_char(i)) {
            start = i;
            found = true;
        }
    }
    if !found {
        proof {
            lemma_trim_left(s@, s@.len() as int);
            assert(s@.skip(s@.len() as int) =~= Seq::<char>::empty());
            assert(trim_right(Seq::<char>::empty()) == Seq::<char>::empty());
        }
        return String::new();
    }
    let mut end: usize = n;
    let mut j: usize = n;
    loop
        invariant
            start < j <= n,
            n as nat == s@.len(),
            end == n,
            !is_white(s@[start as int]),
            forall|k: int| j <= k < n as int ==> is_white(#[trigger] s@[k]),
        ensures
            start < j <= n,
            forall|k: int| j <= k < n as int ==> is_white(#[trigger] s@[k]),
            !is_white(s@[j - 1]),
        decreases j,
    {
        if !white_char(s.get_char(j - 1)) {
            break ;
        }
        proof {
            if j - 1 == start {
                assert(false);
            }
        }
        j = j - 1;
    }
    let trimmed = s.substring_char(start, j);
    proof {
        lemma_trim_left(s@, start as int);
        lemma_trim_right(s@.skip(start as int), j - start as int);
        assert(s@.skip(start as int).take(j - start as int) =~= s@.subrange(
            start as int,
            j as int,
        ));
    }
    trimmed.to_owned()
}

/// The fields the filter protocol reads out of a JSON response body.
pub struct FilterFields {
    pub keep: Option<bool>,
    pub reason: Option<String>,
    pub flag: Option<String>,
}

/// The decision the filter protocol takes on the fields of a JSON
/// response: an explicit `keep` boolean wins, with the `reason` string or
/// a fixed fallback; otherwise a `result` flag of "1" or "0" decides; any
/// other shape is an unsupported response.
pub fn decide_filter_fields(fields: FilterFields) -> (r: Result<(bool, String), String>)
    ensures
        fields.keep matches Some(k) ==> (r matches Ok(d) && d.0 == k && (fields.reason matches Some(
            re,
        ) ==> d.1@ == re@) && (fields.reason is None ==> d.1@ == "json-response"@)),
        (fields.keep is None && (fields.flag matches Some(f) && f@ == "1"@)) ==> (r matches Ok(d)
            && d.0 == true && d.1@ == "json-result"@),
        (fields.keep is None && (fields.flag matches Some(f) && f@ == "0"@ && !(f@ == "1"@))) ==> (
        r matches Ok(d) && d.0 == false && d.1@ == "json-result"@),
        fields.keep is None && (fields.flag matches Some(f) ==> !(f@ == "1"@) && !(f@ == "0"@))
            ==> r is Err,
{
    match fields.keep {
        Some(k) => {
            let reason = match fields.reason {
                Some(re) => re,
                None => "json-response".to_owned(),
            };
            Ok((k, reason))
        },
        None => {
            match fields.flag {
                Some(f) => {
                    if string_eq_lit(&f, "1") {
                        Ok((true, "json-result".to_owned()))
                    } else if string_eq_lit(&f, "0") {
                        Ok((false, "json-result".to_owned()))
                    } else {
                        Err("unsupported filter response shape".to_owned())
                    }
                },
                None => Err("unsupported filter response shape".to_owned()),
            }
        },
    }
}

/// Whether a string equals a literal, by view.
fn string_eq_lit(s: &String, lit: &str) -> (r: bool)
    ensures
        r == (s@ == lit@),
{
    let se: &String = s;
    let le: String = lit.to_owned();
    *se == le
}

/// Parses one filter HTTP response body. A bare `1` or `0` (after
/// trimming) is a binary verdict; otherwise the body must be a JSON
/// document, whose `keep`/`reason`/`result` members decide as in
/// `decide_filter_fields`; a body that is neither is an error.
pub fn parse_filter_response(body: &str) -> (r: Result<(bool, String), String>)
    ensures
        trim_spec(body@) == "1"@ ==> (r matches Ok(d) && d.0 == true && d.1@ == "binary-response"@),
        trim_spec(body@) == "0"@ && !(trim_spec(body@) == "1"@) ==> (r matches Ok(d) && d.0 == false
            && d.1@ == "binary-response"@),
        !(trim_spec(body@) == "1"@) && !(trim_spec(body@) == "0"@) && !json_ok_trimmed(body@) ==> r
            is Err,
{
    let trimmed = trim_str(body);
    if string_eq_lit(&trimmed, "1") {
        return Ok((true, "binary-response".to_owned()));
    }
    if string_eq_lit(&trimmed, "0") {
        return Ok((false, "binary-response".to_owned()));
    }
    let value = match json::parse_json(trimmed.as_str()) {
        Some(v) => v,
        None => {
            return Err("the filter response is not a JSON document".to_owned());
        },
    };
    let keep = match json::json_get(&value, "keep") {
        Some(member) => json::json_as_bool(member),
        None => None,
    };
    let reason = match json::json_get(&value, "reason") {
        Some(member) => json::json_as_string(member),
        None => None,
    };
    let flag = match json::json_get(&value, "result") {
        Some(member) => json::json_as_string(member),
        None => None,
    };
    decide_filter_fields(FilterFields { keep, reason, flag })
}

/// Order of filter decisions: ascending node identifier.
pub open spec fn decision_leq(a: FilterDecision, b: FilterDecision) -> bool {
    text::lex_leq(a.node_id@, b.node_id@)
}

/// `decision_leq` as a first-class relation.
pub open spec fn decision_order() -> spec_fn(FilterDecision, FilterDecision) -> bool {
    |a: FilterDecision, b: FilterDecision| decision_leq(a, b)
}

/// Exec decision of the decision order.
fn decision_le(a: &FilterDecision, b: &FilterDecision) -> (r: bool)
    ensures
        r == decision_leq(*a, *b),
{
    text::str_lex_le(a.node_id.as_str(), b.node_id.as_str())
}

/// Sorts filter decisions by ascending node identifier, so that verdicts
/// come back in a deterministic order whatever order the parallel filter
/// calls finished in.
pub fn sort_decisions(decisions: &mut Vec<FilterDecision>)
    ensures
        final(decisions)@.to_multiset() == old(decisions)@.to_multiset(),
        sorted_by(final(decisions)@, decision_order()),
{
    let n = decisions.len();
    if n > 1 {
        let mut i: usize = 1;
        while i < n
            invariant
                1 <= i <= n,
                n == decisions@.len(),
                decisions@.to_multiset() == old(decisions)@.to_multiset(),
                sorted_by(decisions@.take(i as int), decision_order()),
            decreases n - i,
        {
            let ghost s0 = decisions@;
            let y = decisions.remove(i);
            let ghost s1 = decisions@;
            let mut p: usize = i;
            loop
                invariant
                    0 <= p <= i < n,
                    decisions@ == s1,
                    s1 == s0.remove(i as int),
                    s1.len() == n - 1,
                    n == s0.len(),
                    y == s0[i as int],
                    forall|k: int| 0 <= k < i as int ==> #[trigger] s1[k] == s0[k],
                    forall|k: int| p <= k < i as int ==> decision_leq(y, #[trigger] s1[k]),
                    sorted_by(s0.take(i as int), decision_order()),
                ensures
                    0 <= p <= i,
                    decisions@ == s1,
                    forall|k: int| p <= k < i as int ==> decision_leq(y, #[trigger] s1[k]),
                    forall|k: int| 0 <= k < p as int ==> decision_leq(#[trigger] s1[k], y),
                decreases p,
            {
                if p == 0 {
                    break ;
                }
                let prev = decisions.get(p - 1).unwrap();
                if decision_le(prev, &y) {
                    proof {
                        assert forall|k: int| 0 <= k < p as int implies decision_leq(
                            #[trigger] s1[k],
                            y,
                        ) by {
                            if k < p - 1 {
                                lemma_sorted_prefix_pair(s0, decision_order(), i as int, k, p - 1);
                                text::lemma_lex_trans(
                                    s0[k].node_id@,
                                    s0[p - 1].node_id@,
                                    y.node_id@,
                                );
                            }
                        }
                    }
                    break ;
                }
                proof {
                    text::lemma_lex_total(s1[p - 1].node_id@, y.node_id@);
                    assert(decision_leq(y, s1[p - 1]));
                }
                p = p - 1;
            }
            decisions.insert(p, y);
            proof {
                let s2 = s1.insert(p as int, y);
                assert(decisions@ == s2);
                broadcast use vstd::seq_lib::group_to_multiset_ensures;

                lemma_insert_multiset(s1, p as int, y);
                assert(s0.contains(s0[i as int]));
                assert(s2.to_multiset() =~= s0.to_multiset());
                assert forall|a2: int, b2: int|
                    0 <= a2 < b2 < i as int + 1 implies decision_leq(
                    #[trigger] s2[a2],
                    #[trigger] s2[b2],
                ) by {
                    assert(forall|k: int|
                        0 <= k < p as int ==> #[trigger] s2[k] == s1[k] && s2[k] == s0[k]);
                    assert(s2[p as int] == y);
                    assert(forall|k: int|
                        (p as int) < k <= i as int ==> #[trigger] s2[k] == s1[k - 1] && s2[k]
                            == s0[k - 1]);
                    if b2 < p {
                        lemma_sorted_prefix_pair(s0, decision_order(), i as int, a2, b2);
                    } else if b2 == p {
                        assert(decision_leq(s1[a2], y));
                    } else {
                        if a2 < p {
                            assert(decision_leq(s1[a2], y));
                            assert(decision_leq(y, s1[b2 - 1]));
                            text::lemma_lex_trans(
                                s0[a2].node_id@,
                                y.node_id@,
                                s0[b2 - 1].node_id@,
                            );
                        } else if a2 == p {
                            assert(decision_leq(y, s1[b2 - 1]));
                        } else {
                            lemma_sorted_prefix_pair(
                                s0,
                                decision_order(),
                                i as int,
                                a2 - 1,
                                b2 - 1,
                            );
                        }
                    }
                }
                assert(sorted_by(s2.take(i as int + 1), decision_order()));
            }
            i = i + 1;
        }
        proof {
            assert(decisions@.take(n as int) =~= decisions@);
        }
    }
}

/// Whether the trimmed body is an acceptable JSON document.
pub open spec fn json_ok_trimmed(body: Seq<char>) -> bool {
    json::json_ok(trim_spec(body))
}

} // verus!
