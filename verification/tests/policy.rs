use near_python::json::{JsonNumber, JsonValue};
use near_python::policy::Policy;

fn s(text: &str) -> String {
    text.to_string()
}

fn strings(items: &[&str]) -> JsonValue {
    JsonValue::Array(items.iter().map(|t| JsonValue::Str(s(t))).collect())
}

fn tier_policy(tier: u8) -> Policy {
    Policy::default_for_tier(tier)
}

#[test]
fn default_policy_has_only_a_tier() {
    let p = Policy::default_for_tier(2);
    assert_eq!(p.tier, 2);
    assert!(p.allowed_contracts.is_none());
    assert!(p.blocked_methods.is_empty());
    assert!(p.max_gas.is_none());
    assert!(p.max_deposit.is_none());
    assert!(p.max_calls_per_run.is_none());
    assert!(p.attested_hashes.is_none());
    assert_eq!(p.call_count, 0);
}

#[test]
fn tier_one_refuses_calls() {
    let mut p = tier_policy(1);
    let r = p.check_call("c.near", "m", "1", "0");
    assert_eq!(r, Err(s("Tier 1: write operations not allowed")));
    assert_eq!(p.call_count, 0);
}

#[test]
fn tier_two_allows_call_and_counts_it() {
    let mut p = tier_policy(2);
    assert_eq!(p.check_call("c.near", "m", "1", "0"), Ok(()));
    assert_eq!(p.check_call("d.near", "n", "1", "0"), Ok(()));
    assert_eq!(p.call_count, 2);
}

#[test]
fn blocked_method_is_refused() {
    let mut p = tier_policy(3);
    p.blocked_methods = vec![s("withdraw"), s("delete")];
    let r = p.check_call("c.near", "delete", "1", "0");
    assert_eq!(r, Err(s("Policy: method 'delete' is blocked")));
    assert_eq!(p.call_count, 0);
}

#[test]
fn contract_outside_whitelist_is_refused() {
    let mut p = tier_policy(2);
    p.allowed_contracts = Some(vec![(s("ref.near"), vec![s("swap")])]);
    let r = p.check_call("other.near", "swap", "1", "0");
    assert_eq!(r, Err(s("Policy: contract 'other.near' not in allowed list")));
}

#[test]
fn method_outside_contract_list_is_refused() {
    let mut p = tier_policy(2);
    p.allowed_contracts = Some(vec![(s("ref.near"), vec![s("swap")])]);
    let r = p.check_call("ref.near", "withdraw", "1", "0");
    assert_eq!(
        r,
        Err(s("Policy: method 'withdraw' not allowed for contract 'ref.near'"))
    );
    assert_eq!(p.check_call("ref.near", "swap", "1", "0"), Ok(()));
}

#[test]
fn empty_method_list_allows_every_method() {
    let mut p = tier_policy(2);
    p.allowed_contracts = Some(vec![(s("ref.near"), vec![])]);
    assert_eq!(p.check_call("ref.near", "anything", "1", "0"), Ok(()));
    assert_eq!(p.call_count, 1);
}

#[test]
fn gas_over_limit_is_refused() {
    let mut p = tier_policy(2);
    p.max_gas = Some(300);
    let r = p.check_call("c.near", "m", "301", "0");
    assert_eq!(r, Err(s("Policy: gas 301 exceeds max 300")));
    assert_eq!(p.check_call("c.near", "m", "300", "0"), Ok(()));
}

#[test]
fn unreadable_gas_is_not_limited() {
    let mut p = tier_policy(2);
    p.max_gas = Some(300);
    assert_eq!(p.check_call("c.near", "m", "lots", "0"), Ok(()));
    assert_eq!(p.check_call("c.near", "m", "-5", "0"), Ok(()));
}

#[test]
fn deposit_over_limit_is_refused() {
    let mut p = tier_policy(2);
    p.max_deposit = Some(1000000000000000000000000);
    let r = p.check_call("c.near", "m", "1", "2000000000000000000000000");
    assert_eq!(
        r,
        Err(s(
            "Policy: deposit 2000000000000000000000000 exceeds max 1000000000000000000000000"
        ))
    );
}

#[test]
fn rate_limit_refuses_after_max_and_still_counts() {
    let mut p = tier_policy(2);
    p.max_calls_per_run = Some(2);
    assert_eq!(p.check_call("c.near", "m", "1", "0"), Ok(()));
    assert_eq!(p.check_call("c.near", "m", "1", "0"), Ok(()));
    let r = p.check_call("c.near", "m", "1", "0");
    assert_eq!(r, Err(s("Policy: exceeded max 2 calls per run")));
    assert_eq!(p.call_count, 3);
}

#[test]
fn transfers_need_tier_three() {
    let mut p = tier_policy(2);
    assert_eq!(p.check_transfer("5"), Err(s("Tier 2: transfers not allowed")));
    let mut q = tier_policy(3);
    assert_eq!(q.check_transfer("5"), Ok(()));
    assert_eq!(q.call_count, 1);
}

#[test]
fn transfer_over_limit_is_refused() {
    let mut p = tier_policy(3);
    p.max_deposit = Some(5);
    assert_eq!(
        p.check_transfer("10"),
        Err(s("Policy: transfer amount 10 exceeds max 5"))
    );
    assert_eq!(p.call_count, 0);
}

#[test]
fn transfers_share_the_rate_limit() {
    let mut p = tier_policy(3);
    p.max_calls_per_run = Some(1);
    assert_eq!(p.check_call("c.near", "m", "1", "0"), Ok(()));
    assert_eq!(
        p.check_transfer("1"),
        Err(s("Policy: exceeded max 1 calls per run"))
    );
}

#[test]
fn raw_transactions_need_tier_three() {
    let mut p = tier_policy(1);
    assert_eq!(p.check_send_tx(), Err(s("Tier 1: raw transactions not allowed")));
    let mut q = tier_policy(3);
    q.max_calls_per_run = Some(0);
    assert_eq!(q.check_send_tx(), Err(s("Policy: exceeded max 0 calls per run")));
    let mut r = tier_policy(3);
    assert_eq!(r.check_send_tx(), Ok(()));
}

#[test]
fn policy_from_full_document() {
    let doc = JsonValue::Object(vec![
        (s("tier"), JsonValue::Number(JsonNumber::PosInt(3))),
        (
            s("allowed_contracts"),
            JsonValue::Object(vec![
                (s("ref.near"), strings(&["swap", "deposit"])),
                (s("wrap.near"), strings(&[])),
            ]),
        ),
        (s("blocked_methods"), strings(&["delete_account"])),
        (s("max_gas"), JsonValue::Str(s("300000000000000"))),
        (s("max_deposit"), JsonValue::Str(s("1000"))),
        (s("max_calls_per_run"), JsonValue::Number(JsonNumber::PosInt(5))),
        (s("attested_hashes"), strings(&["abc"])),
    ]);
    let p = Policy::from_json(&doc);
    assert_eq!(p.tier, 3);
    let contracts = p.allowed_contracts.clone().unwrap();
    assert_eq!(contracts.len(), 2);
    assert_eq!(contracts[0].0, "ref.near");
    assert_eq!(contracts[0].1, vec![s("swap"), s("deposit")]);
    assert_eq!(contracts[1].0, "wrap.near");
    assert!(contracts[1].1.is_empty());
    assert_eq!(p.blocked_methods, vec![s("delete_account")]);
    assert_eq!(p.max_gas, Some(300000000000000));
    assert_eq!(p.max_deposit, Some(1000));
    assert_eq!(p.max_calls_per_run, Some(5));
    assert_eq!(p.attested_hashes, Some(vec![s("abc")]));
    assert_eq!(p.call_count, 0);
}

#[test]
fn policy_from_empty_document_is_tier_one() {
    let p = Policy::from_json(&JsonValue::Object(vec![]));
    assert_eq!(p.tier, 1);
    assert!(p.allowed_contracts.is_none());
    assert!(p.blocked_methods.is_empty());
    assert!(p.max_gas.is_none());
    assert!(p.max_deposit.is_none());
    assert!(p.max_calls_per_run.is_none());
    assert!(p.attested_hashes.is_none());
}

#[test]
fn policy_from_document_skips_what_does_not_read() {
    let doc = JsonValue::Object(vec![
        (s("tier"), JsonValue::Str(s("3"))),
        (s("allowed_contracts"), JsonValue::Object(vec![])),
        (
            s("blocked_methods"),
            JsonValue::Array(vec![
                JsonValue::Str(s("a")),
                JsonValue::Number(JsonNumber::PosInt(1)),
                JsonValue::Str(s("b")),
            ]),
        ),
        (s("max_gas"), JsonValue::Number(JsonNumber::PosInt(100))),
        (s("max_deposit"), JsonValue::Str(s("12x"))),
        (s("max_calls_per_run"), JsonValue::Number(JsonNumber::NegInt(-1))),
    ]);
    let p = Policy::from_json(&doc);
    assert_eq!(p.tier, 1);
    assert!(p.allowed_contracts.is_none());
    assert_eq!(p.blocked_methods, vec![s("a"), s("b")]);
    assert!(p.max_gas.is_none());
    assert!(p.max_deposit.is_none());
    assert!(p.max_calls_per_run.is_none());
}

#[test]
fn policy_numbers_wrap_as_the_field_types() {
    let doc = JsonValue::Object(vec![
        (s("tier"), JsonValue::Number(JsonNumber::PosInt(258))),
        (s("max_calls_per_run"), JsonValue::Number(JsonNumber::PosInt(4294967297))),
    ]);
    let p = Policy::from_json(&doc);
    assert_eq!(p.tier, 2);
    assert_eq!(p.max_calls_per_run, Some(1));
}

#[test]
fn tier_only_document_gives_default_policy() {
    let doc = JsonValue::Object(vec![(s("tier"), JsonValue::Number(JsonNumber::PosInt(2)))]);
    let p = Policy::from_json(&doc);
    let d = Policy::default_for_tier(2);
    assert_eq!(p.tier, d.tier);
    assert_eq!(p.allowed_contracts, d.allowed_contracts);
    assert_eq!(p.blocked_methods, d.blocked_methods);
    assert_eq!(p.max_gas, d.max_gas);
    assert_eq!(p.max_deposit, d.max_deposit);
    assert_eq!(p.max_calls_per_run, d.max_calls_per_run);
    assert_eq!(p.attested_hashes, d.attested_hashes);
}

#[test]
fn after_a_rate_refusal_everything_is_refused() {
    let mut p = tier_policy(3);
    p.max_calls_per_run = Some(1);
    assert_eq!(p.check_send_tx(), Ok(()));
    assert_eq!(p.check_call("c.near", "m", "1", "0"), Err(s("Policy: exceeded max 1 calls per run")));
    assert!(p.check_transfer("1").is_err());
    assert!(p.check_send_tx().is_err());
    assert!(p.check_call("c.near", "m", "1", "0").is_err());
}
