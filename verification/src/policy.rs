//! Policy engine for the three-tier security model.
//!
//! Tier 1: read-only (view, block, view_account, ...).
//! Tier 2: tier 1 and calls to whitelisted contracts (no transfers).
//! Tier 3: tier 2 and transfers and raw transaction sending.
use vstd::prelude::*;
use crate::json::{
    json_as_str,
    json_as_u64,
    json_get,
    json_strings,
    str_eq,
    string_items,
    JsonValue,
};
use crate::text::{chars_of, decimal, decimal_string, parse_u128, u128_parse};

verus! {

/// Runtime policy, loaded from the `policy` member of the input document.
#[derive(Clone, Debug)]
pub struct Policy {
    pub tier: u8,
    /// Whitelisted contracts, each with its allowed method names (an empty list
    /// allows every method of that contract). Each contract appears once.
    pub allowed_contracts: Option<Vec<(String, Vec<String>)>>,
    /// Method names that are refused whatever the contract.
    pub blocked_methods: Vec<String>,
    /// Largest gas one call may attach.
    pub max_gas: Option<u128>,
    /// Largest deposit one call, or one transfer, may attach.
    pub max_deposit: Option<u128>,
    /// Largest number of counted operations per script run.
    pub max_calls_per_run: Option<u32>,
    /// Attested WASM hashes allowed (tier 3 only).
    pub attested_hashes: Option<Vec<String>>,
    /// Operations counted so far in this run.
    pub call_count: u32,
}

/// One operation that a script asks the policy about.
pub enum Operation {
    /// `near.call()` to `receiver`'s method `method` with the given gas and deposit.
    Call { receiver: Seq<char>, method: Seq<char>, gas: Seq<char>, deposit: Seq<char> },
    /// `near.transfer()` of an amount in yoctoNEAR.
    Transfer { amount: Seq<char> },
    /// `near.send_tx()`.
    SendTx,
}

/// The texts of a list of strings.
pub open spec fn texts(v: Seq<String>) -> Seq<Seq<char>> {
    v.map_values(|s: String| s@)
}

/// The allowed methods of the first whitelisted entry for `receiver`.
pub open spec fn contract_lookup(entries: Seq<(String, Vec<String>)>, receiver: Seq<char>) -> Option<
    Seq<Seq<char>>,
>
    decreases entries.len(),
{
    if entries.len() == 0 {
        None
    } else if entries[0].0@ == receiver {
        Some(texts(entries[0].1@))
    } else {
        contract_lookup(entries.drop_first(), receiver)
    }
}

// ------------------------------------------------------------------
// Refusal messages
// ------------------------------------------------------------------

pub open spec fn msg_read_only() -> Seq<char> {
    "Tier 1: write operations not allowed"@
}

pub open spec fn msg_method_blocked(method: Seq<char>) -> Seq<char> {
    "Policy: method '"@ + method + "' is blocked"@
}

pub open spec fn msg_method_not_allowed(method: Seq<char>, receiver: Seq<char>) -> Seq<char> {
    "Policy: method '"@ + method + "' not allowed for contract '"@ + receiver + "'"@
}

pub open spec fn msg_contract_not_allowed(receiver: Seq<char>) -> Seq<char> {
    "Policy: contract '"@ + receiver + "' not in allowed list"@
}

pub open spec fn msg_gas_exceeds(gas: Seq<char>, max: u128) -> Seq<char> {
    "Policy: gas "@ + gas + " exceeds max "@ + decimal(max as nat)
}

pub open spec fn msg_deposit_exceeds(deposit: Seq<char>, max: u128) -> Seq<char> {
    "Policy: deposit "@ + deposit + " exceeds max "@ + decimal(max as nat)
}

pub open spec fn msg_rate_limit(max: u32) -> Seq<char> {
    "Policy: exceeded max "@ + decimal(max as nat) + " calls per run"@
}

pub open spec fn msg_no_transfers(tier: u8) -> Seq<char> {
    "Tier "@ + decimal(tier as nat) + ": transfers not allowed"@
}

pub open spec fn msg_transfer_exceeds(amount: Seq<char>, max: u128) -> Seq<char> {
    "Policy: transfer amount "@ + amount + " exceeds max "@ + decimal(max as nat)
}

pub open spec fn msg_no_raw_tx(tier: u8) -> Seq<char> {
    "Tier "@ + decimal(tier as nat) + ": raw transactions not allowed"@
}

/// Whether `r` is the verdict `expected`: `Ok` for none, the error text otherwise.
pub open spec fn verdict_is(r: Result<(), String>, expected: Option<Seq<char>>) -> bool {
    match expected {
        Some(m) => r matches Err(e) && e@ == m,
        None => r is Ok,
    }
}

impl Policy {
    /// Whether a limit refuses `value`: it is a numeral in range that exceeds the limit.
    pub open spec fn over_limit(limit: Option<u128>, value: Seq<char>) -> bool {
        limit matches Some(max) && u128_parse(value) matches Some(v) && v > max
    }

    /// Why a call is refused before it is counted, if it is.
    pub open spec fn call_refusal(
        self,
        receiver: Seq<char>,
        method: Seq<char>,
        gas: Seq<char>,
        deposit: Seq<char>,
    ) -> Option<Seq<char>> {
        if self.tier < 2 {
            Some(msg_read_only())
        } else if texts(self.blocked_methods@).contains(method) {
            Some(msg_method_blocked(method))
        } else if self.allowed_contracts matches Some(entries) && contract_lookup(
            entries@,
            receiver,
        ) is None {
            Some(msg_contract_not_allowed(receiver))
        } else if self.allowed_contracts matches Some(entries) && contract_lookup(
            entries@,
            receiver,
        ) matches Some(methods) && methods.len() > 0 && !methods.contains(method) {
            Some(msg_method_not_allowed(method, receiver))
        } else if Self::over_limit(self.max_gas, gas) {
            Some(msg_gas_exceeds(gas, self.max_gas->0))
        } else if Self::over_limit(self.max_deposit, deposit) {
            Some(msg_deposit_exceeds(deposit, self.max_deposit->0))
        } else {
            None
        }
    }

    /// Why a transfer is refused before it is counted, if it is.
    pub open spec fn transfer_refusal(self, amount: Seq<char>) -> Option<Seq<char>> {
        if self.tier < 3 {
            Some(msg_no_transfers(self.tier))
        } else if Self::over_limit(self.max_deposit, amount) {
            Some(msg_transfer_exceeds(amount, self.max_deposit->0))
        } else {
            None
        }
    }

    /// Why a raw transaction is refused before it is counted, if it is.
    pub open spec fn send_tx_refusal(self) -> Option<Seq<char>> {
        if self.tier < 3 {
            Some(msg_no_raw_tx(self.tier))
        } else {
            None
        }
    }

    /// Why an operation is refused before it is counted, if it is.
    pub open spec fn refusal(self, op: Operation) -> Option<Seq<char>> {
        match op {
            Operation::Call { receiver, method, gas, deposit } => self.call_refusal(
                receiver,
                method,
                gas,
                deposit,
            ),
            Operation::Transfer { amount } => self.transfer_refusal(amount),
            Operation::SendTx => self.send_tx_refusal(),
        }
    }

    /// The rate limit's refusal once `count` operations have been counted.
    pub open spec fn rate_refusal(self, count: int) -> Option<Seq<char>> {
        match self.max_calls_per_run {
            Some(max) => if count > max {
                Some(msg_rate_limit(max))
            } else {
                None
            },
            None => None,
        }
    }

    /// The policy after one more operation is counted.
    pub open spec fn counted(self) -> Policy {
        Policy { call_count: (self.call_count + 1) as u32, ..self }
    }

    /// The policy after `op` is checked, and the verdict.
    pub open spec fn after(self, op: Operation) -> (Policy, Option<Seq<char>>) {
        match self.refusal(op) {
            Some(msg) => (self, Some(msg)),
            None => (self.counted(), self.rate_refusal(self.call_count + 1)),
        }
    }

    /// Whether checking `op` may count it without the counter overflowing.
    pub open spec fn can_count(self, op: Operation) -> bool {
        self.refusal(op) is None ==> self.call_count < u32::MAX
    }

    /// Whether the policy is the default one for `tier`.
    pub open spec fn is_default_for(self, tier: u8) -> bool {
        &&& self.tier == tier
        &&& self.allowed_contracts is None
        &&& self.blocked_methods@.len() == 0
        &&& self.max_gas is None
        &&& self.max_deposit is None
        &&& self.max_calls_per_run is None
        &&& self.attested_hashes is None
        &&& self.call_count == 0
    }
}

// ------------------------------------------------------------------
// Loading from JSON
// ------------------------------------------------------------------

/// The allowed methods that a whitelist member's value gives: the strings of an
/// array, none for anything else.
pub open spec fn json_methods(v: JsonValue) -> Seq<Seq<char>> {
    match v {
        JsonValue::Array(a) => json_strings(a@),
        _ => Seq::empty(),
    }
}

/// The strings of the array member `key` of `v`, if it is an array.
pub open spec fn json_string_list(v: JsonValue, key: Seq<char>) -> Option<Seq<Seq<char>>> {
    match json_get(v, key) {
        Some(JsonValue::Array(a)) => Some(json_strings(a@)),
        _ => None,
    }
}

/// The non-negative integer member `key` of `v`.
pub open spec fn json_u64_member(v: JsonValue, key: Seq<char>) -> Option<u64> {
    match json_get(v, key) {
        Some(x) => json_as_u64(x),
        None => None,
    }
}

/// The amount that the string member `key` of `v` holds as a numeral.
pub open spec fn json_amount_member(v: JsonValue, key: Seq<char>) -> Option<u128> {
    match json_get(v, key) {
        Some(x) => match json_as_str(x) {
            Some(s) => u128_parse(s),
            None => None,
        },
        None => None,
    }
}

/// Whether `p` is the policy that the document `v` describes.
pub open spec fn loaded_from(p: Policy, v: JsonValue) -> bool {
    &&& p.tier == (match json_u64_member(v, "tier"@) {
        Some(n) => n as u8,
        None => 1u8,
    })
    &&& match json_get(v, "allowed_contracts"@) {
        Some(JsonValue::Object(entries)) if entries@.len() > 0 => {
            &&& p.allowed_contracts matches Some(list)
            &&& list@.len() == entries@.len()
            &&& forall|i: int|
                0 <= i < list@.len() ==> (#[trigger] list@[i]).0@ == entries@[i].0@ && texts(
                    list@[i].1@,
                ) == json_methods(entries@[i].1)
        },
        _ => p.allowed_contracts is None,
    }
    &&& texts(p.blocked_methods@) == (match json_string_list(v, "blocked_methods"@) {
        Some(l) => l,
        None => Seq::empty(),
    })
    &&& p.max_gas == json_amount_member(v, "max_gas"@)
    &&& p.max_deposit == json_amount_member(v, "max_deposit"@)
    &&& p.max_calls_per_run == (match json_u64_member(v, "max_calls_per_run"@) {
        Some(n) => Some(n as u32),
        None => None,
    })
    &&& match json_string_list(v, "attested_hashes"@) {
        Some(l) => p.attested_hashes matches Some(h) && texts(h@) == l,
        None => p.attested_hashes is None,
    }
    &&& p.call_count == 0
}

// ------------------------------------------------------------------
// Helpers
// ------------------------------------------------------------------

/// Whether `item` is one of `list`.
fn contains_text(list: &Vec<String>, item: &str) -> (r: bool)
    ensures
        r == texts(list@).contains(item@),
{
    let mut i: usize = 0;
    while i < list.len()
        invariant
            i <= list@.len(),
            forall|j: int| 0 <= j < i ==> list@[j]@ != item@,
        decreases list@.len() - i,
    {
        if str_eq(list[i].as_str(), item) {
            assert(texts(list@)[i as int] == item@);
            return true;
        }
        i = i + 1;
    }
    assert(!texts(list@).contains(item@)) by {
        if texts(list@).contains(item@) {
            let k = choose|k: int| 0 <= k < texts(list@).len() && texts(list@)[k] == item@;
            assert(list@[k]@ == item@);
        }
    }
    false
}

/// The allowed methods of `receiver`'s whitelist entry.
fn find_contract<'a>(entries: &'a Vec<(String, Vec<String>)>, receiver: &str) -> (r: Option<
    &'a Vec<String>,
>)
    ensures
        r matches Some(m) ==> contract_lookup(entries@, receiver@) == Some(texts(m@)),
        r is None ==> contract_lookup(entries@, receiver@) is None,
{
    let mut i: usize = 0;
    assert(entries@.skip(0) =~= entries@);
    while i < entries.len()
        invariant
            i <= entries@.len(),
            contract_lookup(entries@, receiver@) == contract_lookup(
                entries@.skip(i as int),
                receiver@,
            ),
        decreases entries@.len() - i,
    {
        assert(entries@.skip(i as int).drop_first() =~= entries@.skip(i + 1));
        assert(entries@.skip(i as int)[0] == entries@[i as int]);
        if str_eq(entries[i].0.as_str(), receiver) {
            return Some(&entries[i].1);
        }
        i = i + 1;
    }
    None
}

/// Whether `limit` refuses the amount written as `value`.
fn exceeds(limit: Option<u128>, value: &str) -> (r: bool)
    ensures
        r == Policy::over_limit(limit, value@),
{
    match limit {
        Some(max) => {
            let cs = chars_of(value);
            match parse_u128(cs.as_slice()) {
                Some(v) => v > max,
                None => false,
            }
        },
        None => false,
    }
}

fn text3(a: &str, b: &str, c: &str) -> (r: String)
    ensures
        r@ == a@ + b@ + c@,
{
    let mut s = String::from_str(a);
    s.append(b);
    s.append(c);
    s
}

fn text5(a: &str, b: &str, c: &str, d: &str, e: &str) -> (r: String)
    ensures
        r@ == a@ + b@ + c@ + d@ + e@,
{
    let mut s = String::from_str(a);
    s.append(b);
    s.append(c);
    s.append(d);
    s.append(e);
    s
}

fn rate_limit_message(max: u32) -> (r: String)
    ensures
        r@ == msg_rate_limit(max),
{
    let n = decimal_string(max as u128);
    text3("Policy: exceeded max ", n.as_str(), " calls per run")
}

fn limit_message(head: &str, value: &str, max: u128) -> (r: String)
    ensures
        r@ == head@ + value@ + " exceeds max "@ + decimal(max as nat),
{
    let n = decimal_string(max);
    let mut s = String::from_str(head);
    s.append(value);
    s.append(" exceeds max ");
    s.append(n.as_str());
    s
}

impl Policy {
    /// The counting step shared by every operation: count it, then apply the rate limit.
    fn count_operation(&mut self) -> (r: Result<(), String>)
        requires
            old(self).call_count < u32::MAX,
        ensures
            *final(self) == old(self).counted(),
            verdict_is(r, old(self).rate_refusal(old(self).call_count + 1)),
    {
        self.call_count = self.call_count + 1;
        if let Some(max_calls) = self.max_calls_per_run {
            if self.call_count > max_calls {
                return Err(rate_limit_message(max_calls));
            }
        }
        Ok(())
    }

    /// Parse a policy from its JSON document (the `policy` member of the input).
    pub fn from_json(v: &JsonValue) -> (p: Policy)
        ensures
            loaded_from(p, *v),
    {
        let tier: u8 = match v.get("tier") {
            Some(t) => match t.as_u64() {
                Some(n) => n as u8,
                None => 1,
            },
            None => 1,
        };
        let allowed_contracts: Option<Vec<(String, Vec<String>)>> = match v.get(
            "allowed_contracts",
        ) {
            Some(ac) => {
                let mut map: Vec<(String, Vec<String>)> = Vec::new();
                if let Some(obj) = ac.as_object() {
                    let mut i: usize = 0;
                    while i < obj.len()
                        invariant
                            i <= obj@.len(),
                            map@.len() == i,
                            forall|j: int|
                                0 <= j < i ==> (#[trigger] map@[j]).0@ == obj@[j].0@ && texts(
                                    map@[j].1@,
                                ) == json_methods(obj@[j].1),
                        decreases obj@.len() - i,
                    {
                        let methods: Vec<String> = match obj[i].1.as_array() {
                            Some(arr) => string_items(arr),
                            None => Vec::new(),
                        };
                        assert(texts(methods@) == json_methods(obj@[i as int].1)) by {
                            if !(obj@[i as int].1 is Array) {
                                assert(texts(methods@) =~= Seq::<Seq<char>>::empty());
                            }
                        }
                        map.push((obj[i].0.clone(), methods));
                        i = i + 1;
                    }
                }
                if map.len() == 0 {
                    None
                } else {
                    Some(map)
                }
            },
            None => None,
        };
        let blocked_methods: Vec<String> = match v.get("blocked_methods") {
            Some(bm) => match bm.as_array() {
                Some(arr) => string_items(arr),
                None => Vec::new(),
            },
            None => Vec::new(),
        };
        let max_gas: Option<u128> = match v.get("max_gas") {
            Some(g) => match g.as_str() {
                Some(s) => {
                    let cs = chars_of(s.as_str());
                    parse_u128(cs.as_slice())
                },
                None => None,
            },
            None => None,
        };
        let max_deposit: Option<u128> = match v.get("max_deposit") {
            Some(d) => match d.as_str() {
                Some(s) => {
                    let cs = chars_of(s.as_str());
                    parse_u128(cs.as_slice())
                },
                None => None,
            },
            None => None,
        };
        let max_calls_per_run: Option<u32> = match v.get("max_calls_per_run") {
            Some(c) => match c.as_u64() {
                Some(n) => Some(n as u32),
                None => None,
            },
            None => None,
        };
        let attested_hashes: Option<Vec<String>> = match v.get("attested_hashes") {
            Some(ah) => match ah.as_array() {
                Some(arr) => Some(string_items(arr)),
                None => None,
            },
            None => None,
        };
        let p = Policy {
            tier,
            allowed_contracts,
            blocked_methods,
            max_gas,
            max_deposit,
            max_calls_per_run,
            attested_hashes,
            call_count: 0,
        };
        proof {
            assert(texts(p.blocked_methods@) == (match json_string_list(*v, "blocked_methods"@) {
                Some(l) => l,
                None => Seq::empty(),
            })) by {
                if json_string_list(*v, "blocked_methods"@) is None {
                    assert(texts(p.blocked_methods@) =~= Seq::<Seq<char>>::empty());
                }
            }
        }
        p
    }

    /// Default policy for the given tier (no restrictions beyond the tier).
    pub fn default_for_tier(tier: u8) -> (p: Policy)
        ensures
            p.is_default_for(tier),
    {
        Policy {
            tier,
            allowed_contracts: None,
            blocked_methods: Vec::new(),
            max_gas: None,
            max_deposit: None,
            max_calls_per_run: None,
            attested_hashes: None,
            call_count: 0,
        }
    }

    /// Check whether a `near.call()` is allowed; the error is the reason it is not.
    /// A call that passes every check is counted, and the rate limit applies to it.
    pub fn check_call(
        &mut self,
        receiver_id: &str,
        method_name: &str,
        gas: &str,
        deposit: &str,
    ) -> (r: Result<(), String>)
        requires
            old(self).can_count(
                Operation::Call {
                    receiver: receiver_id@,
                    method: method_name@,
                    gas: gas@,
                    deposit: deposit@,
                },
            ),
        ensures
            ({
                let (next, verdict) = old(self).after(
                    Operation::Call {
                        receiver: receiver_id@,
                        method: method_name@,
                        gas: gas@,
                        deposit: deposit@,
                    },
                );
                *final(self) == next && verdict_is(r, verdict)
            }),
    {
        if self.tier < 2 {
            return Err(String::from_str("Tier 1: write operations not allowed"));
        }
        if contains_text(&self.blocked_methods, method_name) {
            return Err(text3("Policy: method '", method_name, "' is blocked"));
        }
        if let Some(contracts) = &self.allowed_contracts {
            match find_contract(contracts, receiver_id) {
                Some(allowed_methods) => {
                    if allowed_methods.len() > 0 && !contains_text(allowed_methods, method_name) {
                        return Err(
                            text5(
                                "Policy: method '",
                                method_name,
                                "' not allowed for contract '",
                                receiver_id,
                                "'",
                            ),
                        );
                    }
                },
                None => {
                    return Err(text3("Policy: contract '", receiver_id, "' not in allowed list"));
                },
            }
        }
        if exceeds(self.max_gas, gas) {
            return Err(limit_message("Policy: gas ", gas, self.max_gas.unwrap()));
        }
        if exceeds(self.max_deposit, deposit) {
            return Err(limit_message("Policy: deposit ", deposit, self.max_deposit.unwrap()));
        }
        self.count_operation()
    }

    /// Check whether a `near.transfer()` of `amount_yocto` is allowed. Transfers count
    /// toward the same rate limit as calls.
    pub fn check_transfer(&mut self, amount_yocto: &str) -> (r: Result<(), String>)
        requires
            old(self).can_count(Operation::Transfer { amount: amount_yocto@ }),
        ensures
            ({
                let (next, verdict) = old(self).after(Operation::Transfer { amount: amount_yocto@ });
                *final(self) == next && verdict_is(r, verdict)
            }),
    {
        if self.tier < 3 {
            let n = decimal_string(self.tier as u128);
            return Err(text3("Tier ", n.as_str(), ": transfers not allowed"));
        }
        if exceeds(self.max_deposit, amount_yocto) {
            return Err(
                limit_message("Policy: transfer amount ", amount_yocto, self.max_deposit.unwrap()),
            );
        }
        self.count_operation()
    }

    /// Check whether `near.send_tx()` is allowed.
    pub fn check_send_tx(&mut self) -> (r: Result<(), String>)
        requires
            old(self).can_count(Operation::SendTx),
        ensures
            ({
                let (next, verdict) = old(self).after(Operation::SendTx);
                *final(self) == next && verdict_is(r, verdict)
            }),
    {
        if self.tier < 3 {
            let n = decimal_string(self.tier as u128);
            return Err(text3("Tier ", n.as_str(), ": raw transactions not allowed"));
        }
        self.count_operation()
    }
}


// ------------------------------------------------------------------
// Laws
// ------------------------------------------------------------------

/// The policy after each operation of `ops` has been checked in turn.
pub open spec fn run_after(p: Policy, ops: Seq<Operation>) -> Policy
    decreases ops.len(),
{
    if ops.len() == 0 {
        p
    } else {
        run_after(p.after(ops[0]).0, ops.drop_first())
    }
}

/// How many operations of `ops` are accepted when checked in turn.
pub open spec fn run_accepted(p: Policy, ops: Seq<Operation>) -> nat
    decreases ops.len(),
{
    if ops.len() == 0 {
        0
    } else {
        let (q, verdict) = p.after(ops[0]);
        (if verdict is None {
            1nat
        } else {
            0nat
        }) + run_accepted(q, ops.drop_first())
    }
}

/// Checking an operation never lowers the counter, and counts it at most once.
pub proof fn law_counter_monotone(p: Policy, op: Operation)
    requires
        p.can_count(op),
    ensures
        p.call_count <= p.after(op).0.call_count <= p.call_count + 1,
        p.after(op).1 is None ==> p.after(op).0.call_count == p.call_count + 1,
{
}

/// The rate limit: in a run, the accepted operations (calls, transfers and raw
/// transactions together) never outnumber what `max_calls_per_run` leaves.
pub proof fn law_rate_limit_bounds_run(p: Policy, ops: Seq<Operation>)
    requires
        p.max_calls_per_run is Some,
        p.call_count + ops.len() <= u32::MAX,
    ensures
        run_accepted(p, ops) <= (if p.max_calls_per_run->0 >= p.call_count {
            p.max_calls_per_run->0 - p.call_count
        } else {
            0
        }),
    decreases ops.len(),
{
    if ops.len() > 0 {
        let (q, verdict) = p.after(ops[0]);
        law_rate_limit_bounds_run(q, ops.drop_first());
    }
}

/// A run that starts with a fresh counter accepts at most `max_calls_per_run` operations.
pub proof fn law_fresh_run_accepts_at_most_max(p: Policy, ops: Seq<Operation>)
    requires
        p.max_calls_per_run is Some,
        p.call_count == 0,
        ops.len() <= u32::MAX,
    ensures
        run_accepted(p, ops) <= p.max_calls_per_run->0,
{
    law_rate_limit_bounds_run(p, ops);
}

/// Once the rate limit has refused an operation, it refuses every later one:
/// the operation that `max_calls_per_run` refuses leaves the counter past the
/// limit, and from such a policy no operation of a run is accepted.
pub proof fn law_rate_refusal_is_final(p: Policy, op: Operation, ops: Seq<Operation>)
    requires
        p.can_count(op),
        p.refusal(op) is None,
        p.rate_refusal(p.call_count + 1) is Some,
        p.call_count + 1 + ops.len() <= u32::MAX,
    ensures
        p.after(op).1 == Some(msg_rate_limit(p.max_calls_per_run->0)),
        run_accepted(p.after(op).0, ops) == 0,
{
    lemma_over_limit_refuses_all(p.after(op).0, ops);
}

/// From a policy whose counter is past its limit, no operation is accepted.
proof fn lemma_over_limit_refuses_all(p: Policy, ops: Seq<Operation>)
    requires
        p.max_calls_per_run is Some,
        p.call_count > p.max_calls_per_run->0,
        p.call_count + ops.len() <= u32::MAX,
    ensures
        run_accepted(p, ops) == 0,
    decreases ops.len(),
{
    if ops.len() > 0 {
        lemma_over_limit_refuses_all(p.after(ops[0]).0, ops.drop_first());
    }
}

/// Whether no two whitelist entries name the same contract.
pub open spec fn contracts_distinct(entries: Seq<(String, Vec<String>)>) -> bool {
    forall|a: int, b: int|
        0 <= a < entries.len() && 0 <= b < entries.len() && a != b ==> (#[trigger] entries[a]).0@
            != (#[trigger] entries[b]).0@
}

/// The whitelist lookup finds a contract wherever it stands in the list: it
/// gives the allowed methods of that contract's entry.
pub proof fn law_whitelist_lookup_finds_any_entry(
    entries: Seq<(String, Vec<String>)>,
    i: int,
    receiver: Seq<char>,
)
    requires
        contracts_distinct(entries),
        0 <= i < entries.len(),
        entries[i].0@ == receiver,
    ensures
        contract_lookup(entries, receiver) == Some(texts(entries[i].1@)),
    decreases i,
{
    if i > 0 {
        let d = entries.drop_first();
        assert(entries[0].0@ != entries[i].0@);
        assert(d[i - 1] == entries[i]);
        assert forall|a: int, b: int|
            0 <= a < d.len() && 0 <= b < d.len() && a != b implies (#[trigger] d[a]).0@
                != (#[trigger] d[b]).0@ by {
            assert(d[a] == entries[a + 1]);
            assert(d[b] == entries[b + 1]);
        }
        law_whitelist_lookup_finds_any_entry(d, i - 1, receiver);
    }
}

/// The whitelist lookup finds nothing for a contract that no entry names.
pub proof fn law_whitelist_lookup_misses_unlisted(
    entries: Seq<(String, Vec<String>)>,
    receiver: Seq<char>,
)
    requires
        forall|i: int| 0 <= i < entries.len() ==> (#[trigger] entries[i]).0@ != receiver,
    ensures
        contract_lookup(entries, receiver) is None,
    decreases entries.len(),
{
    if entries.len() > 0 {
        let d = entries.drop_first();
        assert forall|i: int| 0 <= i < d.len() implies (#[trigger] d[i]).0@ != receiver by {
            assert(d[i] == entries[i + 1]);
        }
        law_whitelist_lookup_misses_unlisted(d, receiver);
    }
}

/// A call to a whitelisted contract, at any position of the whitelist, with a
/// method that its entry allows (an empty list allows all) and that is not
/// blocked, within the gas and deposit limits, from tier 2 on, is accepted and
/// counted when the rate limit leaves room.
pub proof fn law_whitelisted_call_is_accepted(
    p: Policy,
    i: int,
    receiver: Seq<char>,
    method: Seq<char>,
    gas: Seq<char>,
    deposit: Seq<char>,
)
    requires
        p.tier >= 2,
        !texts(p.blocked_methods@).contains(method),
        p.allowed_contracts is Some,
        contracts_distinct(p.allowed_contracts->0@),
        0 <= i < p.allowed_contracts->0@.len(),
        p.allowed_contracts->0@[i].0@ == receiver,
        p.allowed_contracts->0@[i].1@.len() == 0 || texts(p.allowed_contracts->0@[i].1@).contains(
            method,
        ),
        !(p.max_gas is Some && u128_parse(gas) is Some && u128_parse(gas)->0 > p.max_gas->0),
        !(p.max_deposit is Some && u128_parse(deposit) is Some && u128_parse(deposit)->0
            > p.max_deposit->0),
        p.call_count < u32::MAX,
        p.max_calls_per_run is None || p.call_count < p.max_calls_per_run->0,
    ensures
        p.after(Operation::Call { receiver, method, gas, deposit }).0 == (Policy {
            call_count: (p.call_count + 1) as u32,
            ..p
        }),
        p.after(Operation::Call { receiver, method, gas, deposit }).1 is None,
{
    let entries = p.allowed_contracts->0;
    law_whitelist_lookup_finds_any_entry(entries@, i, receiver);
    assert(texts(entries@[i].1@).len() == entries@[i].1@.len());
}

/// At tier 3 a transfer is refused only for its amount or by the rate limit:
/// whatever the whitelist and the blocked methods, a transfer within
/// `max_deposit` is counted, and accepted when the rate limit leaves room.
pub proof fn law_transfer_refused_only_by_amount_or_rate(p: Policy, amount: Seq<char>)
    requires
        p.tier >= 3,
        !(p.max_deposit is Some && u128_parse(amount) is Some && u128_parse(amount)->0
            > p.max_deposit->0),
        p.call_count < u32::MAX,
    ensures
        p.after(Operation::Transfer { amount }).0 == (Policy {
            call_count: (p.call_count + 1) as u32,
            ..p
        }),
        p.after(Operation::Transfer { amount }).1 is None <==> (p.max_calls_per_run is None
            || p.call_count + 1 <= p.max_calls_per_run->0),
{
}

/// At tier 3 a raw transaction is refused only by the rate limit.
pub proof fn law_send_tx_refused_only_by_rate(p: Policy)
    requires
        p.tier >= 3,
        p.call_count < u32::MAX,
    ensures
        p.after(Operation::SendTx).0 == (Policy { call_count: (p.call_count + 1) as u32, ..p }),
        p.after(Operation::SendTx).1 is None <==> (p.max_calls_per_run is None || p.call_count + 1
            <= p.max_calls_per_run->0),
{
}

/// A call whose gas or deposit is a numeral above its limit is refused and not
/// counted, whatever else the policy says.
pub proof fn law_call_over_a_limit_is_refused(
    p: Policy,
    receiver: Seq<char>,
    method: Seq<char>,
    gas: Seq<char>,
    deposit: Seq<char>,
)
    requires
        (p.max_gas is Some && u128_parse(gas) is Some && u128_parse(gas)->0 > p.max_gas->0) || (
        p.max_deposit is Some && u128_parse(deposit) is Some && u128_parse(deposit)->0
            > p.max_deposit->0),
    ensures
        p.after(Operation::Call { receiver, method, gas, deposit }).0 == p,
        p.after(Operation::Call { receiver, method, gas, deposit }).1 is Some,
{
}

/// A transfer whose amount is a numeral above `max_deposit` is refused and not
/// counted.
pub proof fn law_transfer_over_limit_is_refused(p: Policy, amount: Seq<char>)
    requires
        p.max_deposit is Some,
        u128_parse(amount) is Some,
        u128_parse(amount)->0 > p.max_deposit->0,
    ensures
        p.after(Operation::Transfer { amount }).0 == p,
        p.after(Operation::Transfer { amount }).1 is Some,
{
}

/// Tier 1 is read-only: every write operation is refused and nothing is counted.
pub proof fn law_tier_one_refuses_writes(p: Policy, op: Operation)
    requires
        p.tier < 2,
    ensures
        p.after(op).0 == p,
        p.after(op).1 is Some,
{
}

/// Below tier 3, transfers and raw transactions are refused and nothing is counted.
pub proof fn law_value_moves_need_tier_three(p: Policy, op: Operation)
    requires
        p.tier < 3,
        !(op is Call),
    ensures
        p.after(op).0 == p,
        p.after(op).1 is Some,
{
}

/// A blocked method is refused whatever the contract, gas and deposit.
pub proof fn law_blocked_method_refused_everywhere(
    p: Policy,
    receiver: Seq<char>,
    method: Seq<char>,
    gas: Seq<char>,
    deposit: Seq<char>,
)
    requires
        p.tier >= 2,
        texts(p.blocked_methods@).contains(method),
    ensures
        p.after(Operation::Call { receiver, method, gas, deposit }) == (
        p,
        Some(msg_method_blocked(method)),
        ),
{
}

/// A whitelisted contract with an empty method list allows every method
/// (that is not blocked), within the limits.
pub proof fn law_empty_method_list_allows_all(
    p: Policy,
    receiver: Seq<char>,
    method: Seq<char>,
    gas: Seq<char>,
    deposit: Seq<char>,
)
    requires
        p.tier >= 2,
        !texts(p.blocked_methods@).contains(method),
        p.allowed_contracts matches Some(entries) && contract_lookup(entries@, receiver) == Some(
            Seq::<Seq<char>>::empty(),
        ),
        !Policy::over_limit(p.max_gas, gas),
        !Policy::over_limit(p.max_deposit, deposit),
    ensures
        p.call_refusal(receiver, method, gas, deposit) is None,
{
}

/// The default policy of a tier restricts by the tier alone: calls pass from
/// tier 2, transfers and raw transactions from tier 3, with no limit on their number.
pub proof fn law_default_policy_restricts_by_tier_only(p: Policy, tier: u8, op: Operation)
    requires
        p.is_default_for(tier),
    ensures
        p.after(op).1 is None <==> (if op is Call {
            tier >= 2
        } else {
            tier >= 3
        }),
{
    assert(texts(p.blocked_methods@).len() == 0);
}

/// A document that sets only the tier describes the default policy of that tier.
pub proof fn law_tier_only_document_is_default(p: Policy, v: JsonValue, tier: u64)
    requires
        loaded_from(p, v),
        json_u64_member(v, "tier"@) == Some(tier),
        json_get(v, "allowed_contracts"@) is None,
        json_get(v, "blocked_methods"@) is None,
        json_get(v, "max_gas"@) is None,
        json_get(v, "max_deposit"@) is None,
        json_get(v, "max_calls_per_run"@) is None,
        json_get(v, "attested_hashes"@) is None,
    ensures
        p.is_default_for(tier as u8),
{
    assert(p.blocked_methods@.len() == texts(p.blocked_methods@).len());
}

} // verus!
