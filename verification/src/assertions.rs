//! Selecting, from the power assertions that processes hold, those that keep
//! the machine awake the way a call does.

use vstd::prelude::*;
use vstd::string::StrSliceExecFns;
use crate::teams::ProcessAssertions;
use crate::text::same_text;

verus! {

/// `s` is a non-empty run of ASCII decimal digits.
pub open spec fn is_decimal_digits(s: Seq<char>) -> bool {
    s.len() > 0 && forall|i: int| 0 <= i < s.len() ==> '0' <= #[trigger] s[i] && s[i] <= '9'
}

/// The value of a run of decimal digits.
pub open spec fn digits_value(s: Seq<char>) -> int
    decreases s.len(),
{
    if s.len() == 0 {
        0
    } else {
        digits_value(s.drop_last()) * 10 + (s.last() as int - '0' as int)
    }
}

/// The value, if it is an `i32`.
pub open spec fn as_i32(v: int) -> Option<i32> {
    if i32::MIN <= v && v <= i32::MAX {
        Some(v as i32)
    } else {
        None
    }
}

/// The integer that `s` spells in decimal, as `str::parse::<i32>` reads it:
/// an optional `+` or `-` sign followed by one or more ASCII digits and
/// nothing else, with a value that fits in an `i32`.
pub open spec fn decimal_i32(s: Seq<char>) -> Option<i32> {
    if s.len() > 0 && s[0] == '-' {
        if is_decimal_digits(s.drop_first()) {
            as_i32(-digits_value(s.drop_first()))
        } else {
            None
        }
    } else if s.len() > 0 && s[0] == '+' {
        if is_decimal_digits(s.drop_first()) {
            as_i32(digits_value(s.drop_first()))
        } else {
            None
        }
    } else if is_decimal_digits(s) {
        as_i32(digits_value(s))
    } else {
        None
    }
}

proof fn lemma_digits_value_prefix(d: Seq<char>, k: int)
    requires
        forall|i: int| 0 <= i < d.len() ==> '0' <= #[trigger] d[i] && d[i] <= '9',
        0 <= k <= d.len(),
    ensures
        0 <= digits_value(d.take(k)) <= digits_value(d),
    decreases d.len() - k,
{
    let p = d.take(k);
    assert forall|i: int| 0 <= i < p.len() implies '0' <= #[trigger] p[i] && p[i] <= '9' by {
        assert(p[i] == d[i]);
    }
    lemma_digits_value_nonnegative(p);
    if k == d.len() {
        assert(p =~= d);
    } else {
        lemma_digits_value_prefix(d, k + 1);
        assert(d.take(k + 1).drop_last() =~= p);
        assert(d.take(k + 1).last() == d[k]);
    }
}

proof fn lemma_digits_value_nonnegative(d: Seq<char>)
    requires
        forall|i: int| 0 <= i < d.len() ==> '0' <= #[trigger] d[i] && d[i] <= '9',
    ensures
        digits_value(d) >= 0,
    decreases d.len(),
{
    if d.len() > 0 {
        assert forall|i: int| 0 <= i < d.drop_last().len() implies '0' <= #[trigger] d.drop_last()[i]
            && d.drop_last()[i] <= '9' by {
            assert(d.drop_last()[i] == d[i]);
        }
        lemma_digits_value_nonnegative(d.drop_last());
        assert(d.last() == d[d.len() - 1]);
    }
}

/// The integer that `s` spells in decimal, if it spells one that fits in an
/// `i32` (as `str::parse::<i32>` reads it).
pub fn parse_i32(s: &str) -> (value: Option<i32>)
    ensures
        value == decimal_i32(s@),
{
    let n = s.unicode_len();
    if n == 0 {
        return None;
    }
    let first = s.get_char(0);
    let negative = first == '-';
    let start: usize = if first == '-' || first == '+' {
        1
    } else {
        0
    };
    if start == n {
        return None;
    }
    let ghost digits = s@.subrange(start as int, n as int);
    proof {
        if start == 1 {
            assert(digits =~= s@.drop_first());
        } else {
            assert(digits =~= s@);
        }
        assert(digits.take(0) =~= Seq::<char>::empty());
    }
    let mut acc: u64 = 0;
    let mut i: usize = start;
    while i < n
        invariant
            n == s@.len(),
            start < n,
            start <= i <= n,
            digits == s@.subrange(start as int, n as int),
            negative == (s@[0] == '-'),
            start <= 1,
            (start == 1) == (s@[0] == '-' || s@[0] == '+'),
            start == 1 ==> digits == s@.drop_first(),
            start == 0 ==> digits == s@,
            forall|k: int| 0 <= k < i - start ==> '0' <= #[trigger] digits[k] && digits[k] <= '9',
            acc == digits_value(digits.take(i - start)),
            acc <= 2147483648,
        decreases n - i,
    {
        let c = s.get_char(i);
        proof {
            assert(digits[i - start] == c);
        }
        if !('0' <= c && c <= '9') {
            assert(!is_decimal_digits(digits));
            return None;
        }
        let d = (c as u32 - 48) as u64;
        acc = acc * 10 + d;
        proof {
            let next = digits.take(i - start + 1);
            assert(next.drop_last() =~= digits.take(i - start));
            assert(next.last() == c);
        }
        if acc > 2147483648 {
            proof {
                if is_decimal_digits(digits) {
                    lemma_digits_value_prefix(digits, i - start + 1);
                    assert(digits_value(digits) > 2147483648);
                    assert(as_i32(digits_value(digits)) is None);
                    assert(as_i32(-digits_value(digits)) is None);
                }

            }
            return None;
        }
        i = i + 1;
    }
    proof {
        assert(digits.take(n - start) =~= digits);
    }
    if negative {
        let v = -(acc as i64);
        Some(v as i32)
    } else if acc > 2147483647 {
        None
    } else {
        Some(acc as i32)
    }
}

/// The key under which the power management service lists a process's
/// assertions, as read from the platform.
#[derive(Debug, Clone)]
pub enum AssertionOwnerKey {
    /// A number; none where its value could not be read as an `i32`.
    Number(Option<i32>),
    /// A string; none where its text could not be read.
    Text(Option<String>),
    /// Anything else.
    Other,
}

/// One power assertion, as read from the platform.
#[derive(Debug, Clone)]
pub struct RawAssertion {
    /// Its type; none where it is missing or not a readable string.
    pub assertion_type: Option<String>,
    /// Its level; none where it is missing or not readable as an `i32`.
    pub level: Option<i32>,
}

/// A process's entry in the platform's list of assertions.
#[derive(Debug, Clone)]
pub struct RawProcessEntry {
    pub owner: AssertionOwnerKey,
    pub assertions: Vec<RawAssertion>,
}

/// The process id that the key names.
pub open spec fn owner_id(key: AssertionOwnerKey) -> Option<i32> {
    match key {
        AssertionOwnerKey::Number(v) => v,
        AssertionOwnerKey::Text(Some(s)) => decimal_i32(s@),
        AssertionOwnerKey::Text(None) => None,
        AssertionOwnerKey::Other => None,
    }
}

/// The assertion types that signal a call: no idle sleep, no display sleep.
pub open spec fn is_relevant_type(t: Seq<char>) -> bool {
    t == "NoIdleSleepAssertion"@ || t == "NoDisplaySleepAssertion"@
}

/// The type of an assertion that is relevant and held (non-zero level).
pub open spec fn held_type(raw: RawAssertion) -> Option<Seq<char>> {
    match raw.assertion_type {
        Some(t) => if is_relevant_type(t@) && raw.level is Some && raw.level->0 != 0 {
            Some(t@)
        } else {
            None
        },
        None => None,
    }
}

/// The distinct held relevant types among `raws`, in order of first
/// appearance.
pub open spec fn held_types(raws: Seq<RawAssertion>) -> Seq<Seq<char>>
    decreases raws.len(),
{
    if raws.len() == 0 {
        seq![]
    } else {
        let before = held_types(raws.drop_last());
        match held_type(raws.last()) {
            Some(t) => if before.contains(t) {
                before
            } else {
                before.push(t)
            },
            None => before,
        }
    }
}

/// The processes, in order, that hold at least one relevant assertion, each
/// with its distinct held relevant types.
pub open spec fn assertion_holders(entries: Seq<RawProcessEntry>) -> Seq<(i32, Seq<Seq<char>>)>
    decreases entries.len(),
{
    if entries.len() == 0 {
        seq![]
    } else {
        let before = assertion_holders(entries.drop_last());
        let last = entries.last();
        match owner_id(last.owner) {
            Some(pid) => if held_types(last.assertions@).len() > 0 {
                before.push((pid, held_types(last.assertions@)))
            } else {
                before
            },
            None => before,
        }
    }
}

/// The process id named by an assertion list's key.
pub fn owner_process_id(key: &AssertionOwnerKey) -> (pid: Option<i32>)
    ensures
        pid == owner_id(*key),
{
    match key {
        AssertionOwnerKey::Number(v) => *v,
        AssertionOwnerKey::Text(Some(s)) => parse_i32(s.as_str()),
        AssertionOwnerKey::Text(None) => None,
        AssertionOwnerKey::Other => None,
    }
}

/// Whether `t` is one of the relevant assertion types.
fn relevant_type(t: &str) -> (relevant: bool)
    ensures
        relevant == is_relevant_type(t@),
{
    same_text(t, "NoIdleSleepAssertion") || same_text(t, "NoDisplaySleepAssertion")
}

/// The type of the assertion when it is relevant and held.
pub fn read_assertion(raw: &RawAssertion) -> (held: Option<String>)
    ensures
        held.deep_view() == held_type(*raw),
{
    match &raw.assertion_type {
        Some(t) => {
            if !relevant_type(t.as_str()) {
                return None;
            }
            match raw.level {
                Some(level) => if level != 0 {
                    Some(t.clone())
                } else {
                    None
                },
                None => None,
            }
        },
        None => None,
    }
}

/// Whether `types` already lists `t`.
fn lists_type(types: &Vec<String>, t: &str) -> (found: bool)
    ensures
        found == types.deep_view().contains(t@),
{
    let n = types.len();
    let mut i: usize = 0;
    while i < n
        invariant
            n == types@.len(),
            i <= n,
            forall|k: int| 0 <= k < i ==> types@[k]@ != t@,
        decreases n - i,
    {
        if same_text(types[i].as_str(), t) {
            assert(types.deep_view()[i as int] == t@);
            return true;
        }
        i = i + 1;
    }
    assert forall|k: int| 0 <= k < types.deep_view().len() implies types.deep_view()[k] != t@ by {
        assert(types.deep_view()[k] == types@[k]@);
    }
    false
}

/// The distinct held relevant types among `raws`, in order of first appearance.
pub fn held_assertion_types(raws: &Vec<RawAssertion>) -> (types: Vec<String>)
    ensures
        types.deep_view() == held_types(raws@),
{
    let n = raws.len();
    let mut types: Vec<String> = Vec::new();
    let mut i: usize = 0;
    while i < n
        invariant
            n == raws@.len(),
            i <= n,
            types.deep_view() == held_types(raws@.subrange(0, i as int)),
        decreases n - i,
    {
        let ghost before = types.deep_view();
        proof {
            let s = raws@.subrange(0, i + 1);
            assert(s.drop_last() =~= raws@.subrange(0, i as int));
            assert(s.last() == raws@[i as int]);
        }
        match read_assertion(&raws[i]) {
            Some(t) => {
                if !lists_type(&types, t.as_str()) {
                    types.push(t);
                    proof {
                        assert(types.deep_view() =~= before.push(t@));
                    }
                }
            },
            None => {},
        }
        i = i + 1;
    }
    proof {
        assert(raws@.subrange(0, n as int) =~= raws@);
    }
    types
}

/// The processes that hold a relevant no-sleep assertion, in the order the
/// platform listed them, each with its distinct held relevant types.
pub fn active_no_sleep_assertions(entries: &Vec<RawProcessEntry>) -> (matches: Vec<ProcessAssertions>)
    ensures
        matches@.len() == assertion_holders(entries@).len(),
        forall|i: int|
            0 <= i < matches@.len() ==> (#[trigger] matches@[i]).process_id == assertion_holders(
                entries@,
            )[i].0 && matches@[i].assertion_types.deep_view() == assertion_holders(entries@)[i].1,
{
    let n = entries.len();
    let mut matches: Vec<ProcessAssertions> = Vec::new();
    let mut i: usize = 0;
    while i < n
        invariant
            n == entries@.len(),
            i <= n,
            matches@.len() == assertion_holders(entries@.subrange(0, i as int)).len(),
            forall|k: int|
                0 <= k < matches@.len() ==> (#[trigger] matches@[k]).process_id == assertion_holders(
                    entries@.subrange(0, i as int),
                )[k].0 && matches@[k].assertion_types.deep_view() == assertion_holders(
                    entries@.subrange(0, i as int),
                )[k].1,
        decreases n - i,
    {
        let ghost before = assertion_holders(entries@.subrange(0, i as int));
        proof {
            let s = entries@.subrange(0, i + 1);
            assert(s.drop_last() =~= entries@.subrange(0, i as int));
            assert(s.last() == entries@[i as int]);
        }
        match owner_process_id(&entries[i].owner) {
            Some(process_id) => {
                let assertion_types = held_assertion_types(&entries[i].assertions);
                if assertion_types.len() > 0 {
                    matches.push(ProcessAssertions { process_id, assertion_types });
                }
            },
            None => {},
        }
        i = i + 1;
    }
    proof {
        assert(entries@.subrange(0, n as int) =~= entries@);
    }
    matches
}

/// The held types are distinct, each is relevant and held by some assertion,
/// and every relevant held assertion's type is among them.
pub proof fn lemma_held_types_exact(raws: Seq<RawAssertion>)
    ensures
        held_types(raws).no_duplicates(),
        forall|t: Seq<char>| #[trigger] held_types(raws).contains(t) <==> exists|k: int|
            0 <= k < raws.len() && held_type(#[trigger] raws[k]) == Some(t),
        forall|t: Seq<char>| #[trigger] held_types(raws).contains(t) ==> is_relevant_type(t),
    decreases raws.len(),
{
    if raws.len() > 0 {
        let init = raws.drop_last();
        lemma_held_types_exact(init);
        let before = held_types(init);
        let last = raws.last();
        assert(raws[raws.len() - 1] == last);
        assert forall|k: int| 0 <= k < init.len() implies init[k] == #[trigger] raws[k] by {}
        assert forall|t: Seq<char>| #[trigger] held_types(raws).contains(t) <==> exists|k: int|
            0 <= k < raws.len() && held_type(#[trigger] raws[k]) == Some(t) by {
            if held_types(raws).contains(t) {
                if before.contains(t) {
                    let k = choose|k: int| 0 <= k < init.len() && held_type(#[trigger] init[k]) == Some(t);
                    assert(raws[k] == init[k]);
                } else {
                    assert(held_type(last) is Some);
                    assert(held_types(raws) == before.push(held_type(last)->0));
                    let i = choose|i: int| 0 <= i < held_types(raws).len() && held_types(raws)[i] == t;
                    assert(i == before.len());
                    assert(held_type(raws[raws.len() - 1]) == Some(t));
                }
            }
            if exists|k: int| 0 <= k < raws.len() && held_type(#[trigger] raws[k]) == Some(t) {
                let k = choose|k: int| 0 <= k < raws.len() && held_type(#[trigger] raws[k]) == Some(t);
                let hit = if k < raws.len() - 1 {
                    assert(init[k] == raws[k]);
                    assert(before.contains(t));
                    let i = choose|i: int| 0 <= i < before.len() && before[i] == t;
                    i
                } else {
                    assert(held_type(last) == Some(t));
                    if before.contains(t) {
                        let i = choose|i: int| 0 <= i < before.len() && before[i] == t;
                        i
                    } else {
                        before.len() as int
                    }
                };
                assert(held_types(raws)[hit] == t);
            }
        }
        match held_type(last) {
            Some(t) => {
                if !before.contains(t) {
                    assert forall|i: int, j: int|
                        0 <= i < j < held_types(raws).len() implies held_types(raws)[i] != held_types(raws)[j] by {
                        if j == before.len() {
                            assert(held_types(raws)[i] == before[i]);
                        }
                    }
                }
            },
            None => {},
        }
        assert forall|t: Seq<char>| #[trigger] held_types(raws).contains(t) implies is_relevant_type(t) by {
            if before.contains(t) {
            } else {
                assert(held_type(last) == Some(t));
            }
        }
    }
}

} // verus!
