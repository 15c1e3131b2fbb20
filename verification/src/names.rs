//! The name rules of component bundles: logical names, API names, resource
//! kinds with their version, and resource addresses.

use vstd::prelude::*;

use crate::fmt::{debug_quoted, debug_quoted_text, decimal, decimal_text};

verus! {

/// Why a bundle or its result was refused.
#[derive(Clone, Debug, PartialEq, Eq)]
pub struct EvaluationError {
    pub message: String,
}

impl EvaluationError {
    /// An error with `message`.
    pub fn new(message: String) -> (error: Self)
        ensures
            error.message@ == message@,
    {
        EvaluationError { message }
    }
}

/// An ASCII lowercase letter.
pub open spec fn lower(c: char) -> bool {
    'a' <= c && c <= 'z'
}

/// An ASCII digit.
pub open spec fn digit(c: char) -> bool {
    '0' <= c && c <= '9'
}

/// An ASCII letter.
pub open spec fn letter(c: char) -> bool {
    lower(c) || ('A' <= c && c <= 'Z')
}

/// A logical name: 1 to 63 lowercase letters, digits, underscores or
/// hyphens, beginning with a letter.
pub open spec fn logical_name_ok(s: Seq<char>) -> bool {
    &&& 1 <= s.len() <= 63
    &&& lower(s[0])
    &&& forall|k: int| 1 <= k < s.len() ==> lower(#[trigger] s[k]) || digit(s[k]) || s[k] == '_' || s[k] == '-'
}

/// An API name: 1 to 63 ASCII letters or digits, beginning with a letter.
pub open spec fn api_name_ok(s: Seq<char>) -> bool {
    &&& 1 <= s.len() <= 63
    &&& letter(s[0])
    &&& forall|k: int| 1 <= k < s.len() ==> letter(#[trigger] s[k]) || digit(s[k])
}

/// One segment of a kind name: a lowercase letter, then lowercase letters,
/// digits or hyphens.
pub open spec fn kind_segment_ok(s: Seq<char>) -> bool {
    &&& s.len() >= 1
    &&& lower(s[0])
    &&& forall|k: int| 1 <= k < s.len() ==> lower(#[trigger] s[k]) || digit(s[k]) || s[k] == '-'
}

/// A kind name: two segments joined by `/`.
pub open spec fn kind_name_ok(s: Seq<char>) -> bool {
    exists|i: int| 0 <= i < s.len() && s[i] == '/' && kind_segment_ok(s.take(i)) && kind_segment_ok(#[trigger] s.skip(i + 1))
}

fn is_lower(c: char) -> (r: bool)
    ensures
        r == lower(c),
{
    'a' <= c && c <= 'z'
}

fn is_digit(c: char) -> (r: bool)
    ensures
        r == digit(c),
{
    '0' <= c && c <= '9'
}

fn is_letter(c: char) -> (r: bool)
    ensures
        r == letter(c),
{
    is_lower(c) || ('A' <= c && c <= 'Z')
}

fn invalid_name(label: &str, value: &str, expectation: &str) -> (error: EvaluationError)
    ensures
        error.message@ == "invalid "@ + label@ + " "@ + debug_quoted_text(value@) + "; expected "@ + expectation@,
{
    let mut m = String::from_str("invalid ");
    m.append(label);
    m.append(" ");
    let q = debug_quoted(value);
    m.append(q.as_str());
    m.append("; expected ");
    m.append(expectation);
    EvaluationError { message: m }
}

/// Checks a logical name (components, resources).
pub fn validate_logical_name(value: &str, label: &str) -> (r: Result<(), EvaluationError>)
    ensures
        logical_name_ok(value@) ==> r is Ok,
        !logical_name_ok(value@) ==> (r matches Err(e) && e.message@ == "invalid "@ + label@ + " "@ + debug_quoted_text(
            value@,
        ) + "; expected "@ + "1-63 lowercase letters, digits, underscores, or hyphens, beginning with a letter"@),
{
    let n = value.unicode_len();
    let mut valid = 1 <= n && n <= 63 && is_lower(value.get_char(0));
    let mut i: usize = 1;
    while valid && i < n
        invariant
            n == value@.len(),
            1 <= i,
            valid ==> 1 <= n <= 63 && lower(value@[0]) && i <= n,
            valid ==> forall|k: int| 1 <= k < i ==> lower(#[trigger] value@[k]) || digit(value@[k]) || value@[k] == '_'
                || value@[k] == '-',
            !valid ==> !logical_name_ok(value@),
        decreases n - i,
    {
        let c = value.get_char(i);
        if !(is_lower(c) || is_digit(c) || c == '_' || c == '-') {
            valid = false;
        }
        i = i + 1;
    }
    if valid {
        Ok(())
    } else {
        Err(invalid_name(label, value, "1-63 lowercase letters, digits, underscores, or hyphens, beginning with a letter"))
    }
}

/// Checks an API name (inputs, outputs).
pub fn validate_api_name(value: &str, label: &str) -> (r: Result<(), EvaluationError>)
    ensures
        api_name_ok(value@) ==> r is Ok,
        !api_name_ok(value@) ==> (r matches Err(e) && e.message@ == "invalid "@ + label@ + " "@ + debug_quoted_text(
            value@,
        ) + "; expected "@ + "1-63 ASCII letters or digits, beginning with a letter"@),
{
    let n = value.unicode_len();
    let mut valid = 1 <= n && n <= 63 && is_letter(value.get_char(0));
    let mut i: usize = 1;
    while valid && i < n
        invariant
            n == value@.len(),
            1 <= i,
            valid ==> 1 <= n <= 63 && letter(value@[0]) && i <= n,
            valid ==> forall|k: int| 1 <= k < i ==> letter(#[trigger] value@[k]) || digit(value@[k]),
            !valid ==> !api_name_ok(value@),
        decreases n - i,
    {
        let c = value.get_char(i);
        if !(is_letter(c) || is_digit(c)) {
            valid = false;
        }
        i = i + 1;
    }
    if valid {
        Ok(())
    } else {
        Err(invalid_name(label, value, "1-63 ASCII letters or digits, beginning with a letter"))
    }
}

fn segment_valid(s: &str, from: usize, to: usize) -> (ok: bool)
    requires
        from <= to <= s@.len(),
    ensures
        ok == kind_segment_ok(s@.subrange(from as int, to as int)),
{
    let ghost seg = s@.subrange(from as int, to as int);
    if from == to || !is_lower(s.get_char(from)) {
        return false;
    }
    let mut i = from + 1;
    while i < to
        invariant
            from < to <= s@.len(),
            seg == s@.subrange(from as int, to as int),
            lower(seg[0]),
            from + 1 <= i <= to,
            forall|k: int| 1 <= k < i - from ==> lower(#[trigger] seg[k]) || digit(seg[k]) || seg[k] == '-',
        decreases to - i,
    {
        let c = s.get_char(i);
        if !(is_lower(c) || is_digit(c) || c == '-') {
            assert(seg[i - from] == c);
            return false;
        }
        i = i + 1;
    }
    true
}

/// Checks a resource kind name: `namespace/kind`.
pub fn validate_kind_name(value: &str) -> (r: Result<(), EvaluationError>)
    ensures
        kind_name_ok(value@) ==> r is Ok,
        !kind_name_ok(value@) ==> (r matches Err(e) && e.message@ == "invalid resource kind "@ + debug_quoted_text(value@)
            + "; expected namespace/kind with lowercase letters, digits, and hyphens"@),
{
    let n = value.unicode_len();
    let mut slash: usize = 0;
    while slash < n && value.get_char(slash) != '/'
        invariant
            n == value@.len(),
            slash <= n,
            forall|k: int| 0 <= k < slash ==> value@[k] != '/',
        decreases n - slash,
    {
        slash = slash + 1;
    }
    let valid = slash < n && segment_valid(value, 0, slash) && segment_valid(value, slash + 1, n);
    proof {
        assert(value@.take(slash as int) =~= value@.subrange(0, slash as int));
        if slash < n {
            assert(value@.skip(slash + 1) =~= value@.subrange(slash + 1, n as int));
        }
        if kind_name_ok(value@) {
            let i = choose|i: int| 0 <= i < value@.len() && value@[i] == '/' && kind_segment_ok(value@.take(i)) && kind_segment_ok(
                #[trigger] value@.skip(i + 1),
            );
            if i > slash {
                assert(value@.take(i)[slash as int] == '/');
            } else if i < slash {
            }
        }
    }
    if valid {
        Ok(())
    } else {
        let mut m = String::from_str("invalid resource kind ");
        let q = debug_quoted(value);
        m.append(q.as_str());
        m.append("; expected namespace/kind with lowercase letters, digits, and hyphens");
        Err(EvaluationError { message: m })
    }
}

/// The value of a run of decimal digits.
pub open spec fn digits_value(s: Seq<char>) -> nat
    decreases s.len(),
{
    if s.len() == 0 {
        0
    } else {
        digits_value(s.drop_last()) * 10 + ((s.last() as nat) - ('0' as nat)) as nat
    }
}

/// What `str::parse::<u32>` gives: an optional `+`, then at least one
/// decimal digit and nothing else, the value fitting in 32 bits.
pub open spec fn parsed_u32(s: Seq<char>) -> Option<u32> {
    let d = unsigned_part(s);
    if d.len() > 0 && all_digits(d) && digits_value(d) <= u32::MAX {
        Some(digits_value(d) as u32)
    } else {
        None
    }
}

/// `s` without a leading `+`.
pub open spec fn unsigned_part(s: Seq<char>) -> Seq<char> {
    if s.len() > 0 && s[0] == '+' {
        s.drop_first()
    } else {
        s
    }
}

/// Every character of `d` is a decimal digit.
pub open spec fn all_digits(d: Seq<char>) -> bool {
    forall|k: int| 0 <= k < d.len() ==> digit(#[trigger] d[k])
}

fn parse_u32(s: &str, from: usize) -> (value: Option<u32>)
    requires
        from <= s@.len(),
    ensures
        value == parsed_u32(s@.skip(from as int)),
{
    let ghost t = s@.skip(from as int);
    let n = s.unicode_len();
    let mut start = from;
    if start < n && s.get_char(start) == '+' {
        start = start + 1;
    }
    let ghost d = s@.skip(start as int);
    assert(d =~= unsigned_part(t));
    if start == n {
        return None;
    }
    let mut acc: u64 = 0;
    let mut i = start;
    assert(d.take(0) =~= Seq::<char>::empty());
    while i < n
        invariant
            n == s@.len(),
            start < n,
            t == s@.skip(from as int),
            d == s@.skip(start as int),
            d == unsigned_part(t),
            start <= i <= n,
            forall|k: int| 0 <= k < i - start ==> digit(#[trigger] d[k]),
            acc == digits_value(d.take(i - start)),
            acc <= u32::MAX,
        decreases n - i,
    {
        let c = s.get_char(i);
        if !is_digit(c) {
            assert(d[i - start] == c);
            assert(!digit(d[i - start]));
            assert(!all_digits(d));
            assert(parsed_u32(t) is None);
            return None;
        }
        let ghost prefix = d.take(i - start + 1);
        assert(prefix.drop_last() =~= d.take(i - start));
        assert(prefix.last() == c);
        let next = acc * 10 + ((c as u32) - ('0' as u32)) as u64;
        if next > 4294967295 {
            proof {
                if all_digits(d) {
                    lemma_digits_value_prefix(d, i - start + 1);
                    assert(digits_value(d.take(i - start + 1)) == next);
                    assert(digits_value(d) > u32::MAX);
                }
                assert(parsed_u32(t) is None);
            }
            return None;
        }
        acc = next;
        i = i + 1;
    }
    assert(d.take(n - start) =~= d);
    Some(acc as u32)
}

proof fn lemma_digits_value_prefix(d: Seq<char>, k: int)
    requires
        0 <= k <= d.len(),
        forall|j: int| 0 <= j < d.len() ==> digit(#[trigger] d[j]),
    ensures
        digits_value(d.take(k)) <= digits_value(d),
    decreases d.len() - k,
{
    if k < d.len() {
        lemma_digits_value_prefix(d, k + 1);
        let p = d.take(k + 1);
        assert(p.drop_last() =~= d.take(k));
    } else {
        assert(d.take(k) =~= d);
    }
}

/// A resource kind and its version.
#[derive(Clone, Debug, PartialEq, Eq)]
pub struct KindVersion {
    pub name: String,
    pub version: u32,
}

/// The index of the last `c` in `s`, if any.
pub open spec fn last_index_of(s: Seq<char>, c: char) -> Option<int> {
    if exists|i: int| 0 <= i < s.len() && s[i] == c {
        Some(choose|i: int| 0 <= i < s.len() && s[i] == c && forall|j: int| i < j < s.len() ==> s[j] != c)
    } else {
        None
    }
}

fn find_last(s: &str, c: char) -> (at: Option<usize>)
    ensures
        at matches Some(i) ==> i < s@.len() && s@[i as int] == c && forall|j: int| i < j < s@.len() ==> s@[j] != c,
        at is None ==> forall|j: int| 0 <= j < s@.len() ==> s@[j] != c,
{
    let mut i = s.unicode_len();
    while i > 0
        invariant
            i <= s@.len(),
            forall|j: int| i <= j < s@.len() ==> s@[j] != c,
        decreases i,
    {
        if s.get_char(i - 1) == c {
            return Some(i - 1);
        }
        i = i - 1;
    }
    None
}

/// What `parse_kind` answers for `value`: split at the last `@`, a valid
/// kind name, and a non-zero version.
pub open spec fn kind_parse(value: Seq<char>) -> Result<(Seq<char>, u32), Seq<char>> {
    if !(exists|i: int| 0 <= i < value.len() && value[i] == '@') {
        Err("resource kind "@ + debug_quoted_text(value) + " has no version suffix"@)
    } else {
        let i = choose|i: int| 0 <= i < value.len() && value[i] == '@' && forall|j: int| i < j < value.len() ==> value[j] != '@';
        let name = value.take(i);
        if !kind_name_ok(name) {
            Err("invalid resource kind "@ + debug_quoted_text(name) + "; expected namespace/kind with lowercase letters, digits, and hyphens"@)
        } else {
            match parsed_u32(value.skip(i + 1)) {
                Some(v) if v != 0 => Ok((name, v)),
                _ => Err("invalid resource kind version "@ + debug_quoted_text(value)),
            }
        }
    }
}

/// Parses `namespace/kind@version`, as `kind_parse` states.
pub fn parse_kind(value: &str) -> (r: Result<KindVersion, EvaluationError>)
    ensures
        match kind_parse(value@) {
            Ok((name, version)) => r matches Ok(k) && k.name@ == name && k.version == version,
            Err(m) => r matches Err(e) && e.message@ == m,
        },
{
    let len = value.unicode_len();
    match find_last(value, '@') {
        None => {
            let mut m = String::from_str("resource kind ");
            let q = debug_quoted(value);
            m.append(q.as_str());
            m.append(" has no version suffix");
            Err(EvaluationError { message: m })
        },
        Some(at) => {
            proof {
                let i = choose|i: int| 0 <= i < value@.len() && value@[i] == '@' && forall|j: int| i < j < value@.len() ==> value@[j] != '@';
                if i < at {
                } else if i > at {
                }
            }
            let name = value.substring_char(0, at);
            assert(name@ =~= value@.take(at as int));
            match validate_kind_name(name) {
                Err(e) => Err(e),
                Ok(()) => {
                    match parse_u32(value, at + 1) {
                        Some(v) => {
                            if v != 0 {
                                Ok(KindVersion { name: name.to_string(), version: v })
                            } else {
                                let mut m = String::from_str("invalid resource kind version ");
                                let q = debug_quoted(value);
                                m.append(q.as_str());
                                Err(EvaluationError { message: m })
                            }
                        },
                        None => {
                            let mut m = String::from_str("invalid resource kind version ");
                            let q = debug_quoted(value);
                            m.append(q.as_str());
                            Err(EvaluationError { message: m })
                        },
                    }
                },
            }
        },
    }
}

/// A resource's address: its kind and its name.
#[derive(Clone, Debug, PartialEq, Eq)]
pub struct ResourceAddress {
    pub kind: KindVersion,
    pub name: String,
}

/// What `parse_address` answers for `value`: split at the last `/`, a kind
/// as `kind_parse` states, and the name after it.
pub open spec fn address_parse(value: Seq<char>) -> Result<(Seq<char>, u32, Seq<char>), Seq<char>> {
    match last_index_of(value, '/') {
        None => Err("invalid resource address "@ + debug_quoted_text(value)),
        Some(i) => match kind_parse(value.take(i)) {
            Ok((name, version)) => Ok((name, version, value.skip(i + 1))),
            Err(m) => Err(m),
        },
    }
}

/// How an address is written: `namespace/kind@version/name`.
pub open spec fn address_text(kind: Seq<char>, version: u32, name: Seq<char>) -> Seq<char> {
    kind + "@"@ + decimal(version as nat) + "/"@ + name
}

impl ResourceAddress {
    /// The address as `address_text` writes it.
    pub fn text(&self) -> (t: String)
        ensures
            t@ == address_text(self.kind.name@, self.kind.version, self.name@),
    {
        let mut t = self.kind.name.clone();
        t.append("@");
        let v = decimal_text(self.kind.version as u64);
        t.append(v.as_str());
        t.append("/");
        t.append(self.name.as_str());
        t
    }
}

/// Parses `namespace/kind@version/name`, as `address_parse` states.
pub fn parse_address(value: &str) -> (r: Result<ResourceAddress, EvaluationError>)
    ensures
        match address_parse(value@) {
            Ok((kind, version, name)) => r matches Ok(a) && a.kind.name@ == kind && a.kind.version == version
                && a.name@ == name,
            Err(m) => r matches Err(e) && e.message@ == m,
        },
{
    let len = value.unicode_len();
    match find_last(value, '/') {
        None => {
            let mut m = String::from_str("invalid resource address ");
            let q = debug_quoted(value);
            m.append(q.as_str());
            Err(EvaluationError { message: m })
        },
        Some(at) => {
            proof {
                let i = choose|i: int|
                    0 <= i < value@.len() && value@[i] == '/' && forall|j: int| i < j < value@.len() ==> value@[j] != '/';
                if i < at {
                } else if i > at {
                }
                assert(last_index_of(value@, '/') == Some(at as int));
            }
            let kind_text = value.substring_char(0, at);
            let name = value.substring_char(at + 1, len);
            assert(kind_text@ =~= value@.take(at as int));
            assert(name@ =~= value@.skip(at + 1));
            match parse_kind(kind_text) {
                Ok(kind) => Ok(ResourceAddress { kind, name: name.to_string() }),
                Err(e) => Err(e),
            }
        },
    }
}

/// The result protocol version this host speaks.
pub const PROTOCOL_VERSION: u32 = 1;

/// Checks that a result speaks this host's protocol version.
pub fn require_protocol(version: u32) -> (r: Result<(), EvaluationError>)
    ensures
        version == PROTOCOL_VERSION ==> r is Ok,
        version != PROTOCOL_VERSION ==> (r matches Err(e) && e.message@ == "result protocol version "@ + decimal(
            version as nat,
        ) + " does not match "@ + decimal(PROTOCOL_VERSION as nat)),
{
    if version == PROTOCOL_VERSION {
        Ok(())
    } else {
        let mut m = String::from_str("result protocol version ");
        let v = decimal_text(version as u64);
        m.append(v.as_str());
        m.append(" does not match ");
        let p = decimal_text(PROTOCOL_VERSION as u64);
        m.append(p.as_str());
        Err(EvaluationError { message: m })
    }
}

} // verus!

verus! {

/// Writing an address and parsing it gives it back: for a valid kind name,
/// a non-zero version and a name without `/`, parsing
/// `kind@version/name` yields that kind, version and name.
#[verifier::spinoff_prover]
#[verifier::rlimit(50)]
pub proof fn law_address_round_trip(kind: Seq<char>, version: u32, name: Seq<char>)
    requires
        kind_name_ok(kind),
        version != 0,
        forall|k: int| 0 <= k < name.len() ==> name[k] != '/',
    ensures
        address_parse(address_text(kind, version, name)) == Ok::<(Seq<char>, u32, Seq<char>), Seq<char>>(
            (kind, version, name),
        ),
{
    let head = kind + "@"@ + decimal(version as nat);
    let value = head + "/"@ + name;
    let i = head.len() as int;
    assert(value == address_text(kind, version, name));
    assert(last_index_of(value, '/') == Some(i) && value.take(i) == head && value.skip(i + 1) == name) by {
        reveal_strlit("/");
        assert(value =~= head + seq!['/'] + name);
        lemma_last_split(head, '/', name);
        assert(value.take(i) =~= head);
        assert(value.skip(i + 1) =~= name);
    }
    assert(kind_parse(head) == Ok::<(Seq<char>, u32), Seq<char>>((kind, version))) by {
        lemma_kind_round_trip(kind, version);
    }
}

/// Writing a kind with its version and parsing it gives both back.
#[verifier::spinoff_prover]
#[verifier::rlimit(50)]
pub proof fn lemma_kind_round_trip(kind: Seq<char>, version: u32)
    requires
        kind_name_ok(kind),
        version != 0,
    ensures
        kind_parse(kind + "@"@ + decimal(version as nat)) == Ok::<(Seq<char>, u32), Seq<char>>((kind, version)),
{
    let dec = decimal(version as nat);
    let value = kind + "@"@ + dec;
    let i = kind.len() as int;
    assert(parsed_u32(dec) == Some(version)) by {
        lemma_decimal_digits(version as nat);
        assert(unsigned_part(dec) == dec);
    }
    assert(value.take(i) == kind && value.skip(i + 1) == dec && value[i] == '@' && forall|j: int|
        i < j < value.len() ==> value[j] != '@') by {
        reveal_strlit("@");
        lemma_decimal_digits(version as nat);
        assert forall|k: int| 0 <= k < dec.len() implies dec[k] != '@' by {
            assert(digit(dec[k]));
        }
        assert(value =~= kind + seq!['@'] + dec);
        lemma_last_split(kind, '@', dec);
        assert(value.take(i) =~= kind);
        assert(value.skip(i + 1) =~= dec);
    }
    assert(forall|x: int|
        0 <= x < value.len() && value[x] == '@' && (forall|j: int| x < j < value.len() ==> value[j] != '@') ==> x == i) by {
        reveal_strlit("@");
        lemma_decimal_digits(version as nat);
        assert forall|k: int| 0 <= k < dec.len() implies dec[k] != '@' by {
            assert(digit(dec[k]));
        }
        lemma_kind_has_no_at(kind);
        assert(value =~= kind + seq!['@'] + dec);
        lemma_last_split(kind, '@', dec);
    }
}

proof fn lemma_kind_has_no_at(kind: Seq<char>)
    requires
        kind_name_ok(kind),
    ensures
        forall|k: int| 0 <= k < kind.len() ==> kind[k] != '@',
{
    let w = choose|i: int| 0 <= i < kind.len() && kind[i] == '/' && kind_segment_ok(kind.take(i)) && kind_segment_ok(
        #[trigger] kind.skip(i + 1),
    );
    assert forall|k: int| 0 <= k < kind.len() implies kind[k] != '@' by {
        if k < w {
            assert(kind.take(w)[k] == kind[k]);
        } else if k > w {
            assert(kind.skip(w + 1)[k - w - 1] == kind[k]);
        }
    }
}

/// In `a`, `c`, `b` with no `c` in `b`, the last `c` is the one after `a`.
proof fn lemma_last_split(a: Seq<char>, c: char, b: Seq<char>)
    requires
        forall|k: int| 0 <= k < b.len() ==> b[k] != c,
    ensures
        ({
            let s = a + seq![c] + b;
            &&& last_index_of(s, c) == Some(a.len() as int)
            &&& forall|i: int|
                0 <= i < s.len() && s[i] == c && (forall|j: int| i < j < s.len() ==> s[j] != c) ==> i == a.len()
        }),
{
    let s = a + seq![c] + b;
    assert(s[a.len() as int] == c);
    assert forall|j: int| a.len() < j < s.len() implies s[j] != c by {
        assert(s[j] == b[j - a.len() - 1]);
    }
    assert forall|i: int|
        0 <= i < s.len() && s[i] == c && (forall|j: int| i < j < s.len() ==> s[j] != c) implies i == a.len() by {
        if i < a.len() {
            assert(s[a.len() as int] == c);
        } else if i > a.len() {
            assert(s[i] == b[i - a.len() - 1]);
        }
    }
}

/// A number's decimal text is one or more digits that spell it.
proof fn lemma_decimal_digits(n: nat)
    ensures
        decimal(n).len() >= 1,
        all_digits(decimal(n)),
        digits_value(decimal(n)) == n,
        digit(decimal(n)[0]),
    decreases n,
{
    if n < 10 {
        lemma_digit_char(n);
        assert(decimal(n) =~= seq![crate::fmt::digit_char(n)]);
        assert(decimal(n).drop_last() =~= Seq::<char>::empty());
        assert(digits_value(Seq::<char>::empty()) == 0);
        assert(decimal(n).last() == crate::fmt::digit_char(n));
    } else {
        lemma_decimal_digits(n / 10);
        lemma_digit_char(n % 10);
        let d = decimal(n);
        assert(d == decimal(n / 10).push(crate::fmt::digit_char(n % 10)));
        assert(d.drop_last() =~= decimal(n / 10));
        assert(d[0] == decimal(n / 10)[0]);
        assert forall|k: int| 0 <= k < d.len() implies digit(#[trigger] d[k]) by {
            if k < d.len() - 1 {
                assert(d[k] == decimal(n / 10)[k]);
            }
        }
        assert(n == 10 * (n / 10) + n % 10) by {
            vstd::arithmetic::div_mod::lemma_fundamental_div_mod(n as int, 10);
        }
        assert(d.last() == crate::fmt::digit_char(n % 10));
        assert(digits_value(d) == digits_value(d.drop_last()) * 10 + ((d.last() as nat) - ('0' as nat)) as nat);
        assert(digits_value(d) == (n / 10) * 10 + n % 10);
    }
}

proof fn lemma_digit_char(d: nat)
    requires
        d < 10,
    ensures
        digit(crate::fmt::digit_char(d)),
        (crate::fmt::digit_char(d) as nat) - ('0' as nat) == d,
{
}

} // verus!
