//! Partially-specified semantic versions with ordering, constraint matching,
//! parsing from catalog tag strings, and canonical rendering.

use vstd::prelude::*;
use vstd::string::StringExecFns;
use crate::strutil::str_chars;

verus! {

/// Strict order on optional components: absent ranks below present.
pub open spec fn opt_lt(a: Option<u64>, b: Option<u64>) -> bool {
    match (a, b) {
        (Option::None, Option::Some(_)) => true,
        (Option::Some(x), Option::Some(y)) => x < y,
        _ => false,
    }
}

/// A decimal digit character.
pub open spec fn is_digit_char(c: char) -> bool {
    48 <= c as u32 && c as u32 <= 57
}

/// The numeric value of a decimal digit character.
pub open spec fn digit_val(c: char) -> nat {
    (c as u32 - 48) as nat
}

/// The character for a decimal digit value.
pub open spec fn digit_char(d: nat) -> char {
    if d == 0 {
        '0'
    } else if d == 1 {
        '1'
    } else if d == 2 {
        '2'
    } else if d == 3 {
        '3'
    } else if d == 4 {
        '4'
    } else if d == 5 {
        '5'
    } else if d == 6 {
        '6'
    } else if d == 7 {
        '7'
    } else if d == 8 {
        '8'
    } else {
        '9'
    }
}

/// The canonical decimal rendering of `n`, most significant digit first.
pub open spec fn dec_chars(n: nat) -> Seq<char>
    decreases n,
{
    if n < 10 {
        seq![digit_char(n)]
    } else {
        dec_chars(n / 10).push(digit_char(n % 10))
    }
}

/// Every character of `s` is a decimal digit.
pub open spec fn all_digits(s: Seq<char>) -> bool {
    forall|i: int| 0 <= i < s.len() ==> is_digit_char(s[i])
}

/// A canonical decimal numeral: non-empty, digits only, no leading zero.
pub open spec fn is_num(s: Seq<char>) -> bool {
    s.len() > 0 && all_digits(s) && (s.len() > 1 ==> s[0] != '0')
}

/// The numeric value of a digit sequence.
pub open spec fn dec_val(s: Seq<char>) -> nat
    decreases s.len(),
{
    if s.len() == 0 {
        0
    } else {
        dec_val(s.drop_last()) * 10 + digit_val(s.last())
    }
}

/// A version component: a canonical numeral whose value fits in a `u64`.
pub open spec fn is_component(s: Seq<char>) -> bool {
    is_num(s) && dec_val(s) <= u64::MAX
}

/// The index of the first `'.'` in `s`, or `s.len()` if there is none.
pub open spec fn first_dot(s: Seq<char>) -> int
    decreases s.len(),
{
    if s.len() == 0 {
        0
    } else if s[0] == '.' {
        0
    } else {
        1 + first_dot(s.subrange(1, s.len() as int))
    }
}

pub proof fn lemma_first_dot(s: Seq<char>)
    ensures
        0 <= first_dot(s) <= s.len(),
        first_dot(s) < s.len() ==> s[first_dot(s)] == '.',
        forall|k: int| 0 <= k < first_dot(s) ==> s[k] != '.',
    decreases s.len(),
{
    if s.len() == 0 {
    } else if s[0] == '.' {
    } else {
        let rest = s.subrange(1, s.len() as int);
        lemma_first_dot(rest);
        assert forall|k: int| 0 <= k < first_dot(s) implies s[k] != '.' by {
            if k > 0 {
                assert(s[k] == rest[k - 1]);
            }
        }
    }
}

/// The value of a prefix never exceeds the value of the whole numeral.
pub proof fn lemma_dec_val_mono(s: Seq<char>, m: int)
    requires
        0 <= m <= s.len(),
    ensures
        dec_val(s.subrange(0, m)) <= dec_val(s),
    decreases s.len(),
{
    if m == s.len() {
        assert(s.subrange(0, m) =~= s);
    } else {
        let head = s.drop_last();
        lemma_dec_val_mono(head, m);
        assert(s.subrange(0, m) =~= head.subrange(0, m));
        assert(dec_val(head) * 10 >= dec_val(head));
    }
}

/// Appending one digit multiplies the value by ten and adds the digit.
pub proof fn lemma_dec_val_step(s: Seq<char>, from: int, k: int)
    requires
        0 <= from <= k < s.len(),
    ensures
        dec_val(s.subrange(from, k + 1)) == dec_val(s.subrange(from, k)) * 10 + digit_val(s[k]),
{
    let ext = s.subrange(from, k + 1);
    assert(ext.drop_last() =~= s.subrange(from, k));
    assert(ext.last() == s[k]);
}

/// The canonical rendering of a number is a well-formed numeral whose value
/// is the number itself.
pub proof fn lemma_dec_chars(n: nat)
    ensures
        dec_chars(n).len() >= 1,
        all_digits(dec_chars(n)),
        n >= 1 ==> dec_chars(n)[0] != '0',
        dec_val(dec_chars(n)) == n,
    decreases n,
{
    if n < 10 {
        let one = seq![digit_char(n)];
        assert(one.drop_last() =~= Seq::<char>::empty());
        assert(one.last() == digit_char(n));
        assert(dec_val(one.drop_last()) == 0);
        assert(dec_val(one) == dec_val(one.drop_last()) * 10 + digit_val(one.last()));
    } else {
        lemma_dec_chars(n / 10);
        let x = dec_chars(n / 10);
        let c = digit_char(n % 10);
        assert(x.push(c).drop_last() =~= x);
        assert(x.push(c).last() == c);
        assert(dec_val(x.push(c)) == dec_val(x) * 10 + digit_val(c));
        assert(n / 10 * 10 + n % 10 == n) by {
            vstd::arithmetic::div_mod::lemma_fundamental_div_mod(n as int, 10);
        }
        assert forall|k: int| 0 <= k < x.push(c).len() implies is_digit_char(x.push(c)[k]) by {
            if k < x.len() {
                assert(x.push(c)[k] == x[k]);
            }
        }
        assert(x.push(c)[0] == x[0]);
    }
}

/// A character is the zero digit exactly when its code point is 48.
pub proof fn lemma_zero_digit_code(c: char)
    ensures
        (c == '0') <==> (c as u32 == 48),
{
    assert('0' as u32 == 48);
}

/// A digit character is recovered from its value.
pub proof fn lemma_digit_char_val(c: char)
    requires
        is_digit_char(c),
    ensures
        digit_char(digit_val(c)) == c,
{
    assert('0' as u32 == 48);
    assert('1' as u32 == 49);
    assert('2' as u32 == 50);
    assert('3' as u32 == 51);
    assert('4' as u32 == 52);
    assert('5' as u32 == 53);
    assert('6' as u32 == 54);
    assert('7' as u32 == 55);
    assert('8' as u32 == 56);
    assert('9' as u32 == 57);
}

/// A numeral without a leading zero has a positive value.
pub proof fn lemma_dec_val_pos(s: Seq<char>)
    requires
        s.len() > 0,
        all_digits(s),
        s[0] != '0',
    ensures
        dec_val(s) >= 1,
    decreases s.len(),
{
    if s.len() == 1 {
        assert(s.drop_last() =~= Seq::<char>::empty());
        assert(s.last() == s[0]);
        assert(dec_val(s.drop_last()) == 0);
        assert(dec_val(s) == dec_val(s.drop_last()) * 10 + digit_val(s.last()));
        assert(is_digit_char(s[0]));
        lemma_zero_digit_code(s[0]);
    } else {
        let y = s.drop_last();
        assert(y[0] == s[0]);
        assert(all_digits(y)) by {
            assert(forall|k: int| 0 <= k < y.len() ==> y[k] == s[k]);
        }
        lemma_dec_val_pos(y);
        assert(dec_val(y) * 10 >= 10);
    }
}

/// A canonical numeral is the rendering of its own value.
pub proof fn lemma_num_canonical(s: Seq<char>)
    requires
        is_num(s),
    ensures
        dec_chars(dec_val(s)) == s,
    decreases s.len(),
{
    if s.len() == 1 {
        assert(s.drop_last() =~= Seq::<char>::empty());
        assert(s.last() == s[0]);
        assert(dec_val(s.drop_last()) == 0);
        assert(dec_val(s) == dec_val(s.drop_last()) * 10 + digit_val(s.last()));
        assert(is_digit_char(s[0]));
        lemma_digit_char_val(s[0]);
        assert(dec_chars(dec_val(s)) =~= s);
    } else {
        let y = s.drop_last();
        let c = s.last();
        assert(y[0] == s[0]);
        assert(all_digits(y)) by {
            assert(forall|k: int| 0 <= k < y.len() ==> y[k] == s[k]);
        }
        assert(is_num(y));
        lemma_num_canonical(y);
        lemma_dec_val_pos(y);
        assert(is_digit_char(c));
        assert(dec_val(s) == dec_val(y) * 10 + digit_val(c));
        assert(dec_val(s) >= 10) by {
            assert(dec_val(y) * 10 >= 10);
        }
        assert(dec_val(s) as int / 10 == dec_val(y) && dec_val(s) as int % 10 == digit_val(
            c,
        ) as int) by {
            vstd::arithmetic::div_mod::lemma_fundamental_div_mod_converse(
                dec_val(s) as int,
                10,
                dec_val(y) as int,
                digit_val(c) as int,
            );
        }
        lemma_digit_char_val(c);
        assert(dec_chars(dec_val(s)) == dec_chars(dec_val(y)).push(c));
        assert(y.push(c) =~= s);
    }
}

/// The parser accepts only canonical renderings: a string that parses to a
/// version is that version's rendering. So versions are tagged by exactly
/// one string, and a release not tagged with a version's rendering cannot
/// parse to it.
#[verifier::rlimit(100)]
pub proof fn lemma_parse_injective(s: Seq<char>, v: Version)
    requires
        spec_parse_version(s) == Some(v),
    ensures
        s == version_chars(v),
{
    lemma_first_dot(s);
    let i = first_dot(s);
    if i == s.len() {
        lemma_num_canonical(s);
        assert(version_chars(v) =~= dec_chars(v.major as nat));
        assert(dec_chars(v.major as nat) == s);
    } else {
        let head = s.subrange(0, i);
        let tail = s.subrange(i + 1, s.len() as int);
        let j = first_dot(tail);
        lemma_first_dot(tail);
        lemma_num_canonical(head);
        assert(dec_chars(v.major as nat) == head);
        if j == tail.len() {
            lemma_num_canonical(tail);
            assert(dec_chars(v.minor.unwrap() as nat) == tail);
            assert(version_chars(v) =~= head + seq!['.'] + tail);
            assert(s =~= head + seq!['.'] + tail);
        } else {
            let mid = tail.subrange(0, j);
            let last = tail.subrange(j + 1, tail.len() as int);
            lemma_num_canonical(mid);
            lemma_num_canonical(last);
            assert(dec_chars(v.minor.unwrap() as nat) == mid);
            assert(dec_chars(v.patch.unwrap() as nat) == last);
            assert(version_chars(v) =~= head + seq!['.'] + mid + seq!['.'] + last);
            assert(tail =~= mid + seq!['.'] + last);
            assert(s =~= head + seq!['.'] + tail);
            assert(s =~= head + seq!['.'] + mid + seq!['.'] + last);
        }
    }
}

/// Parsing the canonical rendering of a fully specified version gives that
/// version back: a direct lookup by exact tag is consistent with what the
/// enumeration's parser sees.
#[verifier::rlimit(100)]
pub proof fn lemma_parse_canonical(v: Version)
    requires
        v.full(),
    ensures
        spec_parse_version(version_chars(v)) == Some(v),
{
    let s = version_chars(v);
    let ma = dec_chars(v.major as nat);
    let mi = dec_chars(v.minor.unwrap() as nat);
    let pa = dec_chars(v.patch.unwrap() as nat);
    lemma_dec_chars(v.major as nat);
    lemma_dec_chars(v.minor.unwrap() as nat);
    lemma_dec_chars(v.patch.unwrap() as nat);
    assert(s =~= ma + (seq!['.'] + mi) + (seq!['.'] + pa));
    let i = ma.len() as int;
    lemma_first_dot(s);
    assert(s[i] == '.');
    if first_dot(s) < i {
        assert(s[first_dot(s)] == ma[first_dot(s)]);
        assert(is_digit_char(ma[first_dot(s)]));
    }
    assert(first_dot(s) == i);
    let head = s.subrange(0, i);
    assert(head =~= ma);
    let tail = s.subrange(i + 1, s.len() as int);
    assert(tail =~= mi + (seq!['.'] + pa));
    let j = mi.len() as int;
    lemma_first_dot(tail);
    assert(tail[j] == '.');
    if first_dot(tail) < j {
        assert(tail[first_dot(tail)] == mi[first_dot(tail)]);
        assert(is_digit_char(mi[first_dot(tail)]));
    }
    assert(first_dot(tail) == j);
    let mid = tail.subrange(0, j);
    assert(mid =~= mi);
    let last = tail.subrange(j + 1, tail.len() as int);
    assert(last =~= pa);
    assert(is_component(ma) && is_component(mi) && is_component(pa));
    assert(spec_parse_version(s) == Some(
        Version {
            major: dec_val(ma) as u64,
            minor: Some(dec_val(mi) as u64),
            patch: Some(dec_val(pa) as u64),
        },
    ));
    assert(dec_val(ma) as u64 == v.major);
}

/// The canonical rendering of a version: major, then the present components,
/// separated by dots.
pub open spec fn version_chars(v: Version) -> Seq<char> {
    dec_chars(v.major as nat) + (if v.minor is Some {
        seq!['.'] + dec_chars(v.minor.unwrap() as nat)
    } else {
        Seq::<char>::empty()
    }) + (if v.patch is Some {
        seq!['.'] + dec_chars(v.patch.unwrap() as nat)
    } else {
        Seq::<char>::empty()
    })
}

/// Parses a tag string: one to three dot-separated canonical decimal
/// components, each fitting in a `u64`; anything else is rejected.
pub open spec fn spec_parse_version(s: Seq<char>) -> Option<Version> {
    let i = first_dot(s);
    if i == s.len() {
        if is_component(s) {
            Some(Version { major: dec_val(s) as u64, minor: None, patch: None })
        } else {
            None
        }
    } else {
        let head = s.subrange(0, i);
        let tail = s.subrange(i + 1, s.len() as int);
        let j = first_dot(tail);
        if !is_component(head) {
            None
        } else if j == tail.len() {
            if is_component(tail) {
                Some(
                    Version {
                        major: dec_val(head) as u64,
                        minor: Some(dec_val(tail) as u64),
                        patch: None,
                    },
                )
            } else {
                None
            }
        } else {
            let mid = tail.subrange(0, j);
            let last = tail.subrange(j + 1, tail.len() as int);
            if is_component(mid) && is_component(last) {
                Some(
                    Version {
                        major: dec_val(head) as u64,
                        minor: Some(dec_val(mid) as u64),
                        patch: Some(dec_val(last) as u64),
                    },
                )
            } else {
                None
            }
        }
    }
}

/// Returns the one-character string for a decimal digit value.
fn digit_str(d: u64) -> (s: &'static str)
    requires
        d < 10,
    ensures
        s@ == seq![digit_char(d as nat)],
{
    proof {
        reveal_strlit("0");
        reveal_strlit("1");
        reveal_strlit("2");
        reveal_strlit("3");
        reveal_strlit("4");
        reveal_strlit("5");
        reveal_strlit("6");
        reveal_strlit("7");
        reveal_strlit("8");
        reveal_strlit("9");
    }
    match d {
        0 => "0",
        1 => "1",
        2 => "2",
        3 => "3",
        4 => "4",
        5 => "5",
        6 => "6",
        7 => "7",
        8 => "8",
        _ => "9",
    }
}

/// Appends the decimal rendering of `n` to `out`.
pub fn append_dec(out: &mut String, n: u64)
    ensures
        final(out)@ == old(out)@ + dec_chars(n as nat),
    decreases n,
{
    if n < 10 {
        out.append(digit_str(n));
    } else {
        append_dec(out, n / 10);
        out.append(digit_str(n % 10));
        proof {
            assert(dec_chars((n / 10) as nat).push(digit_char((n % 10) as nat)) =~= dec_chars(
                (n / 10) as nat,
            ) + seq![digit_char((n % 10) as nat)]);
            assert(old(out)@ + dec_chars((n / 10) as nat) + seq![digit_char((n % 10) as nat)]
                =~= old(out)@ + dec_chars(n as nat));
        }
    }
}

/// A version constraint: a major component, an optional minor component and
/// an optional patch component. Absent components act as wildcards when
/// matching.
#[derive(Debug, Clone, Copy, PartialEq, Eq)]
pub struct Version {
    pub major: u64,
    pub minor: Option<u64>,
    pub patch: Option<u64>,
}

impl Version {
    /// A well-formed version never specifies a patch without a minor.
    pub open spec fn wf(self) -> bool {
        self.patch is Some ==> self.minor is Some
    }

    /// All three components are present.
    pub open spec fn full(self) -> bool {
        self.minor is Some && self.patch is Some
    }

    /// Constraint satisfaction: each present component of `self` must equal
    /// the corresponding component of `other`; absent components match
    /// anything.
    pub open spec fn spec_matches(self, other: Version) -> bool {
        &&& self.major == other.major
        &&& (self.minor is Some ==> self.minor == other.minor)
        &&& (self.patch is Some ==> self.patch == other.patch)
    }

    /// Strict component-wise order: compare major, then minor, then patch,
    /// an absent component ranking below any present one.
    pub open spec fn spec_lt(self, other: Version) -> bool {
        if self.major != other.major {
            self.major < other.major
        } else if self.minor != other.minor {
            opt_lt(self.minor, other.minor)
        } else {
            opt_lt(self.patch, other.patch)
        }
    }

    /// Creates a version from its components.
    pub fn new(major: u64, minor: Option<u64>, patch: Option<u64>) -> (v: Version)
        ensures
            v == (Version { major, minor, patch }),
    {
        Version { major, minor, patch }
    }

    /// Returns whether `other` satisfies the constraint `self`.
    pub fn matches(&self, other: &Version) -> (r: bool)
        ensures
            r == self.spec_matches(*other),
    {
        if self.major != other.major {
            return false;
        }
        if let Some(m) = self.minor {
            match other.minor {
                Some(om) => {
                    if m != om {
                        return false;
                    }
                },
                None => {
                    return false;
                },
            }
        }
        if let Some(p) = self.patch {
            match other.patch {
                Some(op) => {
                    if p != op {
                        return false;
                    }
                },
                None => {
                    return false;
                },
            }
        }
        true
    }

    /// Returns whether `self` is strictly below `other` in the
    /// component-wise order.
    pub fn lt(&self, other: &Version) -> (r: bool)
        ensures
            r == self.spec_lt(*other),
    {
        if self.major != other.major {
            return self.major < other.major;
        }
        match (self.minor, other.minor) {
            (Option::None, Option::None) => {},
            (Option::None, Option::Some(_)) => {
                return true;
            },
            (Option::Some(_), Option::None) => {
                return false;
            },
            (Option::Some(x), Option::Some(y)) => {
                if x != y {
                    return x < y;
                }
            },
        }
        match (self.patch, other.patch) {
            (Option::None, Option::Some(_)) => true,
            (Option::Some(x), Option::Some(y)) => x < y,
            _ => false,
        }
    }

    /// Renders the version canonically: the present components in order,
    /// separated by dots.
    pub fn to_text(&self) -> (s: String)
        ensures
            s@ == version_chars(*self),
    {
        let mut s = String::new();
        append_dec(&mut s, self.major);
        if let Some(m) = self.minor {
            s.append(".");
            append_dec(&mut s, m);
        }
        if let Some(p) = self.patch {
            s.append(".");
            append_dec(&mut s, p);
        }
        proof {
            reveal_strlit(".");
            assert(s@ =~= version_chars(*self));
        }
        s
    }

    /// Parses a tag string into a version; malformed input is rejected, never
    /// silently defaulted.
    pub fn parse(s: &str) -> (r: Option<Version>)
        ensures
            r == spec_parse_version(s@),
    {
        let chars = str_chars(s);
        let n = chars.len();
        let i = scan_dot(&chars, 0);
        proof {
            lemma_first_dot(s@);
            if (i as int) < first_dot(s@) {
                assert(s@[i as int] == '.');
            }
            if first_dot(s@) < i as int {
                assert(s@[first_dot(s@)] == '.');
            }
            assert(i as int == first_dot(s@));
        }
        if i == n {
            proof {
                assert(chars@.subrange(0, n as int) =~= s@);
            }
            match parse_num(&chars, 0, n) {
                Some(m) => Some(Version { major: m, minor: None, patch: None }),
                None => None,
            }
        } else {
            let ghost tail = s@.subrange(i as int + 1, n as int);
            let a = scan_dot(&chars, i + 1);
            proof {
                lemma_first_dot(tail);
                assert(forall|m: int|
                    0 <= m < tail.len() ==> tail[m] == s@[i as int + 1 + m]);
                if (a as int - (i as int + 1)) < first_dot(tail) {
                    assert(tail[a as int - (i as int + 1)] == '.');
                }
                if first_dot(tail) < a as int - (i as int + 1) {
                    assert(s@[i as int + 1 + first_dot(tail)] == '.');
                }
                assert(a as int - (i as int + 1) == first_dot(tail));
                assert(chars@.subrange(0, i as int) =~= s@.subrange(0, i as int));
            }
            let major = match parse_num(&chars, 0, i) {
                Some(m) => m,
                None => {
                    return None;
                },
            };
            if a == n {
                proof {
                    assert(chars@.subrange(i as int + 1, n as int) =~= tail);
                }
                match parse_num(&chars, i + 1, n) {
                    Some(mi) => Some(Version { major, minor: Some(mi), patch: None }),
                    None => None,
                }
            } else {
                let ghost j = a as int - (i as int + 1);
                proof {
                    assert(chars@.subrange(i as int + 1, a as int) =~= tail.subrange(0, j));
                    assert(chars@.subrange(a as int + 1, n as int) =~= tail.subrange(
                        j + 1,
                        tail.len() as int,
                    ));
                }
                let minor = match parse_num(&chars, i + 1, a) {
                    Some(mi) => mi,
                    None => {
                        return None;
                    },
                };
                match parse_num(&chars, a + 1, n) {
                    Some(p) => Some(Version { major, minor: Some(minor), patch: Some(p) }),
                    None => None,
                }
            }
        }
    }
}

/// Returns the index of the first `'.'` at or after `start`, or the length
/// if there is none.
fn scan_dot(chars: &Vec<char>, start: usize) -> (k: usize)
    requires
        start <= chars@.len(),
    ensures
        start <= k <= chars@.len(),
        k < chars@.len() ==> chars@[k as int] == '.',
        forall|m: int| start <= m < k ==> chars@[m] != '.',
{
    let mut k = start;
    while k < chars.len()
        invariant
            start <= k <= chars@.len(),
            forall|m: int| start <= m < k ==> chars@[m] != '.',
        decreases chars@.len() - k,
    {
        if chars[k] == '.' {
            return k;
        }
        k = k + 1;
    }
    k
}

/// Parses the canonical numeral held in `chars[from..to]`; rejects an empty
/// range, a non-digit, a leading zero and a value over `u64::MAX`.
fn parse_num(chars: &Vec<char>, from: usize, to: usize) -> (r: Option<u64>)
    requires
        from <= to <= chars@.len(),
    ensures
        r is Some <==> is_component(chars@.subrange(from as int, to as int)),
        r is Some ==> r.unwrap() as nat == dec_val(chars@.subrange(from as int, to as int)),
{
    let ghost sub = chars@.subrange(from as int, to as int);
    if from == to {
        return None;
    }
    if chars[from] == '0' && to - from > 1 {
        proof {
            assert(sub[0] == '0');
        }
        return None;
    }
    let mut n: u64 = 0;
    let mut k: usize = from;
    while k < to
        invariant
            from <= k <= to <= chars@.len(),
            to > from,
            sub == chars@.subrange(from as int, to as int),
            n as nat == dec_val(chars@.subrange(from as int, k as int)),
            forall|m: int| from <= m < k ==> is_digit_char(chars@[m]),
        decreases to - k,
    {
        let c = chars[k];
        let u = c as u32;
        if u < 48 || u > 57 {
            proof {
                assert(sub[k - from] == chars@[k as int]);
                assert(!is_digit_char(sub[k - from]));
            }
            return None;
        }
        let d = ((u - 48) as u64);
        let lim = u64::MAX / 10;
        let rem = u64::MAX % 10;
        if n > lim || (n == lim && d > rem) {
            proof {
                lemma_dec_val_step(chars@, from as int, k as int);
                assert(dec_val(chars@.subrange(from as int, k as int + 1)) == n as nat * 10
                    + d as nat);
                assert(n as nat * 10 + d as nat > u64::MAX);
                assert(sub.subrange(0, k as int + 1 - from) =~= chars@.subrange(
                    from as int,
                    k as int + 1,
                ));
                lemma_dec_val_mono(sub, k as int + 1 - from);
            }
            return None;
        }
        n = n * 10 + d;
        proof {
            lemma_dec_val_step(chars@, from as int, k as int);
        }
        k = k + 1;
    }
    proof {
        assert(sub =~= chars@.subrange(from as int, to as int));
        assert(forall|m: int| 0 <= m < sub.len() ==> sub[m] == chars@[from + m]);
        assert(all_digits(sub));
        assert(sub.len() > 1 ==> sub[0] != '0');
        assert(is_component(sub));
    }
    Some(n)
}

/// The component-wise order is total: exactly one of `a < b`, `a == b`,
/// `b < a` holds. In particular this covers fully specified versions.
pub proof fn lemma_version_trichotomy(a: Version, b: Version)
    ensures
        a.spec_lt(b) || b.spec_lt(a) || a == b,
        a.spec_lt(b) ==> !b.spec_lt(a) && a != b,
        b.spec_lt(a) ==> !a.spec_lt(b) && a != b,
        a == b ==> !a.spec_lt(b) && !b.spec_lt(a),
{
    if a.major == b.major && a.minor == b.minor && a.patch == b.patch {
        assert(a == b);
    }
}

} // verus!
