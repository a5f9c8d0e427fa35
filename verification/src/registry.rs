//! Append-only registries dispatching a catalog URL to the handler whose
//! predicate accepts it first.

use vstd::prelude::*;
use vstd::string::StringExecFns;
use crate::error::ArchiveError;
use crate::strutil::{spec_starts_with, str_chars, vec_chars_eq, vec_starts_with};

verus! {

/// A first-class URL predicate, kept as data so that registration order and
/// precedence stay observable.
#[derive(Debug)]
pub enum Predicate {
    /// Accepts every URL that starts with the pattern.
    StartsWith(String),
    /// Accepts exactly the pattern.
    Equals(String),
}

impl Predicate {
    /// The pattern text the predicate was built from.
    pub open spec fn pattern(self) -> Seq<char> {
        match self {
            Predicate::StartsWith(p) => p@,
            Predicate::Equals(p) => p@,
        }
    }

    /// Whether the predicate accepts a URL.
    pub open spec fn spec_accepts(self, url: Seq<char>) -> bool {
        match self {
            Predicate::StartsWith(p) => spec_starts_with(url, p@),
            Predicate::Equals(p) => url == p@,
        }
    }

    /// Two predicates are equivalent when they have the same shape and
    /// pattern.
    pub open spec fn spec_same(self, other: Predicate) -> bool {
        match (self, other) {
            (Predicate::StartsWith(a), Predicate::StartsWith(b)) => a@ == b@,
            (Predicate::Equals(a), Predicate::Equals(b)) => a@ == b@,
            _ => false,
        }
    }

    /// Evaluates the predicate on a URL.
    pub fn accepts(&self, url: &str) -> (r: bool)
        ensures
            r == self.spec_accepts(url@),
    {
        let uc = str_chars(url);
        match self {
            Predicate::StartsWith(p) => {
                let pc = str_chars(p.as_str());
                vec_starts_with(&uc, &pc)
            },
            Predicate::Equals(p) => {
                let pc = str_chars(p.as_str());
                vec_chars_eq(&uc, &pc)
            },
        }
    }

    /// Returns whether the two predicates are equivalent.
    pub fn same_as(&self, other: &Predicate) -> (r: bool)
        ensures
            r == self.spec_same(*other),
    {
        match (self, other) {
            (Predicate::StartsWith(a), Predicate::StartsWith(b)) => {
                let ac = str_chars(a.as_str());
                let bc = str_chars(b.as_str());
                vec_chars_eq(&ac, &bc)
            },
            (Predicate::Equals(a), Predicate::Equals(b)) => {
                let ac = str_chars(a.as_str());
                let bc = str_chars(b.as_str());
                vec_chars_eq(&ac, &bc)
            },
            _ => false,
        }
    }
}

/// Some entry's predicate is a `StartsWith` of the given pattern.
pub open spec fn has_same<H>(es: Seq<(Predicate, H)>, pattern: Seq<char>) -> bool {
    exists|i: int|
        0 <= i < es.len() && (#[trigger] es[i]).0 is StartsWith && es[i].0.pattern() == pattern
}

/// Registration followed by dispatch: when no prior entry accepts the URL
/// and the newly registered predicate does, every accepting entry of the
/// grown registry carries the new handler — so `resolve`, whose contract
/// returns the first accepting entry's handler, returns exactly it,
/// whatever was registered before.
pub proof fn lemma_register_then_dispatch<H>(
    es: Seq<(Predicate, H)>,
    p: Predicate,
    h: H,
    url: Seq<char>,
)
    requires
        p.spec_accepts(url),
        forall|m: int| 0 <= m < es.len() ==> !(#[trigger] es[m]).0.spec_accepts(url),
    ensures
        exists|i: int|
            0 <= i < es.push((p, h)).len() && (#[trigger] es.push((p, h))[i]).0.spec_accepts(url),
        forall|i: int|
            0 <= i < es.push((p, h)).len() && (#[trigger] es.push((p, h))[i]).0.spec_accepts(url)
                ==> es.push((p, h))[i].1 == h,
{
    let es2 = es.push((p, h));
    assert(es2[es.len() as int] == (p, h));
    assert(es2[es.len() as int].0.spec_accepts(url));
    assert forall|i: int|
        0 <= i < es2.len() && (#[trigger] es2[i]).0.spec_accepts(url) implies es2[i].1 == h by {
        if i < es.len() {
            assert(es2[i] == es[i]);
        }
    }
}

/// Registration does not widen dispatch: a URL that no prior entry accepts
/// and that the new predicate rejects still resolves to nothing.
pub proof fn lemma_register_keeps_not_found<H>(
    es: Seq<(Predicate, H)>,
    p: Predicate,
    h: H,
    url: Seq<char>,
)
    requires
        !p.spec_accepts(url),
        forall|m: int| 0 <= m < es.len() ==> !(#[trigger] es[m]).0.spec_accepts(url),
    ensures
        forall|i: int|
            0 <= i < es.push((p, h)).len() ==> !(#[trigger] es.push((p, h))[i]).0.spec_accepts(
                url,
            ),
{
    let es2 = es.push((p, h));
    assert forall|i: int| 0 <= i < es2.len() implies !es2[i].0.spec_accepts(url) by {
        if i < es.len() {
            assert(es2[i] == es[i]);
        } else {
            assert(es2[i] == (p, h));
        }
    }
}

/// An append-only list of predicate/handler pairs, dispatched first
/// registered, first matched. It is meant to be populated once during
/// startup and read thereafter, and lives for the process's duration.
#[derive(Debug)]
pub struct Registry<H> {
    pub entries: Vec<(Predicate, H)>,
}

impl<H> Registry<H> {
    /// Creates an empty registry.
    pub fn new() -> (r: Registry<H>)
        ensures
            r.entries@.len() == 0,
    {
        Registry { entries: Vec::new() }
    }

    /// Appends an entry. Registering an equivalent predicate twice is
    /// rejected with `RegistrationConflict` carrying the pattern, never
    /// silently overwritten, whatever the handlers are.
    pub fn register(&mut self, p: Predicate, h: H) -> (r: Result<(), ArchiveError>)
        ensures
            match r {
                Ok(()) => (forall|i: int|
                    0 <= i < old(self).entries@.len() ==> !old(self).entries@[i].0.spec_same(p))
                    && final(self).entries@ == old(self).entries@.push((p, h)),
                Err(ArchiveError::RegistrationConflict(t)) => (exists|i: int|
                    0 <= i < old(self).entries@.len() && old(self).entries@[i].0.spec_same(p))
                    && final(self).entries@ == old(self).entries@ && t@ == p.pattern(),
                Err(_) => false,
            },
            r is Ok <==> forall|i: int|
                0 <= i < old(self).entries@.len() ==> !old(self).entries@[i].0.spec_same(p),
    {
        let n = self.entries.len();
        let mut k: usize = 0;
        while k < n
            invariant
                n == self.entries@.len(),
                k <= n,
                forall|i: int| 0 <= i < k ==> !self.entries@[i].0.spec_same(p),
            decreases n - k,
        {
            if self.entries[k].0.same_as(&p) {
                let t = match &p {
                    Predicate::StartsWith(s) => s.clone(),
                    Predicate::Equals(s) => s.clone(),
                };
                return Err(ArchiveError::RegistrationConflict(t));
            }
            k = k + 1;
        }
        self.entries.push((p, h));
        Ok(())
    }

    /// Scans the entries in registration order and returns the first handler
    /// whose predicate accepts the URL, or nothing when none does.
    pub fn resolve(&self, url: &str) -> (r: Option<&H>)
        ensures
            match r {
                Some(h) => exists|i: int|
                    0 <= i < self.entries@.len() && self.entries@[i].0.spec_accepts(url@) && (
                    forall|m: int| 0 <= m < i ==> !self.entries@[m].0.spec_accepts(url@)) && *h
                        == self.entries@[i].1,
                None => forall|i: int|
                    0 <= i < self.entries@.len() ==> !self.entries@[i].0.spec_accepts(url@),
            },
            r is Some <==> exists|i: int|
                0 <= i < self.entries@.len() && self.entries@[i].0.spec_accepts(url@),
    {
        let n = self.entries.len();
        let mut k: usize = 0;
        while k < n
            invariant
                n == self.entries@.len(),
                k <= n,
                forall|m: int| 0 <= m < k ==> !self.entries@[m].0.spec_accepts(url@),
            decreases n - k,
        {
            if self.entries[k].0.accepts(url) {
                return Some(&self.entries[k].1);
            }
            k = k + 1;
        }
        None
    }
}

} // verus!
