use vstd::prelude::*;
use vstd::string::*;

use crate::text::{decimal, escape, push_char, push_decimal, push_escaped, same_chars};

verus! {

/// The friendly name that stands for a common tag, if `base` is one.
pub open spec fn alias(base: Seq<char>) -> Option<Seq<char>> {
    if base == "a"@ {
        Some("link"@)
    } else if base == "div"@ {
        Some("container"@)
    } else if base == "b"@ {
        Some("bold"@)
    } else if base == "i"@ {
        Some("italics"@)
    } else if base == "pre"@ {
        Some("preformatted"@)
    } else if base == "code"@ {
        Some("codeBlock"@)
    } else if base == "p"@ {
        Some("paragraph"@)
    } else if base == "h"@ {
        Some("heading"@)
    } else if base == "span"@ {
        Some("textSpan"@)
    } else {
        None
    }
}

pub open spec fn is_delimiter(c: char) -> bool {
    c == '_' || c == '-'
}

/// ASCII upper case of `c`; other characters stay as they are.
pub open spec fn ascii_upper(c: char) -> char {
    if 'a' <= c && c <= 'z' {
        ((c as u32) - 32) as char
    } else {
        c
    }
}

/// The camel-case writing of what is left of a name, `s`.
/// `pending` says that a delimiter was passed since the last kept character,
/// `started` that some character was already kept.
pub open spec fn camel_from(s: Seq<char>, pending: bool, started: bool) -> Seq<char>
    decreases s.len(),
{
    if s.len() == 0 {
        Seq::empty()
    } else if is_delimiter(s[0]) {
        camel_from(s.skip(1), true, started)
    } else {
        let c = if pending && started { ascii_upper(s[0]) } else { s[0] };
        seq![c] + camel_from(s.skip(1), false, true)
    }
}

/// The segments of `s` between `_` and `-`, empty ones dropped, joined in camel case.
pub open spec fn camel(s: Seq<char>) -> Seq<char> {
    camel_from(s, false, false)
}

/// The name a base stands for in identifiers: its alias, else its camel-case
/// form, else (when nothing is left of it) `node`.
pub open spec fn canonical(base: Seq<char>) -> Seq<char> {
    match alias(base) {
        Some(a) => a,
        None => if camel(base).len() == 0 { "node"@ } else { camel(base) },
    }
}

/// How many times `name` was handed out so far.
pub open spec fn mark_of(registry: Map<Seq<char>, nat>, name: Seq<char>) -> nat {
    if registry.contains_key(name) { registry[name] } else { 0 }
}

/// The identifier handed out for `base` when the registry stands at `registry`.
pub open spec fn identifier(registry: Map<Seq<char>, nat>, base: Seq<char>) -> Seq<char> {
    let name = canonical(base);
    let mark = mark_of(registry, name) + 1;
    if mark == 1 { name } else { name + decimal(mark) }
}

/// The registry after `base` was handed out once more.
pub open spec fn registered(registry: Map<Seq<char>, nat>, base: Seq<char>) -> Map<Seq<char>, nat> {
    let name = canonical(base);
    registry.insert(name, mark_of(registry, name) + 1)
}

/// Turns raw names into identifiers, and keeps them apart by counting each name.
pub struct Sanitizer {
    names: Vec<String>,
    marks: Vec<u64>,
    counts: Ghost<Map<Seq<char>, nat>>,
}

impl Sanitizer {
    /// What was handed out so far: for each canonical name, how many times.
    pub closed spec fn registry(&self) -> Map<Seq<char>, nat> {
        self.counts@
    }

    pub closed spec fn wf(&self) -> bool {
        &&& self.names@.len() == self.marks@.len()
        &&& forall|j: int| 0 <= j < self.names@.len() ==>
            #[trigger] self.counts@.contains_key(self.names@[j]@)
                && self.counts@[self.names@[j]@] == self.marks@[j] as nat
        &&& forall|k: Seq<char>| #[trigger] self.counts@.contains_key(k) ==>
            exists|j: int| 0 <= j < self.names@.len() && self.names@[j]@ == k
        &&& forall|j: int, l: int| 0 <= j < l < self.names@.len() ==>
            self.names@[j]@ != self.names@[l]@
    }

    pub fn new() -> (r: Sanitizer)
        ensures
            r.wf(),
            r.registry() == Map::<Seq<char>, nat>::empty(),
    {
        Sanitizer { names: Vec::new(), marks: Vec::new(), counts: Ghost(Map::empty()) }
    }

    fn canonical_name(base: &str) -> (r: String)
        ensures
            r@ == canonical(base@),
    {
        if same_chars(base, "a") {
            String::from_str("link")
        } else if same_chars(base, "div") {
            String::from_str("container")
        } else if same_chars(base, "b") {
            String::from_str("bold")
        } else if same_chars(base, "i") {
            String::from_str("italics")
        } else if same_chars(base, "pre") {
            String::from_str("preformatted")
        } else if same_chars(base, "code") {
            String::from_str("codeBlock")
        } else if same_chars(base, "p") {
            String::from_str("paragraph")
        } else if same_chars(base, "h") {
            String::from_str("heading")
        } else if same_chars(base, "span") {
            String::from_str("textSpan")
        } else {
            let c = Self::camel_case(base);
            if c.unicode_len() == 0 {
                String::from_str("node")
            } else {
                c
            }
        }
    }

    fn camel_case(base: &str) -> (r: String)
        ensures
            r@ == camel(base@),
    {
        let n = base.unicode_len();
        let mut out = String::new();
        let mut pending = false;
        let mut i: usize = 0;
        assert(base@.skip(0) =~= base@);
        assert(out@ =~= Seq::<char>::empty());
        while i < n
            invariant
                n == base@.len(),
                i <= n,
                out@ + camel_from(base@.skip(i as int), pending, out@.len() > 0) == camel(base@),
            decreases n - i,
        {
            let c = base.get_char(i);
            proof {
                assert(base@.skip(i as int).skip(1) =~= base@.skip(i + 1));
                assert(base@.skip(i as int)[0] == c);
            }
            if c == '_' || c == '-' {
                pending = true;
            } else {
                let started = out.unicode_len() > 0;
                let k = if pending && started && 'a' <= c && c <= 'z' {
                    ((c as u8) - 32) as char
                } else {
                    c
                };
                assert(k == (if pending && started { ascii_upper(c) } else { c }));
                push_char(&mut out, k);
                pending = false;
                assert(out@ + camel_from(base@.skip(i + 1), pending, out@.len() > 0)
                    =~= camel(base@));
            }
            i = i + 1;
        }
        assert(out@ + camel_from(base@.skip(n as int), pending, out@.len() > 0) =~= out@);
        out
    }

    /// Hands out the identifier for `base`: its canonical name the first time,
    /// with the count of uses appended after that.
    pub fn sanitize_name(&mut self, base: &str) -> (r: String)
        requires
            old(self).wf(),
            mark_of(old(self).registry(), canonical(base@)) < u64::MAX,
        ensures
            final(self).wf(),
            r@ == identifier(old(self).registry(), base@),
            final(self).registry() == registered(old(self).registry(), base@),
    {
        let name = Self::canonical_name(base);
        let mut j: usize = 0;
        while j < self.names.len()
            invariant
                self.wf(),
                j <= self.names@.len(),
                forall|l: int| 0 <= l < j ==> self.names@[l]@ != name@,
            ensures
                j <= self.names@.len(),
                forall|l: int| 0 <= l < j ==> self.names@[l]@ != name@,
                j < self.names@.len() ==> self.names@[j as int]@ == name@,
            decreases self.names@.len() - j,
        {
            if self.names[j] == name {
                break;
            }
            j = j + 1;
        }
        let ghost names0 = self.names@;
        let ghost counts0 = self.counts@;
        let ghost marks0 = self.marks@;
        let mark: u64;
        if j < self.names.len() {
            assert(self.counts@.contains_key(self.names@[j as int]@));
            mark = self.marks[j] + 1;
            self.marks.set(j, mark);
        } else {
            assert(!self.counts@.contains_key(name@));
            mark = 1;
            let copy = name.clone();
            self.names.push(copy);
            self.marks.push(mark);
        }
        self.counts = Ghost(self.counts@.insert(name@, mark as nat));
        proof {
            assert(self.names@.len() == self.marks@.len());
            assert forall|l: int| 0 <= l < self.names@.len() implies
                #[trigger] self.counts@.contains_key(self.names@[l]@)
                    && self.counts@[self.names@[l]@] == self.marks@[l] as nat by {
                if l < names0.len() && l != j {
                    assert(self.names@[l] == names0[l]);
                    assert(self.marks@[l] == marks0[l]);
                    assert(counts0.contains_key(names0[l]@));
                    assert(names0[l]@ != names0[j as int]@ || j == names0.len());
                } else {
                    assert(l == j);
                    assert(self.names@[l]@ == name@);
                }
            }
            assert forall|k: Seq<char>| #[trigger] self.counts@.contains_key(k) implies
                exists|l: int| 0 <= l < self.names@.len() && self.names@[l]@ == k by {
                if k == name@ {
                    assert(self.names@[j as int]@ == k);
                } else {
                    assert(counts0.contains_key(k));
                    let l = choose|l: int| 0 <= l < names0.len() && names0[l]@ == k;
                    assert(self.names@[l] == names0[l]);
                }
            }
            assert forall|a: int, b: int| 0 <= a < b < self.names@.len() implies
                self.names@[a]@ != self.names@[b]@ by {
                if b < names0.len() {
                    assert(self.names@[a] == names0[a]);
                    assert(self.names@[b] == names0[b]);
                } else {
                    assert(self.names@[a] == names0[a]);
                }
            }
        }
        assert(self.wf());
        if mark == 1 {
            name
        } else {
            let mut r = name;
            push_decimal(&mut r, mark);
            r
        }
    }

    /// `base` written so that it can stand between single quotes.
    pub fn sanitize_text(&self, base: &str) -> (r: String)
        ensures
            r@ == escape(base@),
    {
        let mut r = String::new();
        push_escaped(&mut r, base);
        r
    }
}

}
