//! Origin Guard: decides, from immutable configuration, whether a declared
//! connection origin is allowed to upgrade.
//!
//! The allowlist is configured from one raw comma-separated string. An entry
//! that already carries an `http://` or `https://` scheme must equal the
//! origin case-insensitively; a bare host matches the origin against both
//! scheme forms, case-insensitively.

use vstd::prelude::*;

verus! {

/// ASCII whitespace, as trimmed from configuration entries.
pub open spec fn is_space(b: u8) -> bool {
    b == 0x20 || (0x09 <= b && b <= 0x0d)
}

/// ASCII lower-casing of one byte.
pub open spec fn lower(b: u8) -> u8 {
    if 0x41 <= b && b <= 0x5a {
        (b + 0x20) as u8
    } else {
        b
    }
}

/// ASCII case-insensitive equality of byte strings.
pub open spec fn eq_ci(a: Seq<u8>, b: Seq<u8>) -> bool {
    a.len() == b.len() && (forall|i: int| 0 <= i < a.len() ==> lower(a[i]) == lower(#[trigger] b[i]))
}

/// The bytes of `"http://"`.
pub open spec fn http_prefix() -> Seq<u8> {
    seq![0x68u8, 0x74, 0x74, 0x70, 0x3a, 0x2f, 0x2f]
}

/// The bytes of `"https://"`.
pub open spec fn https_prefix() -> Seq<u8> {
    seq![0x68u8, 0x74, 0x74, 0x70, 0x73, 0x3a, 0x2f, 0x2f]
}

/// Whether an allowlist entry already carries a scheme of its own.
pub open spec fn has_scheme(e: Seq<u8>) -> bool {
    ||| (e.len() >= 7 && e.subrange(0, 7) == http_prefix())
    ||| (e.len() >= 8 && e.subrange(0, 8) == https_prefix())
}

/// Whether an origin matches one allowlist entry: scheme-and-host exactly
/// when the entry has a scheme, else the bare host under either scheme;
/// case-insensitive either way.
pub open spec fn entry_matches(origin: Seq<u8>, e: Seq<u8>) -> bool {
    if has_scheme(e) {
        eq_ci(origin, e)
    } else {
        eq_ci(origin, https_prefix() + e) || eq_ci(origin, http_prefix() + e)
    }
}

/// First index in `[i, hi]` that is `hi` or holds a non-space byte.
pub open spec fn skip_sp(s: Seq<u8>, i: int, hi: int) -> int
    decreases hi - i,
{
    if i < hi && 0 <= i < s.len() && is_space(s[i]) {
        skip_sp(s, i + 1, hi)
    } else {
        i
    }
}

/// Last index in `[lo, j]` that is `lo` or has a non-space byte before it.
pub open spec fn back_sp(s: Seq<u8>, lo: int, j: int) -> int
    decreases j - lo,
{
    if lo < j && 0 <= j - 1 < s.len() && is_space(s[j - 1]) {
        back_sp(s, lo, j - 1)
    } else {
        j
    }
}

/// `s[lo..hi]` with surrounding ASCII whitespace removed.
pub open spec fn trimmed(s: Seq<u8>, lo: int, hi: int) -> Seq<u8> {
    let a = skip_sp(s, lo, hi);
    let b = back_sp(s, a, hi);
    s.subrange(a, b)
}

/// First index in `[i, hi]` that is `hi` or holds a comma.
pub open spec fn comma_at(s: Seq<u8>, i: int, hi: int) -> int
    decreases hi - i,
{
    if i < hi && 0 <= i < s.len() && s[i] != 0x2c {
        comma_at(s, i + 1, hi)
    } else {
        i
    }
}

/// The allowlist entries of `s[i..hi]`: split on commas, each piece trimmed,
/// empty pieces dropped.
pub open spec fn entries_between(s: Seq<u8>, i: int, hi: int) -> Seq<Seq<u8>>
    decreases hi - i,
{
    let c = comma_at(s, i, hi);
    let piece = trimmed(s, i, c);
    let head: Seq<Seq<u8>> = if piece.len() > 0 {
        seq![piece]
    } else {
        Seq::empty()
    };
    if i <= c && c < hi {
        head + entries_between(s, c + 1, hi)
    } else {
        head
    }
}

/// The whole configuration string trimmed.
pub open spec fn config_trim(s: Seq<u8>) -> Seq<u8> {
    trimmed(s, 0, s.len() as int)
}

/// The allowlist that a raw configuration string denotes: empty when the
/// string trims to nothing or to `"*"` (allow all), else its split entries.
pub open spec fn config_entries(s: Seq<u8>) -> Seq<Seq<u8>> {
    let a = skip_sp(s, 0, s.len() as int);
    let b = back_sp(s, a, s.len() as int);
    if b <= a || s.subrange(a, b) == seq![0x2au8] {
        Seq::empty()
    } else {
        entries_between(s, a, b)
    }
}

/// Whether a raw configuration string denotes allow-all: it trims to
/// nothing or to `"*"`, or every piece between commas is blank.
pub open spec fn config_allows_all(s: Seq<u8>) -> bool {
    config_entries(s).len() == 0
}

/// The byte-string value of an optional origin header.
pub open spec fn opt_bytes(origin: Option<&Vec<u8>>) -> Option<Seq<u8>> {
    match origin {
        Option::None => None,
        Option::Some(o) => Some(o@),
    }
}

/// The byte-string values of a sequence of byte vectors.
pub open spec fn byte_views(vs: Seq<Vec<u8>>) -> Seq<Seq<u8>> {
    Seq::new(vs.len(), |i: int| vs[i]@)
}

/// Immutable allowlist configuration, shared read-only by every
/// connection-accept check.
#[derive(Clone)]
pub struct AllowedOrigins {
    allow_all: bool,
    list: Vec<Vec<u8>>,
}

impl AllowedOrigins {
    /// The configured entries, as byte strings.
    pub closed spec fn entries(&self) -> Seq<Seq<u8>> {
        byte_views(self.list@)
    }

    /// Whether every origin (and absence of one) is accepted.
    pub closed spec fn spec_allow_all(&self) -> bool {
        self.allow_all
    }

    /// What `is_allowed` decides: allow-all accepts everything; otherwise a
    /// missing origin is refused and a present one must match some entry.
    pub open spec fn allows(&self, origin: Option<Seq<u8>>) -> bool {
        ||| self.spec_allow_all()
        ||| match origin {
            Option::None => false,
            Option::Some(o) => exists|i: int|
                0 <= i < self.entries().len() && entry_matches(o, #[trigger] self.entries()[i]),
        }
    }
}

/// ASCII lower-casing of one byte.
fn byte_lower(b: u8) -> (r: u8)
    ensures
        r == lower(b),
{
    if 0x41 <= b && b <= 0x5a {
        b + 0x20
    } else {
        b
    }
}

/// Case-insensitive comparison of `o` against the concatenation `p + e`.
fn eq_ci_concat(o: &Vec<u8>, p: &Vec<u8>, e: &Vec<u8>) -> (r: bool)
    ensures
        r == eq_ci(o@, p@ + e@),
{
    if o.len() < p.len() || o.len() - p.len() != e.len() {
        return false;
    }
    let mut i: usize = 0;
    while i < o.len()
        invariant
            o@.len() == p@.len() + e@.len(),
            i <= o@.len(),
            forall|k: int| 0 <= k < i ==> lower(o@[k]) == lower(#[trigger] (p@ + e@)[k]),
        decreases o@.len() - i,
    {
        let expect: u8 = if i < p.len() {
            p[i]
        } else {
            e[i - p.len()]
        };
        assert(expect == (p@ + e@)[i as int]);
        if byte_lower(o[i]) != byte_lower(expect) {
            return false;
        }
        i = i + 1;
    }
    true
}

/// Case-insensitive equality of two byte strings.
fn eq_ci_exec(a: &Vec<u8>, b: &Vec<u8>) -> (r: bool)
    ensures
        r == eq_ci(a@, b@),
{
    if a.len() != b.len() {
        return false;
    }
    let mut i: usize = 0;
    while i < a.len()
        invariant
            a@.len() == b@.len(),
            i <= a@.len(),
            forall|k: int| 0 <= k < i ==> lower(a@[k]) == lower(#[trigger] b@[k]),
        decreases a@.len() - i,
    {
        if byte_lower(a[i]) != byte_lower(b[i]) {
            return false;
        }
        i = i + 1;
    }
    true
}

/// The bytes of `"http://"`.
fn http_prefix_vec() -> (r: Vec<u8>)
    ensures
        r@ == http_prefix(),
{
    let mut v: Vec<u8> = Vec::new();
    v.push(0x68);
    v.push(0x74);
    v.push(0x74);
    v.push(0x70);
    v.push(0x3a);
    v.push(0x2f);
    v.push(0x2f);
    proof {
        assert(v@ =~= http_prefix());
    }
    v
}

/// The bytes of `"https://"`.
fn https_prefix_vec() -> (r: Vec<u8>)
    ensures
        r@ == https_prefix(),
{
    let mut v: Vec<u8> = Vec::new();
    v.push(0x68);
    v.push(0x74);
    v.push(0x74);
    v.push(0x70);
    v.push(0x73);
    v.push(0x3a);
    v.push(0x2f);
    v.push(0x2f);
    proof {
        assert(v@ =~= https_prefix());
    }
    v
}

/// Whether `e` starts with the bytes of `p` (case-sensitive).
fn starts_with(e: &Vec<u8>, p: &Vec<u8>) -> (r: bool)
    ensures
        r == (e@.len() >= p@.len() && e@.subrange(0, p@.len() as int) == p@),
{
    if e.len() < p.len() {
        return false;
    }
    let mut i: usize = 0;
    while i < p.len()
        invariant
            e@.len() >= p@.len(),
            i <= p@.len(),
            forall|k: int| 0 <= k < i ==> e@[k] == #[trigger] p@[k],
        decreases p@.len() - i,
    {
        if e[i] != p[i] {
            assert(e@.subrange(0, p@.len() as int)[i as int] != p@[i as int]);
            return false;
        }
        i = i + 1;
    }
    proof {
        assert(e@.subrange(0, p@.len() as int) =~= p@);
    }
    true
}

/// Whether an origin matches one allowlist entry.
fn entry_matches_exec(origin: &Vec<u8>, e: &Vec<u8>) -> (r: bool)
    ensures
        r == entry_matches(origin@, e@),
{
    let http = http_prefix_vec();
    let https = https_prefix_vec();
    if starts_with(e, &http) || starts_with(e, &https) {
        eq_ci_exec(origin, e)
    } else {
        eq_ci_concat(origin, &https, e) || eq_ci_concat(origin, &http, e)
    }
}

/// First index in `[i, hi]` that is `hi` or holds a non-space byte.
fn skip_sp_exec(s: &Vec<u8>, i: usize, hi: usize) -> (r: usize)
    requires
        i <= hi <= s@.len(),
    ensures
        r == skip_sp(s@, i as int, hi as int),
        i <= r <= hi,
    decreases hi - i,
{
    if i < hi && (s[i] == 0x20 || (0x09 <= s[i] && s[i] <= 0x0d)) {
        skip_sp_exec(s, i + 1, hi)
    } else {
        i
    }
}

/// Last index in `[lo, j]` that is `lo` or has a non-space byte before it.
fn back_sp_exec(s: &Vec<u8>, lo: usize, j: usize) -> (r: usize)
    requires
        lo <= j <= s@.len(),
    ensures
        r == back_sp(s@, lo as int, j as int),
        lo <= r <= j,
    decreases j - lo,
{
    if lo < j && (s[j - 1] == 0x20 || (0x09 <= s[j - 1] && s[j - 1] <= 0x0d)) {
        back_sp_exec(s, lo, j - 1)
    } else {
        j
    }
}

/// First index in `[i, hi]` that is `hi` or holds a comma.
fn comma_exec(s: &Vec<u8>, i: usize, hi: usize) -> (r: usize)
    requires
        i <= hi <= s@.len(),
    ensures
        r == comma_at(s@, i as int, hi as int),
        i <= r <= hi,
    decreases hi - i,
{
    if i < hi && s[i] != 0x2c {
        comma_exec(s, i + 1, hi)
    } else {
        i
    }
}

/// The bytes `s[a..b]` as a fresh vector.
fn subvec(s: &Vec<u8>, a: usize, b: usize) -> (r: Vec<u8>)
    requires
        a <= b <= s@.len(),
    ensures
        r@ == s@.subrange(a as int, b as int),
{
    let mut out: Vec<u8> = Vec::new();
    let mut i: usize = a;
    while i < b
        invariant
            a <= i <= b <= s@.len(),
            out@ == s@.subrange(a as int, i as int),
        decreases b - i,
    {
        out.push(s[i]);
        i = i + 1;
        proof {
            assert(out@ =~= s@.subrange(a as int, i as int));
        }
    }
    out
}

/// Appends to `out` the trimmed non-empty pieces of `s[i..hi]` split on
/// commas.
fn split_between_exec(s: &Vec<u8>, i: usize, hi: usize, out: &mut Vec<Vec<u8>>)
    requires
        i <= hi <= s@.len(),
    ensures
        byte_views(final(out)@) == byte_views(old(out)@) + entries_between(
            s@,
            i as int,
            hi as int,
        ),
    decreases hi - i,
{
    let c = comma_exec(s, i, hi);
    let pa = skip_sp_exec(s, i, c);
    let pb = back_sp_exec(s, pa, c);
    let ghost out0 = out@;
    if pb > pa {
        let piece = subvec(s, pa, pb);
        out.push(piece);
        proof {
            assert(byte_views(out@) =~= byte_views(out0) + seq![trimmed(s@, i as int, c as int)]);
        }
    } else {
        proof {
            assert(trimmed(s@, i as int, c as int).len() == 0);
            assert(byte_views(out@) =~= byte_views(out0) + Seq::<Seq<u8>>::empty());
        }
    }
    if c < hi {
        split_between_exec(s, c + 1, hi, out);
    }
    proof {
        assert(byte_views(out@) =~= byte_views(old(out)@) + entries_between(
            s@,
            i as int,
            hi as int,
        ));
    }
}

impl AllowedOrigins {
    /// An allowlist that accepts every origin.
    pub fn allow_all() -> (r: AllowedOrigins)
        ensures
            r.spec_allow_all(),
            r.entries() =~= Seq::<Seq<u8>>::empty(),
    {
        AllowedOrigins { allow_all: true, list: Vec::new() }
    }

    /// Builds the allowlist that a raw comma-separated configuration string
    /// denotes: allow-all when it trims to nothing or to `"*"`, or when every
    /// piece between commas is blank; otherwise the trimmed non-empty pieces.
    pub fn from_config(raw: &Vec<u8>) -> (r: AllowedOrigins)
        ensures
            r.entries() == config_entries(raw@),
            r.spec_allow_all() == config_allows_all(raw@),
    {
        let n = raw.len();
        let a = skip_sp_exec(raw, 0, n);
        let b = back_sp_exec(raw, a, n);
        if a == b {
            let r = AllowedOrigins { allow_all: true, list: Vec::new() };
            proof {
                assert(r.entries() =~= config_entries(raw@));
            }
            return r;
        }
        if b - a == 1 && raw[a] == 0x2a {
            proof {
                assert(raw@.subrange(a as int, b as int) =~= seq![0x2au8]);
            }
            let r = AllowedOrigins { allow_all: true, list: Vec::new() };
            proof {
                assert(r.entries() =~= config_entries(raw@));
            }
            return r;
        }
        proof {
            assert(raw@.subrange(a as int, b as int) != seq![0x2au8]) by {
                if raw@.subrange(a as int, b as int) == seq![0x2au8] {
                    assert(raw@.subrange(a as int, b as int).len() == 1);
                    assert(raw@.subrange(a as int, b as int)[0] == 0x2au8);
                }
            }
        }
        let mut list: Vec<Vec<u8>> = Vec::new();
        split_between_exec(raw, a, b, &mut list);
        let allow_all = list.len() == 0;
        let r = AllowedOrigins { allow_all, list };
        proof {
            assert(byte_views(Seq::<Vec<u8>>::empty()) =~= Seq::<Seq<u8>>::empty());
            assert(r.entries() == config_entries(raw@));
            assert(r.entries().len() == list@.len());
        }
        r
    }

    /// Whether a connection declaring `origin` may be upgraded.
    pub fn is_allowed(&self, origin: Option<&Vec<u8>>) -> (r: bool)
        ensures
            r == self.allows(opt_bytes(origin)),
    {
        if self.allow_all {
            return true;
        }
        let o = match origin {
            Option::None => {
                return false;
            },
            Option::Some(o) => o,
        };
        assert(opt_bytes(origin) == Some(o@));
        let mut i: usize = 0;
        while i < self.list.len()
            invariant
                i <= self.list@.len(),
                !self.allow_all,
                opt_bytes(origin) == Some(o@),
                forall|k: int| 0 <= k < i ==> !entry_matches(o@, #[trigger] self.entries()[k]),
            decreases self.list@.len() - i,
        {
            if entry_matches_exec(o, &self.list[i]) {
                proof {
                    let k = i as int;
                    assert(self.entries()[k] == self.list@[k]@);
                    assert(0 <= k < self.entries().len() && entry_matches(
                        o@,
                        self.entries()[k],
                    ));
                    assert(self.allows(Some(o@)));
                }
                return true;
            }
            i = i + 1;
        }
        false
    }
}

} // verus!
