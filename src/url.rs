use vstd::prelude::*;

use crate::text::{chars_of, string_of};

verus! {

/// ASCII lower case of one character.
pub open spec fn lower_char(c: char) -> char {
    if 'A' <= c && c <= 'Z' {
        ((c as u8) + 32) as char
    } else {
        c
    }
}

pub open spec fn lower_seq(s: Seq<char>) -> Seq<char> {
    s.map_values(|c: char| lower_char(c))
}

/// Characters at which a scan stops.
pub enum Stop {
    /// `#`, where a fragment starts.
    Fragment,
    /// `/` or `?`, where the authority ends.
    PathStart,
    /// `:`, where a port starts.
    Port,
    /// `?`, where a query starts.
    Query,
}

pub open spec fn stops_at(stop: Stop, c: char) -> bool {
    match stop {
        Stop::Fragment => c == '#',
        Stop::PathStart => c == '/' || c == '?',
        Stop::Port => c == ':',
        Stop::Query => c == '?',
    }
}

/// Index of the first stop character at or after `i`, or the length.
pub open spec fn scan(s: Seq<char>, i: int, stop: Stop) -> int
    decreases s.len() - i,
{
    if i < 0 || i >= s.len() {
        s.len() as int
    } else if stops_at(stop, s[i]) {
        i
    } else {
        scan(s, i + 1, stop)
    }
}

/// Index of the first `://`, or -1.
pub open spec fn scheme_sep_from(s: Seq<char>, i: int) -> int
    decreases s.len() - i,
{
    if i < 0 || i + 3 > s.len() {
        -1
    } else if s[i] == ':' && s[i + 1] == '/' && s[i + 2] == '/' {
        i
    } else {
        scheme_sep_from(s, i + 1)
    }
}

pub open spec fn scheme_sep(s: Seq<char>) -> int {
    scheme_sep_from(s, 0)
}

pub open spec fn ends_with(s: Seq<char>, p: Seq<char>) -> bool {
    p.len() <= s.len() && s.subrange(s.len() - p.len(), s.len() as int) == p
}

/// The authority without the port that is the default for the scheme.
pub open spec fn strip_default_port(scheme: Seq<char>, auth: Seq<char>) -> Seq<char> {
    if scheme == seq!['h', 't', 't', 'p'] && ends_with(auth, seq![':', '8', '0']) {
        auth.subrange(0, auth.len() - 3)
    } else if scheme == seq!['h', 't', 't', 'p', 's'] && ends_with(auth, seq![':', '4', '4', '3']) {
        auth.subrange(0, auth.len() - 4)
    } else {
        auth
    }
}

/// A path without a query loses one trailing slash.
pub open spec fn strip_trailing_slash(rest: Seq<char>) -> Seq<char> {
    if scan(rest, 0, Stop::Query) == rest.len() && rest.len() > 0 && rest.last() == '/' {
        rest.drop_last()
    } else {
        rest
    }
}

/// The identity of a result URL: the fragment is dropped; scheme and host
/// are lower-cased; the scheme's default port and a trailing slash on a path
/// without a query are dropped; path and query keep their case.
pub open spec fn normalize(url: Seq<char>) -> Seq<char> {
    let f = url.subrange(0, scan(url, 0, Stop::Fragment));
    let sep = scheme_sep(f);
    if sep < 0 {
        f
    } else {
        let scheme = lower_seq(f.subrange(0, sep));
        let a1 = scan(f, sep + 3, Stop::PathStart);
        let auth = strip_default_port(scheme, lower_seq(f.subrange(sep + 3, a1)));
        scheme + seq![':', '/', '/'] + auth + strip_trailing_slash(f.subrange(a1, f.len() as int))
    }
}

/// Index just after the last `@` among the first `i` characters, or 0.
pub open spec fn after_last_at(s: Seq<char>, i: int) -> int
    decreases i,
{
    if i <= 0 || i > s.len() {
        0
    } else if s[i - 1] == '@' {
        i
    } else {
        after_last_at(s, i - 1)
    }
}

/// The host of a URL: its authority without user information (up to the
/// last `@`) and without a port; empty without a scheme.
pub open spec fn host_of(url: Seq<char>) -> Seq<char> {
    let sep = scheme_sep(url);
    if sep < 0 {
        Seq::empty()
    } else {
        let auth = url.subrange(sep + 3, scan(url, sep + 3, Stop::PathStart));
        let hp = auth.subrange(after_last_at(auth, auth.len() as int), auth.len() as int);
        hp.subrange(0, scan(hp, 0, Stop::Port))
    }
}

fn after_last_at_exec(s: &Vec<char>) -> (r: usize)
    ensures
        r as int == after_last_at(s@, s@.len() as int),
        r <= s@.len(),
{
    let mut i = s.len();
    while i > 0
        invariant
            i <= s@.len(),
            after_last_at(s@, i as int) == after_last_at(s@, s@.len() as int),
        decreases i,
    {
        if s[i - 1] == '@' {
            return i;
        }
        i = i - 1;
    }
    0
}

/// A host is blocked by a domain that it equals or that it is a subdomain
/// of, ignoring ASCII case (hosts are lower-cased by `normalize`).
pub open spec fn blocked_by(host: Seq<char>, domain: Seq<char>) -> bool {
    host == lower_seq(domain) || ends_with(host, seq!['.'] + lower_seq(domain))
}

pub open spec fn is_blocked(host: Seq<char>, domains: Seq<String>) -> bool {
    exists|k: int| 0 <= k < domains.len() && blocked_by(host, #[trigger] domains[k]@)
}

/// The normalised host of a result URL is blocked.
pub open spec fn url_blocked(url: Seq<char>, domains: Seq<String>) -> bool {
    is_blocked(host_of(normalize(url)), domains)
}

fn stops(stop: &Stop, c: char) -> (r: bool)
    ensures
        r == stops_at(*stop, c),
{
    match stop {
        Stop::Fragment => c == '#',
        Stop::PathStart => c == '/' || c == '?',
        Stop::Port => c == ':',
        Stop::Query => c == '?',
    }
}

fn scan_exec(s: &Vec<char>, i: usize, stop: Stop) -> (r: usize)
    requires
        i <= s@.len(),
    ensures
        r as int == scan(s@, i as int, stop),
        i <= r <= s@.len(),
{
    let mut k = i;
    while k < s.len()
        invariant
            i <= k <= s@.len(),
            scan(s@, k as int, stop) == scan(s@, i as int, stop),
        decreases s@.len() - k,
    {
        if stops(&stop, s[k]) {
            return k;
        }
        k = k + 1;
    }
    k
}

fn scheme_sep_exec(s: &Vec<char>) -> (r: Option<usize>)
    ensures
        match r {
            Some(i) => i as int == scheme_sep(s@) && i + 3 <= s@.len() <= usize::MAX,
            None => scheme_sep(s@) == -1,
        },
{
    let n = s.len();
    let mut k: usize = 0;
    while k < n && n - k >= 3
        invariant
            n == s@.len(),
            k <= s@.len(),
            scheme_sep_from(s@, k as int) == scheme_sep(s@),
        decreases s@.len() - k,
    {
        if s[k] == ':' && s[k + 1] == '/' && s[k + 2] == '/' {
            return Some(k);
        }
        k = k + 1;
    }
    None
}

fn lower_exec(c: char) -> (r: char)
    ensures
        r == lower_char(c),
{
    if 'A' <= c && c <= 'Z' {
        ((c as u8) + 32) as char
    } else {
        c
    }
}

/// Appends `s[a..b]`, lower-cased or not, to `out`.
pub(crate) fn push_range(out: &mut Vec<char>, s: &Vec<char>, a: usize, b: usize, lower: bool)
    requires
        a <= b <= s@.len(),
    ensures
        final(out)@ == old(out)@ + if lower {
            lower_seq(s@.subrange(a as int, b as int))
        } else {
            s@.subrange(a as int, b as int)
        },
{
    let ghost start = out@;
    let mut k = a;
    while k < b
        invariant
            a <= k <= b <= s@.len(),
            out@ == start + if lower {
                lower_seq(s@.subrange(a as int, k as int))
            } else {
                s@.subrange(a as int, k as int)
            },
        decreases b - k,
    {
        let c = s[k];
        if lower {
            out.push(lower_exec(c));
        } else {
            out.push(c);
        }
        assert(s@.subrange(a as int, k + 1) == s@.subrange(a as int, k as int).push(s@[k as int]));
        assert(lower_seq(s@.subrange(a as int, k + 1)) =~= lower_seq(
            s@.subrange(a as int, k as int),
        ).push(lower_char(s@[k as int])));
        k = k + 1;
    }
}

pub(crate) fn seq_eq(a: &Vec<char>, b: &Vec<char>) -> (r: bool)
    ensures
        r == (a@ == b@),
{
    if a.len() != b.len() {
        return false;
    }
    let mut i: usize = 0;
    while i < a.len()
        invariant
            a@.len() == b@.len(),
            i <= a@.len(),
            a@.subrange(0, i as int) == b@.subrange(0, i as int),
        decreases a@.len() - i,
    {
        if a[i] != b[i] {
            return false;
        }
        assert(a@.subrange(0, i + 1) == a@.subrange(0, i as int).push(a@[i as int]));
        assert(b@.subrange(0, i + 1) == b@.subrange(0, i as int).push(b@[i as int]));
        i = i + 1;
    }
    assert(a@ == a@.subrange(0, a@.len() as int));
    assert(b@ == b@.subrange(0, b@.len() as int));
    true
}

fn ends_with_exec(s: &Vec<char>, p: &Vec<char>) -> (r: bool)
    ensures
        r == ends_with(s@, p@),
{
    if p.len() > s.len() {
        return false;
    }
    let mut tail: Vec<char> = Vec::new();
    push_range(&mut tail, s, s.len() - p.len(), s.len(), false);
    assert(tail@ == s@.subrange(s@.len() - p@.len(), s@.len() as int));
    seq_eq(&tail, p)
}

fn strip_default_port_exec(scheme: &Vec<char>, auth: Vec<char>) -> (r: Vec<char>)
    ensures
        r@ == strip_default_port(scheme@, auth@),
{
    let http = vec!['h', 't', 't', 'p'];
    let https = vec!['h', 't', 't', 'p', 's'];
    let p80 = vec![':', '8', '0'];
    let p443 = vec![':', '4', '4', '3'];
    assert(http@ == seq!['h', 't', 't', 'p']);
    assert(https@ == seq!['h', 't', 't', 'p', 's']);
    assert(p80@ == seq![':', '8', '0']);
    assert(p443@ == seq![':', '4', '4', '3']);
    if seq_eq(scheme, &http) && ends_with_exec(&auth, &p80) {
        let mut r: Vec<char> = Vec::new();
        push_range(&mut r, &auth, 0, auth.len() - 3, false);
        r
    } else if seq_eq(scheme, &https) && ends_with_exec(&auth, &p443) {
        let mut r: Vec<char> = Vec::new();
        push_range(&mut r, &auth, 0, auth.len() - 4, false);
        r
    } else {
        auth
    }
}

fn strip_trailing_slash_exec(rest: Vec<char>) -> (r: Vec<char>)
    ensures
        r@ == strip_trailing_slash(rest@),
{
    let q = scan_exec(&rest, 0, Stop::Query);
    if q == rest.len() && rest.len() > 0 && rest[rest.len() - 1] == '/' {
        let mut r = rest;
        r.pop();
        assert(r@ == rest@.drop_last());
        r
    } else {
        rest
    }
}

/// The normalised form of a URL, as characters.
pub fn normalize_chars(url: &Vec<char>) -> (r: Vec<char>)
    ensures
        r@ == normalize(url@),
{
    let fe = scan_exec(url, 0, Stop::Fragment);
    let mut f: Vec<char> = Vec::new();
    push_range(&mut f, url, 0, fe, false);
    assert(f@ == url@.subrange(0, fe as int));
    match scheme_sep_exec(&f) {
        None => f,
        Some(sep) => {
            let mut scheme: Vec<char> = Vec::new();
            push_range(&mut scheme, &f, 0, sep, true);
            let a1 = scan_exec(&f, sep + 3, Stop::PathStart);
            let mut auth: Vec<char> = Vec::new();
            push_range(&mut auth, &f, sep + 3, a1, true);
            let auth = strip_default_port_exec(&scheme, auth);
            let mut rest: Vec<char> = Vec::new();
            push_range(&mut rest, &f, a1, f.len(), false);
            let mut rest = strip_trailing_slash_exec(rest);
            let mut r = scheme;
            r.push(':');
            r.push('/');
            r.push('/');
            let mut auth = auth;
            r.append(&mut auth);
            r.append(&mut rest);
            assert(r@ =~= normalize(url@));
            r
        },
    }
}

/// The normalised form of a URL, the identity under which results merge.
pub fn normalize_url(url: &str) -> (r: String)
    ensures
        r@ == normalize(url@),
{
    let v = chars_of(url);
    let n = normalize_chars(&v);
    string_of(&n)
}

/// The host of a URL (see `host_of`).
pub fn host_chars(url: &Vec<char>) -> (r: Vec<char>)
    ensures
        r@ == host_of(url@),
{
    match scheme_sep_exec(url) {
        None => Vec::new(),
        Some(sep) => {
            let a1 = scan_exec(url, sep + 3, Stop::PathStart);
            let mut auth: Vec<char> = Vec::new();
            push_range(&mut auth, url, sep + 3, a1, false);
            let at = after_last_at_exec(&auth);
            let mut hp: Vec<char> = Vec::new();
            push_range(&mut hp, &auth, at, auth.len(), false);
            let p = scan_exec(&hp, 0, Stop::Port);
            let mut host: Vec<char> = Vec::new();
            push_range(&mut host, &hp, 0, p, false);
            host
        },
    }
}

/// Whether a host equals a domain or is a subdomain of it.
pub fn host_blocked_by(host: &Vec<char>, domain: &str) -> (r: bool)
    ensures
        r == blocked_by(host@, domain@),
{
    let raw = chars_of(domain);
    let mut d: Vec<char> = Vec::new();
    push_range(&mut d, &raw, 0, raw.len(), true);
    assert(raw@.subrange(0, raw@.len() as int) =~= domain@);
    assert(d@ =~= lower_seq(domain@));
    if seq_eq(host, &d) {
        return true;
    }
    let mut dotted: Vec<char> = vec!['.'];
    let mut d2 = d;
    dotted.append(&mut d2);
    assert(dotted@ =~= seq!['.'] + lower_seq(domain@));
    ends_with_exec(host, &dotted)
}

/// Whether a host is blocked by any of the domains.
pub fn host_blocked(host: &Vec<char>, domains: &Vec<String>) -> (r: bool)
    ensures
        r == is_blocked(host@, domains@),
{
    let mut k: usize = 0;
    while k < domains.len()
        invariant
            k <= domains@.len(),
            forall|j: int| 0 <= j < k ==> !blocked_by(host@, #[trigger] domains@[j]@),
        decreases domains@.len() - k,
    {
        if host_blocked_by(host, domains[k].as_str()) {
            return true;
        }
        k = k + 1;
    }
    false
}

/// Whether the normalised host of a result URL is blocked.
pub fn is_url_blocked(url: &str, domains: &Vec<String>) -> (r: bool)
    ensures
        r == url_blocked(url@, domains@),
{
    let v = chars_of(url);
    let n = normalize_chars(&v);
    let h = host_chars(&n);
    host_blocked(&h, domains)
}

} // verus!
