use vstd::prelude::*;
use vstd::string::*;
use vstd::utf8::{decode_utf8, encode_utf8, valid_utf8};
use base64::Engine as Base64Engine;

use crate::autocomplete::views;
use crate::engine::{Engine, ENGINE_COUNT};
use crate::text::{chars_of, string_of};

verus! {

/// What `BASE64_STANDARD.decode` returns: the bytes, or `None` where the
/// text is not standard, padded base64.
pub uninterp spec fn base64_decoded(text: Seq<char>) -> Option<Seq<u8>>;

/// What `BASE64_STANDARD.encode` returns for the bytes.
pub uninterp spec fn base64_encoded(bytes: Seq<u8>) -> Seq<char>;

/// A character with the Unicode White_Space property, as `char::is_whitespace`
/// documents it.
pub open spec fn is_white_space(c: char) -> bool {
    ||| ('\u{9}' <= c && c <= '\u{d}')
    ||| c == ' '
    ||| c == '\u{85}'
    ||| c == '\u{a0}'
    ||| c == '\u{1680}'
    ||| ('\u{2000}' <= c && c <= '\u{200a}')
    ||| c == '\u{2028}'
    ||| c == '\u{2029}'
    ||| c == '\u{202f}'
    ||| c == '\u{205f}'
    ||| c == '\u{3000}'
}

/// The text without leading white space.
pub open spec fn trim_start(s: Seq<char>) -> Seq<char>
    decreases s.len(),
{
    if s.len() > 0 && is_white_space(s[0]) {
        trim_start(s.drop_first())
    } else {
        s
    }
}

/// The text without trailing white space.
pub open spec fn trim_end(s: Seq<char>) -> Seq<char>
    decreases s.len(),
{
    if s.len() > 0 && is_white_space(s.last()) {
        trim_end(s.drop_last())
    } else {
        s
    }
}

/// The text without leading and trailing white space.
pub open spec fn trimmed(s: Seq<char>) -> Seq<char> {
    trim_end(trim_start(s))
}

/// Relies on `base64::Engine::decode` with the standard alphabet and padding:
/// the decoded bytes, or an error, a function of the text alone.
#[verifier::external_body]
fn decode_base64(text: &str) -> (r: Option<Vec<u8>>)
    ensures
        match r {
            Some(b) => base64_decoded(text@) == Some(b@),
            None => base64_decoded(text@) is None,
        },
{
    base64::prelude::BASE64_STANDARD.decode(text).ok()
}

/// Relies on `base64::Engine::encode` with the standard alphabet and padding;
/// it panics only where the encoded length overflows `usize`, which no text
/// of at most `usize::MAX / 8` characters (four bytes each at most) reaches.
#[verifier::external_body]
fn encode_base64(text: &str) -> (r: String)
    requires
        text@.len() <= usize::MAX / 8,
    ensures
        r@ == base64_encoded(text.spec_bytes()),
{
    base64::prelude::BASE64_STANDARD.encode(text)
}

/// Relies on `std::str::from_utf8`: the text where the bytes are valid UTF-8.
#[verifier::external_body]
fn utf8_text(bytes: &Vec<u8>) -> (r: Option<String>)
    ensures
        match r {
            Some(s) => valid_utf8(bytes@) && s@ == decode_utf8(bytes@),
            None => !valid_utf8(bytes@),
        },
{
    std::str::from_utf8(bytes.as_slice()).ok().map(String::from)
}

fn is_white_space_exec(c: char) -> (r: bool)
    ensures
        r == is_white_space(c),
{
    ('\u{9}' <= c && c <= '\u{d}') || c == ' ' || c == '\u{85}' || c == '\u{a0}' || c
        == '\u{1680}' || ('\u{2000}' <= c && c <= '\u{200a}') || c == '\u{2028}' || c
        == '\u{2029}' || c == '\u{202f}' || c == '\u{205f}' || c == '\u{3000}'
}

/// The text without leading and trailing white space.
fn trim(text: &str) -> (r: String)
    ensures
        r@ == trimmed(text@),
{
    let s = chars_of(text);
    let n = s.len();
    let mut i: usize = 0;
    assert(s@.subrange(0, n as int) =~= s@);
    while i < n && is_white_space_exec(s[i])
        invariant
            n == s@.len(),
            s@ == text@,
            i <= n,
            trim_start(s@.subrange(i as int, n as int)) == trim_start(s@),
        decreases n - i,
    {
        assert(s@.subrange(i as int, n as int).drop_first() =~= s@.subrange(i + 1, n as int));
        i = i + 1;
    }
    assert(trim_start(s@.subrange(i as int, n as int)) == s@.subrange(i as int, n as int));
    let mut j: usize = n;
    while j > i && is_white_space_exec(s[j - 1])
        invariant
            n == s@.len(),
            i <= j <= n,
            trim_end(s@.subrange(i as int, j as int)) == trim_end(s@.subrange(i as int, n as int)),
        decreases j,
    {
        assert(s@.subrange(i as int, j as int).drop_last() =~= s@.subrange(i as int, j - 1));
        j = j - 1;
    }
    assert(trim_end(s@.subrange(i as int, j as int)) == s@.subrange(i as int, j as int));
    let mut out: Vec<char> = Vec::new();
    crate::url::push_range(&mut out, &s, i, j, false);
    string_of(&out)
}

/// The text that a cookie value carries: base64 of UTF-8; anything else
/// reads as the empty text.
pub open spec fn cookie_text(value: Seq<char>) -> Seq<char> {
    match base64_decoded(value) {
        Some(b) => if valid_utf8(b) {
            decode_utf8(b)
        } else {
            Seq::empty()
        },
        None => Seq::empty(),
    }
}

/// The pieces of `s` between separators.
pub open spec fn split(s: Seq<char>, sep: char) -> Seq<Seq<char>>
    decreases s.len(),
{
    if s.len() == 0 {
        seq![Seq::empty()]
    } else if s.last() == sep {
        split(s.drop_last(), sep).push(Seq::empty())
    } else {
        let p = split(s.drop_last(), sep);
        p.update(p.len() - 1, p.last().push(s.last()))
    }
}

/// The pieces, trimmed, without the empty ones.
pub open spec fn clean(pieces: Seq<Seq<char>>) -> Seq<Seq<char>>
    decreases pieces.len(),
{
    if pieces.len() == 0 {
        Seq::empty()
    } else if trimmed(pieces.last()).len() == 0 {
        clean(pieces.drop_last())
    } else {
        clean(pieces.drop_last()).push(trimmed(pieces.last()))
    }
}

/// The comma separated entries of a cookie value.
pub open spec fn cookie_entries(value: Seq<char>) -> Seq<Seq<char>> {
    clean(split(cookie_text(value), ','))
}

/// A blocked-domain cookie over this many bytes is ignored.
pub const BLOCKED_COOKIE_LIMIT: usize = 500000;

pub open spec fn spec_blocked_domains(cookie: Option<Seq<char>>) -> Seq<Seq<char>> {
    match cookie {
        Some(v) => if encode_utf8(v).len() > BLOCKED_COOKIE_LIMIT {
            Seq::empty()
        } else {
            cookie_entries(v)
        },
        None => Seq::empty(),
    }
}

fn split_exec(s: &Vec<char>, sep: char) -> (r: Vec<Vec<char>>)
    ensures
        r@.len() == split(s@, sep).len(),
        forall|k: int| 0 <= k < r@.len() ==> (#[trigger] r@[k])@ == split(s@, sep)[k],
{
    let mut done: Vec<Vec<char>> = Vec::new();
    let mut cur: Vec<char> = Vec::new();
    let mut i: usize = 0;
    while i < s.len()
        invariant
            i <= s@.len(),
            done@.len() + 1 == split(s@.take(i as int), sep).len(),
            forall|k: int| 0 <= k < done@.len() ==> (#[trigger] done@[k])@ == split(s@.take(i as int), sep)[k],
            cur@ == split(s@.take(i as int), sep).last(),
        decreases s@.len() - i,
    {
        proof {
            assert(s@.take(i + 1).drop_last() =~= s@.take(i as int));
        }
        if s[i] == sep {
            let ghost d0 = done@;
            let c = cur;
            done.push(c);
            cur = Vec::new();
            assert forall|k: int| 0 <= k < done@.len() implies (#[trigger] done@[k])@ == split(s@.take(i + 1), sep)[k] by {
                if k < d0.len() {
                    assert(done@[k] == d0[k]);
                }
            }
        } else {
            cur.push(s[i]);
        }
        i = i + 1;
    }
    assert(s@.take(s@.len() as int) =~= s@);
    done.push(cur);
    done
}

/// Trims the pieces and drops the empty ones.
fn clean_exec(pieces: &Vec<Vec<char>>, spec_pieces: Ghost<Seq<Seq<char>>>) -> (r: Vec<String>)
    requires
        pieces@.len() == spec_pieces@.len(),
        forall|k: int| 0 <= k < pieces@.len() ==> (#[trigger] pieces@[k])@ == spec_pieces@[k],
    ensures
        views(r@) == clean(spec_pieces@),
{
    let ghost sp = spec_pieces@;
    let mut out: Vec<String> = Vec::new();
    let mut i: usize = 0;
    assert(views(out@) =~= clean(sp.take(0)));
    while i < pieces.len()
        invariant
            sp == spec_pieces@,
            pieces@.len() == sp.len(),
            forall|k: int| 0 <= k < pieces@.len() ==> (#[trigger] pieces@[k])@ == sp[k],
            i <= pieces@.len(),
            views(out@) == clean(sp.take(i as int)),
        decreases pieces@.len() - i,
    {
        proof {
            assert(sp.take(i + 1).drop_last() =~= sp.take(i as int));
            assert(pieces@[i as int]@ == sp[i as int]);
        }
        let t = trim(string_of(&pieces[i]).as_str());
        if t.unicode_len() > 0 {
            let ghost o0 = out@;
            out.push(t);
            assert(views(out@) =~= views(o0).push(trimmed(sp[i as int])));
        }
        i = i + 1;
    }
    assert(sp.take(sp.len() as int) =~= sp);
    out
}

/// The entries of a cookie value (see `cookie_entries`).
pub fn parse_cookie_entries(value: &str) -> (r: Vec<String>)
    ensures
        views(r@) == cookie_entries(value@),
{
    let text: Vec<char> = match decode_base64(value) {
        Some(bytes) => match utf8_text(&bytes) {
            Some(s) => chars_of(s.as_str()),
            None => Vec::new(),
        },
        None => Vec::new(),
    };
    assert(text@ == cookie_text(value@));
    let pieces = split_exec(&text, ',');
    clean_exec(&pieces, Ghost(split(cookie_text(value@), ',')))
}

/// The blocked domains that a cookie value carries, in order; none where
/// there is no cookie, where it is over the size limit or cannot be read.
pub fn get_blocked_domains(cookie: Option<&str>) -> (r: Vec<String>)
    ensures
        views(r@) == spec_blocked_domains(
            match cookie {
                Some(v) => Some(v@),
                None => None,
            },
        ),
{
    match cookie {
        None => {
            assert(views(Seq::<String>::empty()) =~= Seq::<Seq<char>>::empty());
            Vec::new()
        },
        Some(v) => {
            if v.as_bytes().len() > BLOCKED_COOKIE_LIMIT {
                assert(views(Seq::<String>::empty()) =~= Seq::<Seq<char>>::empty());
                Vec::new()
            } else {
                parse_cookie_entries(v)
            }
        },
    }
}

/// The items joined with a separator.
pub open spec fn join(items: Seq<Seq<char>>, sep: Seq<char>) -> Seq<char>
    decreases items.len(),
{
    if items.len() == 0 {
        Seq::empty()
    } else if items.len() == 1 {
        items[0]
    } else {
        join(items.drop_last(), sep) + sep + items.last()
    }
}

pub(crate) fn join_exec(items: &Vec<String>, sep: &str) -> (r: String)
    ensures
        r@ == join(views(items@), sep@),
{
    let mut out = String::new();
    let mut i: usize = 0;
    while i < items.len()
        invariant
            i <= items@.len(),
            out@ == join(views(items@.take(i as int)), sep@),
        decreases items@.len() - i,
    {
        proof {
            assert(views(items@.take(i + 1)).drop_last() =~= views(items@.take(i as int)));
            assert(views(items@.take(i + 1)).last() == items@[i as int]@);
        }
        if i > 0 {
            out.append(sep);
        } else {
            assert(out@ =~= Seq::<char>::empty());
        }
        out.append(items[i].as_str());
        i = i + 1;
    }
    assert(items@.take(items@.len() as int) =~= items@);
    out
}

/// A cookie assignment, `name=` followed by base64 of the text; the name
/// alone where the text is too long to encode.
pub open spec fn spec_cookie(name: Seq<char>, text: Seq<char>) -> Seq<char> {
    if text.len() <= usize::MAX / 8 {
        name + "="@ + base64_encoded(encode_utf8(text))
    } else {
        name + "="@
    }
}

fn cookie_exec(name: &str, text: &str) -> (r: String)
    ensures
        r@ == spec_cookie(name@, text@),
{
    let mut out = String::from_str(name);
    out.append("=");
    if text.unicode_len() <= usize::MAX / 8 {
        let enc = encode_base64(text);
        out.append(enc.as_str());
    }
    out
}

/// The cookie that stores the blocked domains.
pub fn set_blocked_domains(domains: &Vec<String>) -> (r: String)
    ensures
        r@ == spec_cookie("blocked"@, join(views(domains@), ","@)),
{
    let text = join_exec(domains, ",");
    cookie_exec("blocked", text.as_str())
}

/// One `key=value` entry of the enabled-backends cookie: the text before
/// the first `=`, and whether the text after it, up to a next `=`, is `true`.
pub open spec fn entry_pair(entry: Seq<char>) -> (Seq<char>, bool) {
    let p = split(entry, '=');
    (p[0], p.len() > 1 && p[1] == "true"@)
}

proof fn lemma_split_nonempty(s: Seq<char>, sep: char)
    ensures
        split(s, sep).len() >= 1,
    decreases s.len(),
{
    if s.len() > 0 {
        lemma_split_nonempty(s.drop_last(), sep);
    }
}

/// The value that the last entry with the id gives, if any.
pub open spec fn lookup(entries: Seq<Seq<char>>, id: Seq<char>) -> Option<bool>
    decreases entries.len(),
{
    if entries.len() == 0 {
        None
    } else if entry_pair(entries.last()).0 == id {
        Some(entry_pair(entries.last()).1)
    } else {
        lookup(entries.drop_last(), id)
    }
}

/// Whether a backend is enabled: the cookie's entry for it, else its default.
pub open spec fn resolved(e: Engine, entries: Seq<Seq<char>>) -> bool {
    match lookup(entries, e.spec_id()) {
        Some(b) => b,
        None => e.spec_enabled_by_default(),
    }
}

pub open spec fn spec_enabled_engines(cookie: Option<Seq<char>>) -> Seq<(Engine, bool)> {
    let entries = match cookie {
        Some(v) => cookie_entries(v),
        None => Seq::empty(),
    };
    Engine::spec_all().map_values(|e: Engine| (e, resolved(e, entries)))
}

fn entry_pair_exec(entry: &String) -> (r: (Vec<char>, bool))
    ensures
        r.0@ == entry_pair(entry@).0,
        r.1 == entry_pair(entry@).1,
{
    let mut parts = split_exec(&chars_of(entry.as_str()), '=');
    proof {
        lemma_split_nonempty(entry@, '=');
    }
    let t = chars_of("true");
    let value = parts.len() > 1 && crate::url::seq_eq(&parts[1], &t);
    let key = parts.swap_remove(0);
    (key, value)
}

fn lookup_exec(entries: &Vec<String>, id: &str) -> (r: Option<bool>)
    ensures
        r == lookup(views(entries@), id@),
{
    let idc = chars_of(id);
    let mut i = entries.len();
    assert(entries@.take(i as int) =~= entries@);
    while i > 0
        invariant
            idc@ == id@,
            i <= entries@.len(),
            lookup(views(entries@.take(i as int)), id@) == lookup(views(entries@), id@),
        decreases i,
    {
        let (key, value) = entry_pair_exec(&entries[i - 1]);
        let ghost vs = views(entries@.take(i as int));
        proof {
            assert(vs.len() == i);
            assert(vs.drop_last() =~= views(entries@.take(i - 1)));
            assert(vs.last() == entries@[i - 1]@);
            assert(entry_pair(vs.last()).0 == key@);
            assert(entry_pair(vs.last()).1 == value);
        }
        if crate::url::seq_eq(&key, &idc) {
            assert(key@ == id@);
            assert(lookup(vs, id@) == Some(value));
            return Some(value);
        }
        assert(key@ != id@);
        assert(lookup(views(entries@.take(i as int)), id@) == lookup(views(entries@.take(i - 1)), id@));
        i = i - 1;
    }
    assert(views(entries@.take(0)) =~= Seq::<Seq<char>>::empty());
    assert(entries@.take(entries@.len() as int) =~= entries@);
    None
}

/// The enabled flag of every backend, in registry order: the cookie's
/// entry for the backend where there is one (the last one), else its default.
pub fn get_enabled_search_engines(cookie: Option<&str>) -> (r: Vec<(Engine, bool)>)
    ensures
        r@ == spec_enabled_engines(
            match cookie {
                Some(v) => Some(v@),
                None => None,
            },
        ),
{
    let entries = match cookie {
        Some(v) => parse_cookie_entries(v),
        None => Vec::new(),
    };
    let ghost ev = views(entries@);
    assert(ev =~= match cookie {
        Some(v) => cookie_entries(v@),
        None => Seq::<Seq<char>>::empty(),
    });
    let all = Engine::all();
    let mut out: Vec<(Engine, bool)> = Vec::new();
    let mut k: usize = 0;
    while k < all.len()
        invariant
            all@ == Engine::spec_all(),
            ev == views(entries@),
            k <= all@.len(),
            out@ == all@.take(k as int).map_values(|e: Engine| (e, resolved(e, ev))),
        decreases all@.len() - k,
    {
        let e = all[k];
        let enabled = match lookup_exec(&entries, e.id()) {
            Some(b) => b,
            None => e.is_enabled_by_default(),
        };
        out.push((e, enabled));
        assert(out@ =~= all@.take(k + 1).map_values(|e: Engine| (e, resolved(e, ev))));
        k = k + 1;
    }
    assert(all@.take(all@.len() as int) =~= all@);
    out
}

pub open spec fn flag_text(b: bool) -> Seq<char> {
    if b {
        "true"@
    } else {
        "false"@
    }
}

/// The cookie entries for the flags, `id=true` or `id=false`.
pub open spec fn enabled_entries(enabled: Seq<(Engine, bool)>) -> Seq<Seq<char>> {
    enabled.map_values(|p: (Engine, bool)| p.0.spec_id() + "="@ + flag_text(p.1))
}

/// The cookie that stores the enabled flags, in the order given.
pub fn set_enabled_search_engines(enabled: &Vec<(Engine, bool)>) -> (r: String)
    ensures
        r@ == spec_cookie("engines"@, join(enabled_entries(enabled@), ","@)),
{
    let mut entries: Vec<String> = Vec::new();
    let mut k: usize = 0;
    while k < enabled.len()
        invariant
            k <= enabled@.len(),
            views(entries@) == enabled_entries(enabled@.take(k as int)),
        decreases enabled@.len() - k,
    {
        let (e, b) = enabled[k];
        let mut s = String::from_str(e.id());
        s.append("=");
        s.append(if b { "true" } else { "false" });
        let ghost e0 = entries@;
        let ghost sv = s@;
        assert(sv == e.spec_id() + "="@ + flag_text(b));
        entries.push(s);
        assert(views(entries@) =~= views(e0).push(sv));
        assert(enabled_entries(enabled@.take(k + 1)) =~= enabled_entries(enabled@.take(k as int)).push(sv));
        k = k + 1;
    }
    assert(enabled@.take(enabled@.len() as int) =~= enabled@);
    let text = join_exec(&entries, ",");
    cookie_exec("engines", text.as_str())
}

/// Whether a backend is enabled in a flag list: its first flag, else its
/// default.
pub open spec fn spec_is_enabled(e: Engine, enabled: Seq<(Engine, bool)>) -> bool
    decreases enabled.len(),
{
    if enabled.len() == 0 {
        e.spec_enabled_by_default()
    } else if enabled[0].0 == e {
        enabled[0].1
    } else {
        spec_is_enabled(e, enabled.drop_first())
    }
}

impl Engine {
    /// Whether the backend is enabled in the flag list.
    pub fn is_enabled(&self, enabled: &Vec<(Engine, bool)>) -> (r: bool)
        ensures
            r == spec_is_enabled(*self, enabled@),
    {
        let mut k: usize = 0;
        assert(enabled@.skip(0) =~= enabled@);
        while k < enabled.len()
            invariant
                k <= enabled@.len(),
                spec_is_enabled(*self, enabled@.skip(k as int)) == spec_is_enabled(*self, enabled@),
            decreases enabled@.len() - k,
        {
            assert(enabled@.skip(k as int).drop_first() =~= enabled@.skip(k + 1));
            if enabled[k].0 == *self {
                return enabled[k].1;
            }
            k = k + 1;
        }
        assert(enabled@.skip(k as int) =~= Seq::<(Engine, bool)>::empty());
        self.is_enabled_by_default()
    }
}

/// The flag a settings form gives a backend: its last field, checked when
/// the value is `on`; unchecked where the form has no field for it.
pub open spec fn form_flag(fields: Seq<(String, String)>, id: Seq<char>) -> bool
    decreases fields.len(),
{
    if fields.len() == 0 {
        false
    } else if fields.last().0@ == id {
        fields.last().1@ == "on"@
    } else {
        form_flag(fields.drop_last(), id)
    }
}

/// The enabled flag of every backend, in registry order, from the fields of
/// the settings form.
pub fn flags_from_form(fields: &Vec<(String, String)>) -> (r: Vec<(Engine, bool)>)
    ensures
        r@ == Engine::spec_all().map_values(|e: Engine| (e, form_flag(fields@, e.spec_id()))),
{
    let all = Engine::all();
    let mut out: Vec<(Engine, bool)> = Vec::new();
    let mut k: usize = 0;
    while k < all.len()
        invariant
            all@ == Engine::spec_all(),
            k <= all@.len(),
            out@ == all@.take(k as int).map_values(|e: Engine| (e, form_flag(fields@, e.spec_id()))),
        decreases all@.len() - k,
    {
        let e = all[k];
        let id = e.id();
        let mut i = fields.len();
        let mut flag = false;
        let mut found = false;
        assert(fields@.take(i as int) =~= fields@);
        while i > 0 && !found
            invariant
                id@ == e.spec_id(),
                i <= fields@.len(),
                found ==> flag == form_flag(fields@, id@),
                !found ==> form_flag(fields@.take(i as int), id@) == form_flag(fields@, id@),
                !found ==> !flag,
            decreases i + if found { 0int } else { 1int },
        {
            let ghost t = fields@.take(i as int);
            assert(t.drop_last() =~= fields@.take(i - 1));
            assert(t.last() == fields@[i - 1]);
            if crate::text::str_eq(fields[i - 1].0.as_str(), id) {
                flag = crate::text::str_eq(fields[i - 1].1.as_str(), "on");
                found = true;
            } else {
                i = i - 1;
            }
        }
        assert(!found ==> fields@.take(i as int) =~= Seq::<(String, String)>::empty());
        out.push((e, flag));
        assert(out@ =~= all@.take(k + 1).map_values(|e: Engine| (e, form_flag(fields@, e.spec_id()))));
        k = k + 1;
    }
    assert(all@.take(all@.len() as int) =~= all@);
    out
}

/// Adds a domain to the blocked list, at the end, unless it is there.
pub fn block_domain(domains: &mut Vec<String>, domain: &str)
    ensures
        views(old(domains)@).contains(domain@) ==> views(final(domains)@) == views(old(domains)@),
        !views(old(domains)@).contains(domain@) ==> views(final(domains)@) == views(old(domains)@).push(domain@),
{
    let ghost before = views(domains@);
    let mut k: usize = 0;
    while k < domains.len()
        invariant
            before == views(domains@),
            k <= domains@.len(),
            forall|j: int| 0 <= j < k ==> domains@[j]@ != domain@,
        decreases domains@.len() - k,
    {
        if crate::text::str_eq(domains[k].as_str(), domain) {
            assert(before[k as int] == domain@);
            return;
        }
        k = k + 1;
    }
    assert(!before.contains(domain@)) by {
        if before.contains(domain@) {
            let j = choose|j: int| 0 <= j < before.len() && before[j] == domain@;
            assert(domains@[j]@ == domain@);
        }
    }
    domains.push(String::from_str(domain));
    assert(views(domains@) =~= before.push(domain@));
}

/// The blocked list without the domain.
pub open spec fn without(domains: Seq<Seq<char>>, domain: Seq<char>) -> Seq<Seq<char>>
    decreases domains.len(),
{
    if domains.len() == 0 {
        domains
    } else if domains.last() == domain {
        without(domains.drop_last(), domain)
    } else {
        without(domains.drop_last(), domain).push(domains.last())
    }
}

/// Removes every copy of a domain from the blocked list.
pub fn unblock_domain(domains: &Vec<String>, domain: &str) -> (r: Vec<String>)
    ensures
        views(r@) == without(views(domains@), domain@),
{
    let mut out: Vec<String> = Vec::new();
    let mut k: usize = 0;
    assert(views(domains@.take(0)) =~= Seq::<Seq<char>>::empty());
    while k < domains.len()
        invariant
            k <= domains@.len(),
            views(out@) == without(views(domains@.take(k as int)), domain@),
        decreases domains@.len() - k,
    {
        proof {
            assert(views(domains@.take(k + 1)).drop_last() =~= views(domains@.take(k as int)));
            assert(views(domains@.take(k + 1)).last() == domains@[k as int]@);
        }
        if !crate::text::str_eq(domains[k].as_str(), domain) {
            let ghost o0 = out@;
            out.push(domains[k].clone());
            assert(views(out@) =~= views(o0).push(domains@[k as int]@));
        }
        k = k + 1;
    }
    assert(domains@.take(domains@.len() as int) =~= domains@);
    out
}

/// A cookie value that is not base64 of UTF-8 reads as no entries: every
/// backend keeps its default, and no domain is blocked.
pub proof fn lemma_malformed_cookie_defaults(value: Seq<char>)
    requires
        match base64_decoded(value) {
            Some(b) => !valid_utf8(b),
            None => true,
        },
    ensures
        cookie_entries(value) == Seq::<Seq<char>>::empty(),
        spec_enabled_engines(Some(value)) == spec_enabled_engines(None),
        spec_blocked_domains(Some(value)) == Seq::<Seq<char>>::empty(),
{
    let e = Seq::<char>::empty();
    assert(cookie_text(value) == e);
    assert(split(e, ',') == seq![e]);
    assert(trimmed(e) == e);
    assert(seq![e].drop_last() =~= Seq::<Seq<char>>::empty());
    assert(seq![e].last() == e);
    assert(trimmed(seq![e].last()).len() == 0);
    assert(clean(Seq::<Seq<char>>::empty()) == Seq::<Seq<char>>::empty());
    assert(clean(seq![e]) == clean(seq![e].drop_last()));
}

} // verus!
