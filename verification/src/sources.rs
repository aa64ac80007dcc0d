use vstd::prelude::*;
use crate::addr::ProxyAddr;
use crate::proxy::Protocol;
use crate::text::{
    char_is_whitespace, chars_of, copy_range, has_prefix, last_word, last_word_or_all,
    skip_white_space, starts_with, string_of, trim, trimmed,
};

verus! {

/// A published list of proxies.
pub struct ProxySource {
    pub name: &'static str,
    pub url: &'static str,
    /// The protocol of the listed proxies whose line names none.
    pub default_protocol: Protocol,
    pub is_api: bool,
}

/// The public proxy lists the pool is filled from.
pub fn default_sources() -> (v: Vec<ProxySource>)
    ensures
        v@.len() == 10,
        v@[0].name@ == "proxyscrape-api"@,
        v@[0].url@
            == "https://api.proxyscrape.com/v4/free-proxy-list/get?request=display_proxies&proxy_format=protocolipport&format=text&timeout=20000"@,
        v@[0].default_protocol == Protocol::Http,
        v@[0].is_api,
        v@[1].name@ == "thespeedx-http"@,
        v@[1].url@ == "https://raw.githubusercontent.com/TheSpeedX/PROXY-List/master/http.txt"@,
        v@[1].default_protocol == Protocol::Http,
        !v@[1].is_api,
        v@[2].name@ == "jetkai-proxies"@,
        v@[2].url@ == "https://raw.githubusercontent.com/jetkai/proxy-list/main/online-proxies/txt/proxies.txt"@,
        v@[2].default_protocol == Protocol::Http,
        !v@[2].is_api,
        v@[3].name@ == "monosans-http"@,
        v@[3].url@ == "https://raw.githubusercontent.com/monosans/proxy-list/main/proxies/http.txt"@,
        v@[3].default_protocol == Protocol::Http,
        !v@[3].is_api,
        v@[4].name@ == "hookzof-socks5"@,
        v@[4].url@ == "https://raw.githubusercontent.com/hookzof/socks5_list/master/proxy.txt"@,
        v@[4].default_protocol == Protocol::Socks5,
        !v@[4].is_api,
        v@[5].name@ == "roosterkid-https"@,
        v@[5].url@ == "https://raw.githubusercontent.com/roosterkid/openproxylist/main/HTTPS.txt"@,
        v@[5].default_protocol == Protocol::Https,
        !v@[5].is_api,
        v@[6].name@ == "shiftytr-http"@,
        v@[6].url@ == "https://raw.githubusercontent.com/ShiftyTR/Proxy-List/master/http.txt"@,
        v@[6].default_protocol == Protocol::Http,
        !v@[6].is_api,
        v@[7].name@ == "aliilapro-http"@,
        v@[7].url@ == "https://raw.githubusercontent.com/ALIILAPRO/Proxy/main/http.txt"@,
        v@[7].default_protocol == Protocol::Http,
        !v@[7].is_api,
        v@[8].name@ == "sunny9577-proxies"@,
        v@[8].url@ == "https://raw.githubusercontent.com/sunny9577/proxy-scraper/master/proxies.txt"@,
        v@[8].default_protocol == Protocol::Http,
        !v@[8].is_api,
        v@[9].name@ == "openproxylist-api"@,
        v@[9].url@ == "https://api.openproxylist.xyz/http.txt"@,
        v@[9].default_protocol == Protocol::Http,
        v@[9].is_api,
{
    let mut v: Vec<ProxySource> = Vec::new();
    v.push(ProxySource {
        name: "proxyscrape-api",
        url: "https://api.proxyscrape.com/v4/free-proxy-list/get?request=display_proxies&proxy_format=protocolipport&format=text&timeout=20000",
        default_protocol: Protocol::Http,
        is_api: true,
    });
    v.push(ProxySource {
        name: "thespeedx-http",
        url: "https://raw.githubusercontent.com/TheSpeedX/PROXY-List/master/http.txt",
        default_protocol: Protocol::Http,
        is_api: false,
    });
    v.push(ProxySource {
        name: "jetkai-proxies",
        url: "https://raw.githubusercontent.com/jetkai/proxy-list/main/online-proxies/txt/proxies.txt",
        default_protocol: Protocol::Http,
        is_api: false,
    });
    v.push(ProxySource {
        name: "monosans-http",
        url: "https://raw.githubusercontent.com/monosans/proxy-list/main/proxies/http.txt",
        default_protocol: Protocol::Http,
        is_api: false,
    });
    v.push(ProxySource {
        name: "hookzof-socks5",
        url: "https://raw.githubusercontent.com/hookzof/socks5_list/master/proxy.txt",
        default_protocol: Protocol::Socks5,
        is_api: false,
    });
    v.push(ProxySource {
        name: "roosterkid-https",
        url: "https://raw.githubusercontent.com/roosterkid/openproxylist/main/HTTPS.txt",
        default_protocol: Protocol::Https,
        is_api: false,
    });
    v.push(ProxySource {
        name: "shiftytr-http",
        url: "https://raw.githubusercontent.com/ShiftyTR/Proxy-List/master/http.txt",
        default_protocol: Protocol::Http,
        is_api: false,
    });
    v.push(ProxySource {
        name: "aliilapro-http",
        url: "https://raw.githubusercontent.com/ALIILAPRO/Proxy/main/http.txt",
        default_protocol: Protocol::Http,
        is_api: false,
    });
    v.push(ProxySource {
        name: "sunny9577-proxies",
        url: "https://raw.githubusercontent.com/sunny9577/proxy-scraper/master/proxies.txt",
        default_protocol: Protocol::Http,
        is_api: false,
    });
    v.push(ProxySource {
        name: "openproxylist-api",
        url: "https://api.openproxylist.xyz/http.txt",
        default_protocol: Protocol::Http,
        is_api: true,
    });
    v
}

/// The protocol a proxy read from a source is taken with: a line that names
/// no protocol reads as plain HTTP, and then the source's own protocol holds.
pub open spec fn protocol_for_source(parsed: Protocol, source_default: Protocol) -> Protocol {
    if parsed == Protocol::Http && source_default != Protocol::Http {
        source_default
    } else {
        parsed
    }
}

/// The protocol a proxy read from a source is taken with.
pub fn source_protocol(parsed: Protocol, source_default: Protocol) -> (p: Protocol)
    ensures
        p == protocol_for_source(parsed, source_default),
{
    if parsed == Protocol::Http && source_default != Protocol::Http {
        source_default
    } else {
        parsed
    }
}

/// The addresses read from a source, each with the protocol it is taken
/// with (`source_protocol` applied to the protocol its line named).
pub fn apply_source_protocol(entries: Vec<(ProxyAddr, Protocol)>, source_default: Protocol) -> (r: Vec<(ProxyAddr, Protocol)>)
    ensures
        r@.len() == entries@.len(),
        forall|i: int| 0 <= i < r@.len() ==> #[trigger] r@[i] == (entries@[i].0, protocol_for_source(entries@[i].1, source_default)),
{
    let mut r: Vec<(ProxyAddr, Protocol)> = Vec::new();
    let mut i: usize = 0;
    while i < entries.len()
        invariant
            0 <= i <= entries@.len(),
            r@.len() == i,
            forall|j: int| 0 <= j < i ==> #[trigger] r@[j] == (entries@[j].0, protocol_for_source(entries@[j].1, source_default)),
        decreases entries@.len() - i,
    {
        let (addr, parsed) = entries[i];
        r.push((addr, source_protocol(parsed, source_default)));
        i = i + 1;
    }
    r
}

/// A line that carries no proxy: empty, or a comment (`#` or `//`).
pub open spec fn is_comment(t: Seq<char>) -> bool {
    t.len() == 0 || t[0] == '#' || (t.len() >= 2 && t[0] == '/' && t[1] == '/')
}

/// `s[i..i + 3]` is `://`.
pub open spec fn is_scheme_sep_at(s: Seq<char>, i: int) -> bool {
    i + 3 <= s.len() && s[i] == ':' && s[i + 1] == '/' && s[i + 2] == '/'
}

/// The first position from `i` on where `://` begins, if any.
pub open spec fn scheme_sep_from(s: Seq<char>, i: int) -> Option<int>
    decreases s.len() - i,
{
    if i + 3 > s.len() {
        None
    } else if is_scheme_sep_at(s, i) {
        Some(i)
    } else {
        scheme_sep_from(s, i + 1)
    }
}

/// The text after the first `://`, or all of it when there is none.
pub open spec fn after_scheme(t: Seq<char>) -> Seq<char> {
    match scheme_sep_from(t, 0) {
        Some(k) => t.subrange(k + 3, t.len() as int),
        None => t,
    }
}

/// The characters that end the address field of a line: a space, `#` or a tab.
pub open spec fn is_field_stop(c: char) -> bool {
    c == ' ' || c == '#' || c == '\t'
}

/// The first position from `i` on that ends the address field, or the length.
pub open spec fn field_stop_from(s: Seq<char>, i: int) -> int
    decreases s.len() - i,
{
    if i >= s.len() {
        s.len() as int
    } else if is_field_stop(s[i]) {
        i
    } else {
        field_stop_from(s, i + 1)
    }
}

/// A regional indicator symbol, two of which make up a country flag.
pub open spec fn is_flag_letter(c: char) -> bool {
    0x1F1E6 <= (c as u32) <= 0x1F1FF
}

/// The first position from `i` on that holds no flag letter, or the length.
pub open spec fn flag_end_from(s: Seq<char>, i: int) -> int
    decreases s.len() - i,
{
    if i >= s.len() {
        s.len() as int
    } else if !is_flag_letter(s[i]) {
        i
    } else {
        flag_end_from(s, i + 1)
    }
}

/// The text past a country flag in front and the white space after it; a
/// text that does not begin with a flag letter is left as it is.
pub open spec fn past_flag(s: Seq<char>) -> Seq<char> {
    let k = flag_end_from(s, 0);
    if k == 0 {
        s
    } else {
        s.subrange(skip_white_space(s, k), s.len() as int)
    }
}

/// The address field: the text up to its first space, `#` or tab.
pub open spec fn first_field(s: Seq<char>) -> Seq<char> {
    s.subrange(0, field_stop_from(s, 0))
}

/// The protocol a line names by its prefix; plain HTTP when it names none.
pub open spec fn line_protocol(t: Seq<char>) -> Protocol {
    if has_prefix(t, "socks5://"@) {
        Protocol::Socks5
    } else if has_prefix(t, "socks4://"@) {
        Protocol::Socks4
    } else if has_prefix(t, "https://"@) {
        Protocol::Https
    } else {
        Protocol::Http
    }
}

/// What a line of a proxy list offers: for a line that is not blank or a
/// comment, the text taken as `host:port` (after any `scheme://` and any
/// country flag in front, before any space, `#` or tab, and past any other
/// white space in the field) and the protocol the line names.
pub open spec fn line_candidate(line: Seq<char>) -> Option<(Seq<char>, Protocol)> {
    let t = trimmed(line);
    if is_comment(t) {
        None
    } else {
        Some((last_word_or_all(first_field(past_flag(after_scheme(t)))), line_protocol(t)))
    }
}

/// The candidates of the text from position `i` on, where the current line
/// began at `start`. Lines end at `\n`; a last line without one counts too.
pub open spec fn candidates_from(b: Seq<char>, start: int, i: int) -> Seq<(Seq<char>, Protocol)>
    decreases b.len() - i,
{
    if i >= b.len() {
        if start < b.len() {
            match line_candidate(b.subrange(start, b.len() as int)) {
                Some(c) => seq![c],
                None => Seq::empty(),
            }
        } else {
            Seq::empty()
        }
    } else if b[i] == '\n' {
        let rest = candidates_from(b, i + 1, i + 1);
        match line_candidate(b.subrange(start, i)) {
            Some(c) => seq![c] + rest,
            None => rest,
        }
    } else {
        candidates_from(b, start, i + 1)
    }
}

/// The candidates of a whole proxy list, line by line.
pub open spec fn list_candidates(b: Seq<char>) -> Seq<(Seq<char>, Protocol)> {
    candidates_from(b, 0, 0)
}

/// Reading the text `q` behind a prefix `p` from a position inside `q` gives
/// what reading `q` alone from there gives.
proof fn lemma_candidates_shift(p: Seq<char>, q: Seq<char>, st: int, i: int)
    requires
        0 <= st <= i <= q.len(),
    ensures
        candidates_from(p + q, p.len() + st, p.len() + i) == candidates_from(q, st, i),
    decreases q.len() - i,
{
    let s = p + q;
    if i >= q.len() {
        assert(s.subrange(p.len() + st, s.len() as int) =~= q.subrange(st, q.len() as int));
    } else {
        assert(s[p.len() + i] == q[i]);
        if q[i] == '\n' {
            lemma_candidates_shift(p, q, i + 1, i + 1);
            assert(s.subrange(p.len() + st, p.len() + i) =~= q.subrange(st, i));
        } else {
            lemma_candidates_shift(p, q, st, i + 1);
        }
    }
}

/// An empty line offers no candidate.
proof fn lemma_empty_line(e: Seq<char>)
    requires
        e.len() == 0,
    ensures
        line_candidate(e) is None,
{
    assert(trimmed(e).len() == 0);
}

/// Reading `a`, a line break and `b` from a position inside `a` gives what
/// reading `a` alone from there gives, followed by the candidates of `b`.
proof fn lemma_candidates_join(a: Seq<char>, b: Seq<char>, st: int, i: int)
    requires
        0 <= st <= i <= a.len(),
    ensures
        candidates_from(a + seq!['\n'] + b, st, i) == candidates_from(a, st, i) + list_candidates(b),
    decreases a.len() - i,
{
    let s = a + seq!['\n'] + b;
    let pre = a + seq!['\n'];
    assert(s =~= pre + b);
    if i == a.len() {
        assert(s[i] == '\n');
        lemma_candidates_shift(pre, b, 0, 0);
        assert(s.subrange(st, i) =~= a.subrange(st, a.len() as int));
        if st == a.len() {
            lemma_empty_line(s.subrange(st, i));
            assert(candidates_from(a, st, i) =~= Seq::<(Seq<char>, Protocol)>::empty());
            assert(candidates_from(a, st, i) + list_candidates(b) =~= list_candidates(b));
        } else {
            match line_candidate(a.subrange(st, a.len() as int)) {
                Some(c) => {
                    assert(candidates_from(a, st, i) =~= seq![c]);
                },
                None => {
                    assert(candidates_from(a, st, i) =~= Seq::<(Seq<char>, Protocol)>::empty());
                    assert(candidates_from(a, st, i) + list_candidates(b) =~= list_candidates(b));
                },
            }
        }
    } else {
        assert(s[i] == a[i]);
        if a[i] == '\n' {
            lemma_candidates_join(a, b, i + 1, i + 1);
            assert(s.subrange(st, i) =~= a.subrange(st, i));
            match line_candidate(a.subrange(st, i)) {
                Some(c) => {
                    assert(seq![c] + candidates_from(a, i + 1, i + 1) + list_candidates(b) =~= seq![c] + (
                    candidates_from(a, i + 1, i + 1) + list_candidates(b)));
                },
                None => {},
            }
        } else {
            lemma_candidates_join(a, b, st, i + 1);
        }
    }
}

/// Each line is read on its own: reading two texts joined by a line break
/// gives the candidates of the first followed by those of the second.
pub proof fn lemma_lines_read_independently(a: Seq<char>, b: Seq<char>)
    ensures
        list_candidates(a + seq!['\n'] + b) == list_candidates(a) + list_candidates(b),
{
    lemma_candidates_join(a, b, 0, 0);
}

/// A proxy offered by a line of a list: the `host:port` text, still to be
/// resolved to a socket address, and the protocol the line names.
pub struct ProxyCandidate {
    pub host_port: String,
    pub protocol: Protocol,
}

/// The view of a candidate: its text and protocol.
pub open spec fn candidate_view(c: ProxyCandidate) -> (Seq<char>, Protocol) {
    (c.host_port@, c.protocol)
}

/// The first position from `i` on where `://` begins, if any.
fn find_scheme_sep(s: &Vec<char>) -> (r: Option<usize>)
    ensures
        match r {
            Some(k) => scheme_sep_from(s@, 0) == Some(k as int),
            None => scheme_sep_from(s@, 0) is None,
        },
{
    let mut i: usize = 0;
    while i < s.len() && s.len() - i >= 3
        invariant
            i <= s@.len(),
            scheme_sep_from(s@, 0) == scheme_sep_from(s@, i as int),
        decreases s@.len() - i,
    {
        if s[i] == ':' && s[i + 1] == '/' && s[i + 2] == '/' {
            return Some(i);
        }
        i = i + 1;
    }
    None
}

proof fn lemma_scheme_sep_bounds(s: Seq<char>, i: int)
    requires
        0 <= i,
    ensures
        scheme_sep_from(s, i) matches Some(k) ==> i <= k && k + 3 <= s.len(),
    decreases s.len() - i,
{
    if i + 3 <= s.len() && !is_scheme_sep_at(s, i) {
        lemma_scheme_sep_bounds(s, i + 1);
    }
}

/// Where the text past a country flag in front begins: after the flag
/// letters and the white space behind them, or at 0 when there is no flag.
fn flag_end(s: &Vec<char>) -> (r: usize)
    ensures
        r <= s@.len(),
        r == (if flag_end_from(s@, 0) == 0 { 0 } else { skip_white_space(s@, flag_end_from(s@, 0)) }),
{
    let mut i: usize = 0;
    while i < s.len() && 0x1F1E6 <= (s[i] as u32) && (s[i] as u32) <= 0x1F1FF
        invariant
            i <= s@.len(),
            flag_end_from(s@, 0) == flag_end_from(s@, i as int),
        decreases s@.len() - i,
    {
        i = i + 1;
    }
    if i == 0 {
        return 0;
    }
    let mut k: usize = i;
    while k < s.len() && char_is_whitespace(s[k])
        invariant
            i <= k <= s@.len(),
            skip_white_space(s@, i as int) == skip_white_space(s@, k as int),
        decreases s@.len() - k,
    {
        k = k + 1;
    }
    k
}

/// The address field of a line.
fn first_field_exec(s: &Vec<char>) -> (r: Vec<char>)
    ensures
        r@ == first_field(s@),
{
    let mut i: usize = 0;
    while i < s.len() && !(s[i] == ' ' || s[i] == '#' || s[i] == '\t')
        invariant
            i <= s@.len(),
            field_stop_from(s@, 0) == field_stop_from(s@, i as int),
        decreases s@.len() - i,
    {
        i = i + 1;
    }
    copy_range(s, 0, i)
}

/// The candidate of one line.
pub fn parse_line(line: &Vec<char>) -> (r: Option<ProxyCandidate>)
    ensures
        match r {
            Some(c) => line_candidate(line@) == Some(candidate_view(c)),
            None => line_candidate(line@) is None,
        },
{
    let t = trim(line);
    if t.len() == 0 || t[0] == '#' || (t.len() >= 2 && t[0] == '/' && t[1] == '/') {
        return None;
    }
    let cleaned = match find_scheme_sep(&t) {
        Some(k) => {
            proof {
                lemma_scheme_sep_bounds(t@, 0);
            }
            copy_range(&t, k + 3, t.len())
        },
        None => copy_range(&t, 0, t.len()),
    };
    assert(cleaned@ =~= after_scheme(t@));
    let from = flag_end(&cleaned);
    let unflagged = copy_range(&cleaned, from, cleaned.len());
    assert(unflagged@ =~= past_flag(cleaned@));
    let field = first_field_exec(&unflagged);
    let host_port = last_word(&field);
    let protocol = if starts_with(&t, &chars_of("socks5://")) {
        Protocol::Socks5
    } else if starts_with(&t, &chars_of("socks4://")) {
        Protocol::Socks4
    } else if starts_with(&t, &chars_of("https://")) {
        Protocol::Https
    } else {
        Protocol::Http
    };
    Some(ProxyCandidate { host_port: string_of(&host_port), protocol })
}

/// Reads a proxy list, one proxy per line as `host:port`, possibly behind a
/// `scheme://` that names the protocol, a flag or label, and followed by a
/// country or description; blank lines and comments are skipped. Returns
/// every candidate in the order of the lines.
pub fn parse_ip_port_lines(body: &str) -> (r: Vec<ProxyCandidate>)
    ensures
        r@.map_values(|c: ProxyCandidate| candidate_view(c)) == list_candidates(body@),
{
    let b = chars_of(body);
    let mut out: Vec<ProxyCandidate> = Vec::new();
    let mut start: usize = 0;
    let mut i: usize = 0;
    while i < b.len()
        invariant
            start <= i <= b@.len(),
            out@.map_values(|c: ProxyCandidate| candidate_view(c)) + candidates_from(b@, start as int, i as int)
                == list_candidates(b@),
        decreases b@.len() - i,
    {
        if b[i] == '\n' {
            let line = copy_range(&b, start, i);
            let ghost before = out@;
            match parse_line(&line) {
                Some(c) => {
                    out.push(c);
                    assert(out@.map_values(|c: ProxyCandidate| candidate_view(c)) =~= before.map_values(
                        |c: ProxyCandidate| candidate_view(c),
                    ).push(candidate_view(out@[out@.len() - 1])));
                },
                None => {},
            }
            start = i + 1;
        }
        i = i + 1;
    }
    if start < b.len() {
        let line = copy_range(&b, start, b.len());
        let ghost before = out@;
        match parse_line(&line) {
            Some(c) => {
                out.push(c);
                assert(out@.map_values(|c: ProxyCandidate| candidate_view(c)) =~= before.map_values(
                    |c: ProxyCandidate| candidate_view(c),
                ).push(candidate_view(out@[out@.len() - 1])));
            },
            None => {},
        }
    }
    assert(out@.map_values(|c: ProxyCandidate| candidate_view(c)) =~= list_candidates(body@));
    out
}

} // verus!
