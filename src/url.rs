use vstd::prelude::*;

verus! {

/// An ASCII decimal digit.
pub open spec fn is_digit(c: char) -> bool {
    '0' <= c && c <= '9'
}

/// One or more ASCII decimal digits.
pub open spec fn is_decimal(s: Seq<char>) -> bool {
    &&& s.len() > 0
    &&& forall|i: int| 0 <= i < s.len() ==> is_digit(#[trigger] s[i])
}

/// The value of one decimal digit.
pub open spec fn digit_value(c: char) -> nat {
    (c as u32 - '0' as u32) as nat
}

/// The number that a run of decimal digits writes, most significant first.
pub open spec fn decimal_value(s: Seq<char>) -> nat
    decreases s.len(),
{
    if s.len() == 0 {
        0
    } else {
        decimal_value(s.drop_last()) * 10 + digit_value(s.last())
    }
}

/// The value of a run of digits, where it fits in a `u64`.
pub open spec fn id_value(s: Seq<char>) -> Option<u64> {
    if decimal_value(s) <= u64::MAX {
        Some(decimal_value(s) as u64)
    } else {
        None
    }
}

/// `http://` or `https://`: the scheme token is case-sensitive.
pub open spec fn is_scheme(p: Seq<char>) -> bool {
    p == seq!['h', 't', 't', 'p', ':', '/', '/'] || p == seq!['h', 't', 't', 'p', 's', ':', '/', '/']
}

/// `discord`, any one character but a line feed, then `com/channels/`.
///
/// The character between `discord` and `com` is a wildcard of the URL
/// pattern (a regular-expression dot), not a literal `.`.
pub open spec fn is_host_path(p: Seq<char>) -> bool {
    &&& p.len() == 21
    &&& p.take(7) == seq!['d', 'i', 's', 'c', 'o', 'r', 'd']
    &&& p[7] != '\n'
    &&& p.skip(8) == seq!['c', 'o', 'm', '/', 'c', 'h', 'a', 'n', 'n', 'e', 'l', 's', '/']
}

/// Everything of a message URL that comes before its first id.
pub open spec fn is_url_head(p: Seq<char>) -> bool {
    (p.len() == 28 && is_scheme(p.take(7)) && is_host_path(p.skip(7)))
    || (p.len() == 29 && is_scheme(p.take(8)) && is_host_path(p.skip(8)))
}

/// `t` is `g/c/m`, three runs of digits separated by slashes.
pub open spec fn is_id_path(t: Seq<char>, g: Seq<char>, c: Seq<char>, m: Seq<char>) -> bool {
    &&& is_decimal(g)
    &&& is_decimal(c)
    &&& is_decimal(m)
    &&& t == g + seq!['/'] + c + seq!['/'] + m
}

/// The three ids that the path `t` writes; `None` where `t` is no such path
/// or one of its ids does not fit in a `u64`.
pub open spec fn path_ids(t: Seq<char>) -> Option<(u64, u64, u64)> {
    if exists|g: Seq<char>, c: Seq<char>, m: Seq<char>| is_id_path(t, g, c, m) {
        let (g, c, m) = choose|g: Seq<char>, c: Seq<char>, m: Seq<char>| is_id_path(t, g, c, m);
        match (id_value(g), id_value(c), id_value(m)) {
            (Some(a), Some(b), Some(d)) => Some((a, b, d)),
            _ => None,
        }
    } else {
        None
    }
}

/// The (guild, channel, message) ids that the message URL `s` refers to:
/// `s` must be a whole URL `http[s]://discord.com/channels/{guild}/{channel}/{message}`,
/// with nothing before or after it.
pub open spec fn message_ref(s: Seq<char>) -> Option<(u64, u64, u64)> {
    if s.len() >= 28 && is_url_head(s.take(28)) {
        path_ids(s.skip(28))
    } else if s.len() >= 29 && is_url_head(s.take(29)) {
        path_ids(s.skip(29))
    } else {
        None
    }
}

/// Positions `from..to` of `t` are a longest run of digits: every one is a
/// digit, and the run stops at the end of `t` or at a character that is none.
pub open spec fn run_ends(t: Seq<char>, from: int, to: int) -> bool {
    &&& 0 <= from <= to <= t.len()
    &&& forall|i: int| from <= i < to ==> is_digit(#[trigger] t[i])
    &&& (to == t.len() || !is_digit(t[to]))
}

/// A run of digits that starts at a given position ends at one place only.
proof fn lemma_run_ends_unique(t: Seq<char>, from: int, a: int, b: int)
    requires
        run_ends(t, from, a),
        run_ends(t, from, b),
    ensures
        a == b,
{
    if a < b {
        assert(is_digit(t[a]));
    } else if b < a {
        assert(is_digit(t[b]));
    }
}

/// Where the runs of digits and the slashes of an id path stand.
proof fn lemma_id_path_runs(t: Seq<char>, g: Seq<char>, c: Seq<char>, m: Seq<char>)
    requires
        is_id_path(t, g, c, m),
    ensures
        run_ends(t, 0, g.len() as int),
        t[g.len() as int] == '/',
        run_ends(t, g.len() + 1int, g.len() + 1int + c.len()),
        t[g.len() + 1int + c.len()] == '/',
        run_ends(t, g.len() + c.len() + 2int, t.len() as int),
        g == t.subrange(0, g.len() as int),
        c == t.subrange(g.len() + 1int, g.len() + 1int + c.len()),
        m == t.subrange(g.len() + c.len() + 2int, t.len() as int),
{
    let gl = g.len() as int;
    let k = gl + 1 + c.len();
    assert(t[gl] == '/');
    assert(t[k] == '/');
    assert forall|i: int| 0 <= i < gl implies is_digit(#[trigger] t[i]) by {
        assert(t[i] == g[i]);
    }
    assert forall|i: int| gl + 1 <= i < k implies is_digit(#[trigger] t[i]) by {
        assert(t[i] == c[i - gl - 1]);
    }
    assert forall|i: int| k + 1 <= i < t.len() implies is_digit(#[trigger] t[i]) by {
        assert(t[i] == m[i - k - 1]);
    }
    assert(g =~= t.subrange(0, gl));
    assert(c =~= t.subrange(gl + 1, k));
    assert(m =~= t.subrange(k + 1, t.len() as int));
}

/// An id path splits into its three runs of digits in one way only.
proof fn lemma_id_path_unique(
    t: Seq<char>,
    g: Seq<char>,
    c: Seq<char>,
    m: Seq<char>,
    g2: Seq<char>,
    c2: Seq<char>,
    m2: Seq<char>,
)
    requires
        is_id_path(t, g, c, m),
        is_id_path(t, g2, c2, m2),
    ensures
        g == g2,
        c == c2,
        m == m2,
{
    lemma_id_path_runs(t, g, c, m);
    lemma_id_path_runs(t, g2, c2, m2);
    lemma_run_ends_unique(t, 0, g.len() as int, g2.len() as int);
    lemma_run_ends_unique(t, g.len() + 1int, g.len() + 1int + c.len(), g2.len() + 1int + c2.len());
}

fn is_ascii_digit(c: char) -> (r: bool)
    ensures
        r == is_digit(c),
{
    '0' <= c && c <= '9'
}

/// Reads the longest run of digits of `cs` that starts at `start`: where it
/// ends, and its value where that fits in a `u64`.
fn scan_id(cs: &Vec<char>, start: usize) -> (r: (usize, Option<u64>))
    requires
        start <= cs.len(),
    ensures
        run_ends(cs@, start as int, r.0 as int),
        r.1 == id_value(cs@.subrange(start as int, r.0 as int)),
{
    let mut i: usize = start;
    let mut v: u64 = 0;
    let mut fits: bool = true;
    while i < cs.len() && is_ascii_digit(cs[i])
        invariant
            start <= i <= cs.len(),
            forall|j: int| start <= j < i ==> is_digit(#[trigger] cs@[j]),
            fits <==> decimal_value(cs@.subrange(start as int, i as int)) <= u64::MAX,
            fits ==> v == decimal_value(cs@.subrange(start as int, i as int)),
        decreases cs.len() - i,
    {
        let d: u64 = (cs[i] as u32 - '0' as u32) as u64;
        let ghost prev = cs@.subrange(start as int, i as int);
        let ghost next = cs@.subrange(start as int, i + 1);
        assert(next.drop_last() =~= prev);
        assert(decimal_value(next) == decimal_value(prev) * 10 + d);
        if fits {
            if v <= (u64::MAX - d) / 10 {
                assert(v * 10 + d <= u64::MAX) by (nonlinear_arith)
                    requires
                        v <= (u64::MAX - d) / 10,
                        d <= 9,
                ;
                v = v * 10 + d;
            } else {
                assert(v * 10 + d > u64::MAX) by (nonlinear_arith)
                    requires
                        v > (u64::MAX - d) / 10,
                        d <= 9,
                ;
                fits = false;
            }
        }
        i = i + 1;
    }
    if fits {
        (i, Some(v))
    } else {
        (i, None)
    }
}

/// A run of digits of `s` read from position `start` on.
proof fn lemma_run_ends_skip(s: Seq<char>, start: int, from: int, to: int)
    requires
        0 <= start <= start + from,
        run_ends(s, start + from, start + to),
    ensures
        run_ends(s.skip(start), from, to),
{
    let t = s.skip(start);
    assert forall|i: int| from <= i < to implies is_digit(#[trigger] t[i]) by {
        assert(t[i] == s[start + i]);
    }
}

/// The decomposition that `path_ids` picks, with where its parts stand.
proof fn lemma_chosen_id_path(t: Seq<char>) -> (r: (Seq<char>, Seq<char>, Seq<char>))
    requires
        exists|g: Seq<char>, c: Seq<char>, m: Seq<char>| is_id_path(t, g, c, m),
    ensures
        r == (choose|g: Seq<char>, c: Seq<char>, m: Seq<char>| is_id_path(t, g, c, m)),
        is_id_path(t, r.0, r.1, r.2),
        run_ends(t, 0, r.0.len() as int),
        t[r.0.len() as int] == '/',
        run_ends(t, r.0.len() + 1int, r.0.len() + 1int + r.1.len()),
        t[r.0.len() + 1int + r.1.len()] == '/',
        run_ends(t, r.0.len() + r.1.len() + 2int, t.len() as int),
        r.0 == t.subrange(0, r.0.len() as int),
        r.1 == t.subrange(r.0.len() + 1int, r.0.len() + 1int + r.1.len()),
        r.2 == t.subrange(r.0.len() + r.1.len() + 2int, t.len() as int),
{
    let r = choose|g: Seq<char>, c: Seq<char>, m: Seq<char>| is_id_path(t, g, c, m);
    lemma_id_path_runs(t, r.0, r.1, r.2);
    r
}

/// The three ids of the path that starts at position `start` of `cs`.
fn parse_ids(cs: &Vec<char>, start: usize) -> (r: Option<(u64, u64, u64)>)
    requires
        start <= cs.len(),
    ensures
        r == path_ids(cs@.skip(start as int)),
{
    let ghost t = cs@.skip(start as int);
    let ghost has_path = exists|g: Seq<char>, c: Seq<char>, m: Seq<char>| is_id_path(t, g, c, m);
    let (e1, v1) = scan_id(cs, start);
    proof {
        lemma_run_ends_skip(cs@, start as int, 0, e1 - start);
        if has_path {
            let p = lemma_chosen_id_path(t);
            lemma_run_ends_unique(t, 0, p.0.len() as int, e1 - start);
        }
    }
    if e1 == start || e1 >= cs.len() || cs[e1] != '/' {
        return None;
    }
    let (e2, v2) = scan_id(cs, e1 + 1);
    proof {
        lemma_run_ends_skip(cs@, start as int, e1 + 1 - start, e2 - start);
        if has_path {
            let p = lemma_chosen_id_path(t);
            lemma_run_ends_unique(t, p.0.len() + 1int, p.0.len() + 1int + p.1.len(), e2 - start);
        }
    }
    if e2 == e1 + 1 || e2 >= cs.len() || cs[e2] != '/' {
        return None;
    }
    let (e3, v3) = scan_id(cs, e2 + 1);
    proof {
        lemma_run_ends_skip(cs@, start as int, e2 + 1 - start, e3 - start);
        if has_path {
            let p = lemma_chosen_id_path(t);
            lemma_run_ends_unique(t, p.0.len() + p.1.len() + 2int, t.len() as int, e3 - start);
        }
    }
    if e3 == e2 + 1 || e3 < cs.len() {
        return None;
    }
    proof {
        let g = cs@.subrange(start as int, e1 as int);
        let c = cs@.subrange(e1 + 1, e2 as int);
        let m = cs@.subrange(e2 + 1, e3 as int);
        assert(t =~= g + seq!['/'] + c + seq!['/'] + m);
        assert(is_id_path(t, g, c, m));
        let p = lemma_chosen_id_path(t);
        assert(p.0 =~= g);
        assert(p.1 =~= c);
        assert(p.2 =~= m);
    }
    match (v1, v2, v3) {
        (Some(a), Some(b), Some(d)) => Some((a, b, d)),
        _ => None,
    }
}

/// Whether the characters `lit` stand in `cs` from position `at` on.
pub(crate) fn has_at(cs: &Vec<char>, at: usize, lit: &[char]) -> (r: bool)
    requires
        at <= cs.len(),
    ensures
        r == (at + lit@.len() <= cs.len() && cs@.subrange(at as int, at + lit@.len()) == lit@),
{
    if lit.len() > cs.len() - at {
        return false;
    }
    let mut i: usize = 0;
    while i < lit.len()
        invariant
            at + lit@.len() <= cs.len(),
            i <= lit.len(),
            forall|j: int| 0 <= j < i ==> cs@[at + j] == lit@[j],
        decreases lit.len() - i,
    {
        if cs[at + i] != lit[i] {
            assert(cs@.subrange(at as int, at + lit@.len())[i as int] != lit@[i as int]);
            return false;
        }
        i = i + 1;
    }
    assert(cs@.subrange(at as int, at + lit@.len()) =~= lit@);
    true
}

/// The length of the URL head that starts `t`, or 0 where none does.
pub open spec fn head_len_of(t: Seq<char>) -> int {
    if t.len() >= 28 && is_url_head(t.take(28)) {
        28
    } else if t.len() >= 29 && is_url_head(t.take(29)) {
        29
    } else {
        0
    }
}

/// The length of the URL head at position `from` of `cs`, or 0 where none
/// stands there.
fn head_len(cs: &Vec<char>, from: usize) -> (r: usize)
    requires
        from <= cs.len(),
    ensures
        r == head_len_of(cs@.skip(from as int)),
{
    let ghost t = cs@.skip(from as int);
    let http = ['h', 't', 't', 'p', ':', '/', '/'];
    let https = ['h', 't', 't', 'p', 's', ':', '/', '/'];
    let discord = ['d', 'i', 's', 'c', 'o', 'r', 'd'];
    let com_channels = ['c', 'o', 'm', '/', 'c', 'h', 'a', 'n', 'n', 'e', 'l', 's', '/'];
    let n: usize = if has_at(cs, from, &http) {
        7
    } else if has_at(cs, from, &https) {
        8
    } else {
        proof {
            if t.len() >= 28 && is_url_head(t.take(28)) {
                assert(t.take(28).take(7) =~= cs@.subrange(from as int, from + 7));
                assert(t.take(28).take(7)[4] == ':');
            }
            if t.len() >= 29 && is_url_head(t.take(29)) {
                assert(t.take(29).take(8) =~= cs@.subrange(from as int, from + 8));
                assert(t.take(29).take(8)[4] == 's');
            }
        }
        return 0;
    };
    assert(t[4] == if n == 7 { ':' } else { 's' }) by {
        assert(t[4] == cs@.subrange(from as int, from + n)[4]);
    }
    if has_at(cs, from + n, &discord) && from + n + 7 < cs.len() && cs[from + n + 7] != '\n'
        && has_at(cs, from + n + 8, &com_channels) {
        proof {
            let h = t.take(n + 21);
            assert(h.take(n as int) =~= cs@.subrange(from as int, from + n));
            assert(h.skip(n as int).take(7) =~= cs@.subrange(from + n, from + n + 7));
            assert(h.skip(n as int).skip(8) =~= cs@.subrange(from + n + 8, from + n + 21));
            assert(h.skip(n as int)[7] == cs@[from + n + 7]);
        }
        n + 21
    } else {
        proof {
            let h = t.take(n + 21);
            if t.len() >= n + 21 && is_url_head(h) {
                assert(h.skip(n as int).take(7) =~= cs@.subrange(from + n, from + n + 7));
                assert(h.skip(n as int).skip(8) =~= cs@.subrange(from + n + 8, from + n + 21));
                assert(h.skip(n as int)[7] == cs@[from + n + 7]);
            }
            let other = if n == 7 { 29int } else { 28int };
            if t.len() >= other && is_url_head(t.take(other)) {
                assert(t.take(other).take(other - 21)[4] == t[4]);
            }
        }
        0
    }
}

/// The characters of `s`, in order.
pub(crate) fn chars_of(s: &str) -> (r: Vec<char>)
    ensures
        r@ == s@,
{
    let mut r: Vec<char> = Vec::new();
    for c in it: s.chars()
        invariant
            r@ == it.seq().take(it.index() as int),
    {
        r.push(c);
    }
    r
}

/// The ids of the message URL that fills `cs` from position `from` to its end.
pub(crate) fn parse_chars(cs: &Vec<char>, from: usize) -> (r: Option<(u64, u64, u64)>)
    requires
        from <= cs.len(),
    ensures
        r == message_ref(cs@.skip(from as int)),
{
    let n = head_len(cs, from);
    if n == 0 {
        None
    } else {
        assert(cs@.skip(from as int).skip(n as int) =~= cs@.skip(from + n));
        parse_ids(cs, from + n)
    }
}

/// Splits a message URL `http[s]://discord.com/channels/{guild}/{channel}/{message}`
/// into its guild, channel and message ids.
///
/// The whole of `message` must be the URL. Anything else, an id too large
/// for a `u64` included, gives `None`.
pub fn parse_url(message: &str) -> (r: Option<(u64, u64, u64)>)
    ensures
        r == message_ref(message@),
{
    let cs = chars_of(message);
    assert(cs@.skip(0) =~= cs@);
    parse_chars(&cs, 0)
}

/// `s` is a whole message URL: a head, then three runs of digits separated
/// by slashes, and nothing else.
pub open spec fn is_message_url(s: Seq<char>) -> bool {
    exists|h: Seq<char>, g: Seq<char>, c: Seq<char>, m: Seq<char>|
        is_url_head(h) && is_id_path(s.skip(h.len() as int), g, c, m) && s.take(h.len() as int) == h
}

/// A head of either scheme is told apart by the character after `http`.
proof fn lemma_head_scheme(h: Seq<char>)
    requires
        is_url_head(h),
    ensures
        h[4] == (if h.len() == 28 { ':' } else { 's' }),
{
    let http = seq!['h', 't', 't', 'p', ':', '/', '/'];
    let https = seq!['h', 't', 't', 'p', 's', ':', '/', '/'];
    assert(http.len() == 7 && http[4] == ':');
    assert(https.len() == 8 && https[4] == 's');
    if h.len() == 28 {
        assert(h.take(7)[4] == h[4]);
    } else {
        assert(h.take(8)[4] == h[4]);
    }
}

/// Every whole message URL parses to its three ids, each the decimal value
/// of its digits, where all three fit in a `u64`.
pub proof fn lemma_message_url_parses(
    s: Seq<char>,
    h: Seq<char>,
    g: Seq<char>,
    c: Seq<char>,
    m: Seq<char>,
)
    requires
        is_url_head(h),
        is_decimal(g),
        is_decimal(c),
        is_decimal(m),
        s == h + g + seq!['/'] + c + seq!['/'] + m,
        decimal_value(g) <= u64::MAX,
        decimal_value(c) <= u64::MAX,
        decimal_value(m) <= u64::MAX,
    ensures
        message_ref(s) == Some((decimal_value(g) as u64, decimal_value(c) as u64, decimal_value(m) as u64)),
{
    let k = h.len() as int;
    let t = s.skip(k);
    assert(s.take(k) =~= h);
    assert(t =~= g + seq!['/'] + c + seq!['/'] + m);
    assert(is_id_path(t, g, c, m));
    let p = lemma_chosen_id_path(t);
    lemma_id_path_unique(t, g, c, m, p.0, p.1, p.2);
    lemma_head_scheme(h);
    if k == 29 && s.len() >= 28 && is_url_head(s.take(28)) {
        lemma_head_scheme(s.take(28));
        assert(s.take(28)[4] == h[4]);
    }
}

/// Text that is not a whole message URL does not parse.
pub proof fn lemma_non_url_rejected(s: Seq<char>)
    requires
        !is_message_url(s),
    ensures
        message_ref(s) is None,
{
    if message_ref(s) is Some {
        let k = head_len_of(s);
        let h = s.take(k);
        let t = s.skip(k);
        let p = lemma_chosen_id_path(t);
        assert(is_url_head(h) && is_id_path(s.skip(h.len() as int), p.0, p.1, p.2) && s.take(h.len() as int) == h);
    }
}

/// Parsing reads nothing but its text: the same text always gives the same
/// ids, or `None` each time.
pub proof fn lemma_parse_deterministic(a: Seq<char>, b: Seq<char>)
    requires
        a == b,
    ensures
        message_ref(a) == message_ref(b),
{
}

} // verus!
