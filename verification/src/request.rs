//! Wire codec, decode side: turning one raw request buffer into a
//! structured request.
//!
//! The buffer is stripped of its trailing zero padding, decoded as
//! UTF-8, and split into lines. The first line must split on single
//! spaces into exactly three tokens (method, path, version); every
//! later line that contains a colon contributes a header, later
//! duplicates overwriting earlier ones. A buffer that is empty after
//! stripping, or whose first line does not have exactly three tokens,
//! decodes to the empty-method sentinel request that tells the
//! connection loop to stop.

use vstd::prelude::*;
use vstd::string::StrSliceExecFns;
use vstd::string::StringExecFns;
use vstd::utf8::valid_utf8;
use vstd::utf8::decode_utf8;

verus! {

/// Mathematical model of a decoded request.
#[verifier::ext_equal]
pub ghost struct ReqModel {
    pub method: Seq<char>,
    pub path: Seq<char>,
    pub headers: Seq<(Seq<char>, Seq<char>)>,
    pub response_code: u16,
}

/// One parsed request: method and path from the request line, the
/// header pairs in first-appearance order with unique keys, and the
/// status code of the response that was sent for it (0 until then).
pub struct Request {
    pub method: String,
    pub path: String,
    pub headers: Vec<(String, String)>,
    pub response_code: u16,
}

/// The view of the stored header pairs as sequences of characters.
pub open spec fn pairs_view(hs: Seq<(String, String)>) -> Seq<(Seq<char>, Seq<char>)> {
    Seq::new(hs.len(), |i: int| (hs[i].0@, hs[i].1@))
}

impl View for Request {
    type V = ReqModel;

    open spec fn view(&self) -> ReqModel {
        ReqModel {
            method: self.method@,
            path: self.path@,
            headers: pairs_view(self.headers@),
            response_code: self.response_code,
        }
    }
}

/// Decoding fails only when the buffer is not valid UTF-8.
#[derive(Clone, Copy, Debug, PartialEq, Eq, Structural)]
pub enum ParseError {
    InvalidUtf8,
}

/// The Unicode white space characters, the set that `trim` removes.
pub open spec fn is_ws(c: char) -> bool {
    let u = c as u32;
    ||| u == 0x20
    ||| 0x09 <= u && u <= 0x0D
    ||| u == 0x85
    ||| u == 0xA0
    ||| u == 0x1680
    ||| 0x2000 <= u && u <= 0x200A
    ||| u == 0x2028
    ||| u == 0x2029
    ||| u == 0x202F
    ||| u == 0x205F
    ||| u == 0x3000
}

/// Index of the first occurrence of `c` in `s` at or after `i`, or
/// `s.len()` when there is none.
pub open spec fn find_from(s: Seq<char>, c: char, i: int) -> int
    decreases s.len() - i,
{
    if i < 0 || i >= s.len() {
        s.len() as int
    } else if s[i] == c {
        i
    } else {
        find_from(s, c, i + 1)
    }
}

/// `find_from` stays between its start and the sequence's end.
proof fn lemma_find_bounds(s: Seq<char>, c: char, i: int)
    requires
        0 <= i <= s.len(),
    ensures
        i <= find_from(s, c, i) <= s.len(),
    decreases s.len() - i,
{
    if i < s.len() && s[i] != c {
        lemma_find_bounds(s, c, i + 1);
    }
}

/// The buffer with its trailing zero bytes (read padding) removed.
pub open spec fn strip_trailing_zeros(b: Seq<u8>) -> Seq<u8>
    decreases b.len(),
{
    if b.len() > 0 && b.last() == 0 {
        strip_trailing_zeros(b.drop_last())
    } else {
        b
    }
}

/// A line with one carriage return dropped from its end, the shape a
/// line has after being cut at a line feed.
pub open spec fn strip_cr(l: Seq<char>) -> Seq<char> {
    if l.len() > 0 && l.last() == '\r' {
        l.drop_last()
    } else {
        l
    }
}

/// The lines of a text: split at line feeds, each cut segment loses
/// one trailing carriage return, and a final segment without a line
/// feed is kept verbatim.
pub open spec fn lines_of(s: Seq<char>) -> Seq<Seq<char>>
    decreases s.len(),
    via lines_of_decreases
{
    if s.len() == 0 {
        Seq::empty()
    } else {
        let i = find_from(s, '\n', 0);
        if i == s.len() {
            seq![s]
        } else {
            seq![strip_cr(s.take(i))] + lines_of(s.skip(i + 1))
        }
    }
}

#[via_fn]
proof fn lines_of_decreases(s: Seq<char>) {
    lemma_find_bounds(s, '\n', 0);
}

/// The tokens of a line split at every single space; empty tokens are
/// kept, and the empty line yields one empty token.
pub open spec fn split_spaces(s: Seq<char>) -> Seq<Seq<char>>
    decreases s.len(),
    via split_spaces_decreases
{
    let i = find_from(s, ' ', 0);
    if i == s.len() {
        seq![s]
    } else {
        seq![s.take(i)] + split_spaces(s.skip(i + 1))
    }
}

#[via_fn]
proof fn split_spaces_decreases(s: Seq<char>) {
    lemma_find_bounds(s, ' ', 0);
}

/// The sequence without its leading white space.
pub open spec fn trim_start(s: Seq<char>) -> Seq<char>
    decreases s.len(),
{
    if s.len() > 0 && is_ws(s[0]) {
        trim_start(s.drop_first())
    } else {
        s
    }
}

/// The sequence without its trailing white space.
pub open spec fn trim_end(s: Seq<char>) -> Seq<char>
    decreases s.len(),
{
    if s.len() > 0 && is_ws(s.last()) {
        trim_end(s.drop_last())
    } else {
        s
    }
}

/// The sequence without white space on either end.
pub open spec fn trim_spec(s: Seq<char>) -> Seq<char> {
    trim_end(trim_start(s))
}

/// The header a line contributes: the part before the first colon as
/// the key and the trimmed remainder as the value; a line without a
/// colon contributes nothing.
pub open spec fn header_entry(line: Seq<char>) -> Option<(Seq<char>, Seq<char>)> {
    let i = find_from(line, ':', 0);
    if i == line.len() {
        None
    } else {
        Some((line.take(i), trim_spec(line.skip(i + 1))))
    }
}

/// Index of the first pair whose key is `k`, or `ps.len()`.
pub open spec fn key_index(ps: Seq<(Seq<char>, Seq<char>)>, k: Seq<char>, i: int) -> int
    decreases ps.len() - i,
{
    if i < 0 || i >= ps.len() {
        ps.len() as int
    } else if ps[i].0 == k {
        i
    } else {
        key_index(ps, k, i + 1)
    }
}

/// Store a header: overwrite the pair with the same key, or append.
pub open spec fn upsert(
    ps: Seq<(Seq<char>, Seq<char>)>,
    k: Seq<char>,
    v: Seq<char>,
) -> Seq<(Seq<char>, Seq<char>)> {
    let i = key_index(ps, k, 0);
    if i == ps.len() {
        ps.push((k, v))
    } else {
        ps.update(i, (k, v))
    }
}

/// The headers after one more line.
pub open spec fn apply_line(
    ps: Seq<(Seq<char>, Seq<char>)>,
    line: Seq<char>,
) -> Seq<(Seq<char>, Seq<char>)> {
    match header_entry(line) {
        None => ps,
        Some(kv) => upsert(ps, kv.0, kv.1),
    }
}

/// The headers after all the given lines, in order.
pub open spec fn headers_after(
    ps: Seq<(Seq<char>, Seq<char>)>,
    lines: Seq<Seq<char>>,
) -> Seq<(Seq<char>, Seq<char>)>
    decreases lines.len(),
{
    if lines.len() == 0 {
        ps
    } else {
        headers_after(apply_line(ps, lines[0]), lines.drop_first())
    }
}

/// The sentinel request: empty method and path, no headers.
pub open spec fn empty_model() -> ReqModel {
    ReqModel { method: Seq::empty(), path: Seq::empty(), headers: Seq::empty(), response_code: 0 }
}

/// What a decoded text means: the first line must split into exactly
/// three tokens to yield a method and path, and the remaining lines
/// are read as headers; otherwise the sentinel request.
pub open spec fn parse_text(text: Seq<char>) -> ReqModel {
    let lines = lines_of(text);
    if lines.len() == 0 {
        empty_model()
    } else {
        let toks = split_spaces(lines[0]);
        if toks.len() != 3 {
            empty_model()
        } else {
            ReqModel {
                method: toks[0],
                path: toks[1],
                headers: headers_after(Seq::empty(), lines.skip(1)),
                response_code: 0,
            }
        }
    }
}

/// What a raw buffer decodes to: `None` exactly on invalid UTF-8,
/// the sentinel request for a buffer that is empty once its zero
/// padding is stripped, and the parsed text otherwise.
pub open spec fn decode_spec(bytes: Seq<u8>) -> Option<ReqModel> {
    let b = strip_trailing_zeros(bytes);
    if b.len() == 0 {
        Some(empty_model())
    } else if valid_utf8(b) {
        Some(parse_text(decode_utf8(b)))
    } else {
        None
    }
}

/// `find_from` is unchanged by moving the start over a stretch that
/// does not hold the sought character.
proof fn lemma_find_range(s: Seq<char>, c: char, a: int, b: int)
    requires
        0 <= a <= b <= s.len(),
        forall|j: int| a <= j < b ==> s[j] != c,
    ensures
        find_from(s, c, a) == find_from(s, c, b),
    decreases b - a,
{
    if a < b {
        lemma_find_range(s, c, a + 1, b);
    }
}

/// `find_from` on a suffix mirrors `find_from` on the whole sequence.
proof fn lemma_find_skip(s: Seq<char>, c: char, k: int, j: int)
    requires
        0 <= k <= j <= s.len(),
    ensures
        find_from(s.skip(k), c, j - k) == find_from(s, c, j) - k,
    decreases s.len() - j,
{
    if j < s.len() {
        assert(s.skip(k)[j - k] == s[j]);
        if s[j] != c {
            lemma_find_skip(s, c, k, j + 1);
        }
    }
}

/// `key_index` is unchanged by moving the start over pairs whose keys
/// all differ from the sought key.
proof fn lemma_key_index_range(ps: Seq<(Seq<char>, Seq<char>)>, k: Seq<char>, a: int, b: int)
    requires
        0 <= a <= b <= ps.len(),
        forall|j: int| a <= j < b ==> ps[j].0 != k,
    ensures
        key_index(ps, k, a) == key_index(ps, k, b),
    decreases b - a,
{
    if a < b {
        lemma_key_index_range(ps, k, a + 1, b);
    }
}

/// Whether `c` is white space; mirrors `is_ws`.
fn is_ws_exec(c: char) -> (b: bool)
    ensures
        b == is_ws(c),
{
    let u = c as u32;
    u == 0x20 || (0x09 <= u && u <= 0x0D) || u == 0x85 || u == 0xA0 || u == 0x1680 || (0x2000 <= u
        && u <= 0x200A) || u == 0x2028 || u == 0x2029 || u == 0x202F || u == 0x205F || u == 0x3000
}

/// Finds the first occurrence of `c` in `s` at or after `from`.
fn find_char(s: &str, c: char, from: usize) -> (r: usize)
    requires
        from <= s@.len(),
    ensures
        r == find_from(s@, c, from as int),
        from <= r <= s@.len(),
        r < s@.len() ==> s@[r as int] == c,
{
    let n = s.unicode_len();
    let mut i = from;
    while i < n
        invariant
            from <= i <= n,
            n == s@.len(),
            forall|j: int| from <= j < i ==> s@[j] != c,
        decreases n - i,
    {
        if s.get_char(i) == c {
            proof {
                lemma_find_range(s@, c, from as int, i as int);
            }
            return i;
        }
        i += 1;
    }
    proof {
        lemma_find_range(s@, c, from as int, n as int);
    }
    n
}

/// Copies the buffer without its trailing zero bytes.
fn strip_zeros(buf: &[u8]) -> (r: Vec<u8>)
    ensures
        r@ == strip_trailing_zeros(buf@),
{
    let mut end: usize = buf.len();
    proof {
        assert(buf@.take(buf@.len() as int) =~= buf@);
    }
    while end > 0 && buf[end - 1] == 0
        invariant
            end <= buf@.len(),
            strip_trailing_zeros(buf@) == strip_trailing_zeros(buf@.take(end as int)),
        decreases end,
    {
        proof {
            assert(buf@.take(end as int).drop_last() =~= buf@.take(end - 1));
        }
        end -= 1;
    }
    let mut r: Vec<u8> = Vec::new();
    let mut i: usize = 0;
    while i < end
        invariant
            i <= end <= buf@.len(),
            r@ == buf@.take(end as int).take(i as int),
        decreases end - i,
    {
        proof {
            assert(buf@.take(end as int).take(i + 1) =~= buf@.take(end as int).take(
                i as int,
            ).push(buf@[i as int]));
        }
        r.push(buf[i]);
        i += 1;
    }
    proof {
        assert(buf@.take(end as int).take(end as int) =~= buf@.take(end as int));
    }
    r
}

/// Dropping leading white space is taking the suffix that starts at
/// the first character that is not white space.
proof fn lemma_trim_start_skip(s: Seq<char>, a: int)
    requires
        0 <= a <= s.len(),
        forall|j: int| 0 <= j < a ==> is_ws(s[j]),
        a < s.len() ==> !is_ws(s[a]),
    ensures
        trim_start(s) == s.skip(a),
    decreases a,
{
    if a == 0 {
        assert(s.skip(0) =~= s);
    } else {
        assert(s.drop_first() =~= s.skip(1));
        lemma_trim_start_skip(s.skip(1), a - 1);
        assert(s.skip(1).skip(a - 1) =~= s.skip(a));
    }
}

/// Dropping trailing white space is taking the prefix that ends after
/// the last character that is not white space.
proof fn lemma_trim_end_take(s: Seq<char>, b: int)
    requires
        0 <= b <= s.len(),
        forall|j: int| b <= j < s.len() ==> is_ws(s[j]),
        b > 0 ==> !is_ws(s[b - 1]),
    ensures
        trim_end(s) == s.take(b),
    decreases s.len(),
{
    if b == s.len() {
        assert(s.take(b) =~= s);
    } else {
        assert(s.drop_last() =~= s.take(s.len() - 1));
        lemma_trim_end_take(s.take(s.len() - 1), b);
        assert(s.take(s.len() - 1).take(b) =~= s.take(b));
    }
}

/// Copies `s` without white space on either end.
fn trim_str(s: &str) -> (r: String)
    ensures
        r@ == trim_spec(s@),
{
    let n = s.unicode_len();
    let mut a: usize = 0;
    while a < n
        invariant
            a <= n,
            n == s@.len(),
            forall|j: int| 0 <= j < a ==> is_ws(s@[j]),
        ensures
            a <= n,
            n == s@.len(),
            forall|j: int| 0 <= j < a ==> is_ws(s@[j]),
            a < n ==> !is_ws(s@[a as int]),
        decreases n - a,
    {
        if !is_ws_exec(s.get_char(a)) {
            break;
        }
        a += 1;
    }
    let mut b: usize = n;
    while b > a
        invariant
            a <= b <= n,
            n == s@.len(),
            forall|j: int| b <= j < n ==> is_ws(s@[j]),
        ensures
            a <= b <= n,
            n == s@.len(),
            forall|j: int| b <= j < n ==> is_ws(s@[j]),
            b > a ==> !is_ws(s@[b - 1]),
        decreases b,
    {
        if !is_ws_exec(s.get_char(b - 1)) {
            break;
        }
        b -= 1;
    }
    proof {
        lemma_trim_start_skip(s@, a as int);
        lemma_trim_end_take(s@.skip(a as int), b - a);
        assert(s@.skip(a as int).take(b - a) =~= s@.subrange(a as int, b as int));
    }
    String::from_str(s.substring_char(a, b))
}

/// Stores one header pair, overwriting the pair with the same key if
/// one is present and appending otherwise; mirrors `upsert`.
fn headers_insert(hdrs: &mut Vec<(String, String)>, k: String, v: String)
    ensures
        pairs_view(final(hdrs)@) == upsert(pairs_view(old(hdrs)@), k@, v@),
{
    let n = hdrs.len();
    let mut i: usize = 0;
    while i < n
        invariant
            i <= n,
            n == hdrs@.len(),
            hdrs@ == old(hdrs)@,
            forall|j: int| 0 <= j < i ==> pairs_view(hdrs@)[j].0 != k@,
        decreases n - i,
    {
        let hit = hdrs[i].0 == k;
        if hit {
            proof {
                lemma_key_index_range(pairs_view(hdrs@), k@, 0, i as int);
                assert(key_index(pairs_view(hdrs@), k@, 0) == i);
            }
            hdrs.remove(i);
            hdrs.insert(i, (k, v));
            proof {
                assert(pairs_view(hdrs@) =~= upsert(pairs_view(old(hdrs)@), k@, v@));
            }
            return ;
        }
        i += 1;
    }
    proof {
        lemma_key_index_range(pairs_view(hdrs@), k@, 0, n as int);
        assert(key_index(pairs_view(hdrs@), k@, 0) == n);
    }
    hdrs.push((k, v));
    proof {
        assert(pairs_view(hdrs@) =~= upsert(pairs_view(old(hdrs)@), k@, v@));
    }
}

/// Relies on `String::from_utf8`: it succeeds exactly on buffers that
/// are valid UTF-8 and returns their decoded characters.
#[verifier::external_body]
fn bytes_to_string(v: Vec<u8>) -> (r: Option<String>)
    ensures
        r is Some <==> valid_utf8(v@),
        r matches Some(s) ==> s@ == decode_utf8(v@),
{
    String::from_utf8(v).ok()
}

/// Builds the sentinel request that tells the connection loop to stop.
fn empty_request() -> (r: Request)
    ensures
        r@ == empty_model(),
{
    let r = Request {
        method: String::new(),
        path: String::new(),
        headers: Vec::new(),
        response_code: 0,
    };
    proof {
        assert(pairs_view(r.headers@) =~= Seq::<(Seq<char>, Seq<char>)>::empty());
        assert(r@ =~= empty_model());
    }
    r
}

/// Splitting at a space never yields an empty token list.
proof fn lemma_split_spaces_len(s: Seq<char>)
    ensures
        split_spaces(s).len() >= 1,
{
    lemma_find_bounds(s, ' ', 0);
}

/// Parses a decoded request text; mirrors `parse_text`.
fn parse_text_str(s: &str) -> (req: Request)
    ensures
        req@ == parse_text(s@),
{
    let n = s.unicode_len();
    if n == 0 {
        return empty_request();
    }
    let e = find_char(s, '\n', 0);

    // The first line: cut at the line feed, minus one carriage return;
    // without a line feed the whole text is the line, kept verbatim.
    let l1e = if e == n {
        n
    } else if e > 0 && s.get_char(e - 1) == '\r' {
        e - 1
    } else {
        e
    };
    let line1 = s.substring_char(0, l1e);
    proof {
        if e < n {
            if e > 0 && s@[e - 1] == '\r' {
                assert(s@.take(e as int).drop_last() =~= s@.subrange(0, e - 1));
            }
            assert(line1@ == strip_cr(s@.take(e as int)));
        } else {
            assert(s@.subrange(0, n as int) =~= s@);
        }
        assert(lines_of(s@)[0] == line1@);
    }

    // The request line must split on single spaces into exactly three
    // tokens: two separating spaces and no third one.
    let m = line1.unicode_len();
    let i1 = find_char(line1, ' ', 0);
    if i1 == m {
        return empty_request();
    }
    let i2 = find_char(line1, ' ', i1 + 1);
    proof {
        lemma_find_skip(line1@, ' ', i1 + 1, i1 + 1);
    }
    if i2 == m {
        proof {
            assert(split_spaces(line1@.skip(i1 + 1)).len() == 1);
            assert(split_spaces(line1@).len() == 2);
        }
        return empty_request();
    }
    let i3 = find_char(line1, ' ', i2 + 1);
    proof {
        lemma_find_skip(line1@, ' ', i2 + 1, i2 + 1);
        assert(line1@.skip(i1 + 1).skip(i2 - i1) =~= line1@.skip(i2 + 1));
    }
    if i3 < m {
        proof {
            lemma_split_spaces_len(line1@.skip(i2 + 1).skip(i3 - i2));
            assert(split_spaces(line1@.skip(i2 + 1)).len() >= 2);
            assert(split_spaces(line1@.skip(i1 + 1)).len() >= 3);
            assert(split_spaces(line1@).len() >= 4);
        }
        return empty_request();
    }
    proof {
        assert(split_spaces(line1@.skip(i2 + 1)) == seq![line1@.skip(i2 + 1)]);
        assert(split_spaces(line1@.skip(i1 + 1)) == seq![line1@.skip(i1 + 1).take(i2 - i1 - 1)]
            + seq![line1@.skip(i2 + 1)]);
        assert(split_spaces(line1@) == seq![line1@.take(i1 as int)] + (seq![
            line1@.skip(i1 + 1).take(i2 - i1 - 1),
        ] + seq![line1@.skip(i2 + 1)]));
        assert(split_spaces(line1@) =~= seq![
            line1@.take(i1 as int),
            line1@.skip(i1 + 1).take(i2 - i1 - 1),
            line1@.skip(i2 + 1),
        ]);
    }
    let method = String::from_str(line1.substring_char(0, i1));
    let path = String::from_str(line1.substring_char(i1 + 1, i2));
    proof {
        assert(line1@.skip(i1 + 1).take(i2 - i1 - 1) =~= line1@.subrange(i1 + 1, i2 as int));
    }

    // The remaining lines hold the headers.
    let mut headers: Vec<(String, String)> = Vec::new();
    let ghost target = headers_after(Seq::empty(), lines_of(s@).skip(1));
    proof {
        assert(pairs_view(headers@) =~= Seq::<(Seq<char>, Seq<char>)>::empty());
    }
    if e < n {
        proof {
            assert(lines_of(s@).skip(1) =~= lines_of(s@.skip(e + 1)));
        }
        let mut pos = e + 1;
        while pos < n
            invariant
                pos <= n,
                n == s@.len(),
                headers_after(pairs_view(headers@), lines_of(s@.skip(pos as int))) == target,
            decreases n - pos,
        {
            let e2 = find_char(s, '\n', pos);
            let le = if e2 == n {
                n
            } else if e2 > pos && s.get_char(e2 - 1) == '\r' {
                e2 - 1
            } else {
                e2
            };
            let line = s.substring_char(pos, le);
            let ghost suffix = s@.skip(pos as int);
            let ghost rest = if e2 == n {
                Seq::<Seq<char>>::empty()
            } else {
                lines_of(s@.skip(e2 + 1))
            };
            proof {
                lemma_find_skip(s@, '\n', pos as int, pos as int);
                assert(find_from(suffix, '\n', 0) == e2 - pos);
                if e2 == n {
                    assert(suffix =~= s@.subrange(pos as int, n as int));
                    assert(lines_of(suffix) == seq![line@]);
                    assert(lines_of(suffix) =~= seq![line@] + rest);
                } else {
                    assert(suffix.take(e2 - pos) =~= s@.subrange(pos as int, e2 as int));
                    if e2 > pos && s@[e2 - 1] == '\r' {
                        assert(s@.subrange(pos as int, e2 as int).drop_last() =~= s@.subrange(
                            pos as int,
                            e2 - 1,
                        ));
                    }
                    assert(line@ == strip_cr(suffix.take(e2 - pos)));
                    assert(suffix.skip(e2 - pos + 1) =~= s@.skip(e2 + 1));
                    assert(lines_of(suffix) =~= seq![line@] + rest);
                }
                assert((seq![line@] + rest)[0] == line@);
                assert((seq![line@] + rest).drop_first() =~= rest);
            }
            let ghost acc = pairs_view(headers@);
            proof {
                assert(headers_after(acc, lines_of(suffix)) == headers_after(
                    apply_line(acc, line@),
                    rest,
                ));
            }
            let lm = line.unicode_len();
            let ci = find_char(line, ':', 0);
            if ci < lm {
                let key = String::from_str(line.substring_char(0, ci));
                let value = trim_str(line.substring_char(ci + 1, lm));
                proof {
                    assert(line@.subrange(ci + 1, lm as int) =~= line@.skip(ci + 1));
                    assert(header_entry(line@) == Some(
                        (line@.take(ci as int), trim_spec(line@.skip(ci + 1))),
                    ));
                }
                headers_insert(&mut headers, key, value);
                proof {
                    assert(pairs_view(headers@) == apply_line(acc, line@));
                }
            } else {
                proof {
                    assert(header_entry(line@) is None);
                    assert(pairs_view(headers@) == apply_line(acc, line@));
                }
            }
            pos = if e2 == n {
                n
            } else {
                e2 + 1
            };
            proof {
                if pos == n {
                    assert(s@.skip(n as int).len() == 0);
                    assert(lines_of(s@.skip(pos as int)) =~= rest);
                } else {
                    assert(lines_of(s@.skip(pos as int)) == rest);
                }
            }
        }
    } else {
        proof {
            assert(lines_of(s@) == seq![s@]);
            assert(seq![s@].skip(1) =~= Seq::<Seq<char>>::empty());
        }
    }
    let req = Request { method, path, headers, response_code: 0 };
    proof {
        assert(req@ =~= parse_text(s@));
    }
    req
}

impl Request {
    /// Decodes one raw request buffer. The buffer loses its trailing
    /// zero padding; an empty remainder decodes to the sentinel
    /// request, a remainder that is not valid UTF-8 fails, and any
    /// other remainder parses as request line and headers.
    pub fn parse_request(buffer: &[u8]) -> (r: Result<Request, ParseError>)
        ensures
            r is Ok <==> decode_spec(buffer@) is Some,
            r matches Ok(req) ==> Some(req@) == decode_spec(buffer@),
            r matches Err(e) ==> e == ParseError::InvalidUtf8,
    {
        let stripped = strip_zeros(buffer);
        if stripped.len() == 0 {
            return Ok(empty_request());
        }
        let ghost sb = stripped@;
        match bytes_to_string(stripped) {
            None => Err(ParseError::InvalidUtf8),
            Some(text) => {
                let req = parse_text_str(text.as_str());
                Ok(req)
            },
        }
    }
}

/// Law: a well-formed request line — three tokens free of spaces and
/// line breaks, separated by single spaces and ended by `\r\n` —
/// decodes to exactly its first two tokens as method and path,
/// whatever follows on the later lines.
pub proof fn lemma_decode_request_line(
    method: Seq<char>,
    path: Seq<char>,
    version: Seq<char>,
    rest: Seq<char>,
)
    requires
        forall|j: int| 0 <= j < method.len() ==> method[j] != ' ' && method[j] != '\n',
        forall|j: int| 0 <= j < path.len() ==> path[j] != ' ' && path[j] != '\n',
        forall|j: int| 0 <= j < version.len() ==> version[j] != ' ' && version[j] != '\n',
    ensures
        ({
            let text = method + seq![' '] + path + seq![' '] + version + seq!['\r', '\n'] + rest;
            parse_text(text).method == method && parse_text(text).path == path
        }),
{
    let text = method + seq![' '] + path + seq![' '] + version + seq!['\r', '\n'] + rest;
    let ml = method.len() as int;
    let pl = path.len() as int;
    let vl = version.len() as int;
    let nl_at = ml + 1 + pl + 1 + vl + 1;
    assert(text[nl_at] == '\n');
    assert forall|j: int| 0 <= j < nl_at implies text[j] != '\n' by {
        if j < ml {
            assert(text[j] == method[j]);
        } else if j == ml {
            assert(text[j] == ' ');
        } else if j < ml + 1 + pl {
            assert(text[j] == path[j - ml - 1]);
        } else if j == ml + 1 + pl {
            assert(text[j] == ' ');
        } else if j < ml + 1 + pl + 1 + vl {
            assert(text[j] == version[j - ml - 1 - pl - 1]);
        } else {
            assert(text[j] == '\r');
        }
    }
    lemma_find_range(text, '\n', 0, nl_at);
    assert(find_from(text, '\n', 0) == nl_at);
    let line = strip_cr(text.take(nl_at));
    assert(text.take(nl_at).last() == '\r');
    let bare = method + seq![' '] + path + seq![' '] + version;
    assert(line =~= bare);
    assert(lines_of(text)[0] == line);

    assert(bare[ml] == ' ');
    assert forall|j: int| 0 <= j < ml implies bare[j] != ' ' by {
        assert(bare[j] == method[j]);
    }
    lemma_find_range(bare, ' ', 0, ml);
    assert(find_from(bare, ' ', 0) == ml);
    assert(bare.take(ml) =~= method);

    let tail1 = bare.skip(ml + 1);
    assert(tail1 =~= path + seq![' '] + version);
    assert(tail1[pl] == ' ');
    assert forall|j: int| 0 <= j < pl implies tail1[j] != ' ' by {
        assert(tail1[j] == path[j]);
    }
    lemma_find_range(tail1, ' ', 0, pl);
    assert(find_from(tail1, ' ', 0) == pl);
    assert(tail1.take(pl) =~= path);

    let tail2 = tail1.skip(pl + 1);
    assert(tail2 =~= version);
    assert forall|j: int| 0 <= j < tail2.len() implies tail2[j] != ' ' by {
        assert(tail2[j] == version[j]);
    }
    lemma_find_range(tail2, ' ', 0, vl);
    assert(find_from(tail2, ' ', 0) == vl);
    assert(split_spaces(tail2) == seq![tail2]);
    assert(split_spaces(tail1) =~= seq![path, version]);
    assert(split_spaces(bare) =~= seq![method, path, version]);
}

/// Law: a text whose first line does not split into exactly three
/// tokens decodes to the sentinel request, whose empty method ends
/// the connection loop.
pub proof fn lemma_malformed_request_line(text: Seq<char>)
    requires
        lines_of(text).len() == 0 || split_spaces(lines_of(text)[0]).len() != 3,
    ensures
        parse_text(text) == empty_model(),
{
}

/// Law: a buffer that still holds bytes once its padding is stripped
/// and that is not valid UTF-8 fails to decode; the dispatcher answers
/// the failure with `400` and keeps the connection open.
pub proof fn lemma_invalid_utf8_fails(bytes: Seq<u8>)
    requires
        strip_trailing_zeros(bytes).len() > 0,
        !valid_utf8(strip_trailing_zeros(bytes)),
    ensures
        decode_spec(bytes) is None,
{
}

/// Law: a buffer that carries the UTF-8 encoding of a request text,
/// with no trailing zero byte to strip, decodes to exactly what the
/// text parses to; with `lemma_decode_request_line` this carries the
/// request-line law down to the wire bytes.
pub proof fn lemma_decode_bytes(text: Seq<char>)
    requires
        text.len() > 0,
        vstd::utf8::encode_utf8(text).last() != 0,
    ensures
        decode_spec(vstd::utf8::encode_utf8(text)) == Some(parse_text(text)),
{
    let b = vstd::utf8::encode_utf8(text);
    vstd::utf8::encode_utf8_valid_utf8(text);
    vstd::utf8::encode_utf8_decode_utf8(text);
    assert(b == vstd::utf8::encode_scalar(text[0] as u32) + vstd::utf8::encode_utf8(
        text.drop_first(),
    ));
    assert(vstd::utf8::encode_scalar(text[0] as u32).len() >= 1);
    assert(strip_trailing_zeros(b) == b);
}

/// Law: decoding is deterministic, so decoding the same buffer twice
/// yields requests with identical field values.
pub proof fn lemma_decode_idempotent(bytes: Seq<u8>, r1: ReqModel, r2: ReqModel)
    requires
        decode_spec(bytes) == Some(r1),
        decode_spec(bytes) == Some(r2),
    ensures
        r1 == r2,
{
}

} // verus!
