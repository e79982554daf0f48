//! The persisted ranking of finished games: newline-delimited records of
//! the form `name: score`, kept in descending order of score. Malformed
//! records are skipped on load; the caller does the file I/O and hands the
//! raw bytes in and out.

use vstd::prelude::*;
use crate::YahtzeeError;

verus! {

/// One ranking record: a free-text display name and the final score.
#[derive(Debug)]
pub struct Highscore {
    pub name: Vec<u8>,
    pub score: i32,
}

impl View for Highscore {
    type V = (Seq<u8>, int);

    open spec fn view(&self) -> (Seq<u8>, int) {
        (self.name@, self.score as int)
    }
}

/// The records of a ranking list, as (name, score) pairs.
pub open spec fn views(s: Seq<Highscore>) -> Seq<(Seq<u8>, int)> {
    s.map_values(|h: Highscore| h@)
}

/// ASCII whitespace, as trimmed around the score field.
pub open spec fn is_ws(b: u8) -> bool {
    b == 32 || b == 9 || b == 10 || b == 13 || b == 11 || b == 12
}

/// An ASCII decimal digit.
pub open spec fn is_digit(b: u8) -> bool {
    48 <= b <= 57
}

/// The position of the first occurrence of `b` in `s`, or `s.len()` if
/// there is none.
pub open spec fn first_index(s: Seq<u8>, b: u8) -> int
    decreases s.len(),
{
    if s.len() == 0 {
        0
    } else if s[0] == b {
        0
    } else {
        1 + first_index(s.skip(1), b)
    }
}

/// How many times `b` occurs in `s`.
pub open spec fn count_byte(s: Seq<u8>, b: u8) -> nat
    decreases s.len(),
{
    if s.len() == 0 {
        0
    } else {
        count_byte(s.drop_last(), b) + if s.last() == b {
            1nat
        } else {
            0nat
        }
    }
}

pub proof fn lemma_first_index_props(s: Seq<u8>, b: u8)
    ensures
        0 <= first_index(s, b) <= s.len(),
        forall|j: int| 0 <= j < first_index(s, b) ==> s[j] != b,
        first_index(s, b) < s.len() ==> s[first_index(s, b)] == b,
    decreases s.len(),
{
    if s.len() > 0 && s[0] != b {
        lemma_first_index_props(s.skip(1), b);
        assert forall|j: int| 0 <= j < first_index(s, b) implies s[j] != b by {
            if j > 0 {
                assert(s.skip(1)[j - 1] == s[j]);
            }
        }
        if first_index(s, b) < s.len() {
            assert(s.skip(1)[first_index(s, b) - 1] == s[first_index(s, b)]);
        }
    }
}

/// Pins `first_index` down from a scan: no occurrence before `k`, and an
/// occurrence (or the end) at `k`.
pub proof fn lemma_first_index_of(s: Seq<u8>, b: u8, k: int)
    requires
        0 <= k <= s.len(),
        forall|j: int| 0 <= j < k ==> s[j] != b,
        k == s.len() || s[k] == b,
    ensures
        first_index(s, b) == k,
{
    lemma_first_index_props(s, b);
    if first_index(s, b) < k {
        assert(s[first_index(s, b)] == b);
    }
}

pub proof fn lemma_count_byte_zero(s: Seq<u8>, b: u8)
    requires
        forall|j: int| 0 <= j < s.len() ==> s[j] != b,
    ensures
        count_byte(s, b) == 0,
    decreases s.len(),
{
    if s.len() > 0 {
        lemma_count_byte_zero(s.drop_last(), b);
    }
}

pub proof fn lemma_count_byte_concat(a: Seq<u8>, c: Seq<u8>, b: u8)
    ensures
        count_byte(a + c, b) == count_byte(a, b) + count_byte(c, b),
    decreases c.len(),
{
    if c.len() == 0 {
        assert(a + c =~= a);
    } else {
        assert((a + c).drop_last() =~= a + c.drop_last());
        lemma_count_byte_concat(a, c.drop_last(), b);
    }
}

/// The token with leading whitespace removed.
pub open spec fn trim_start(s: Seq<u8>) -> Seq<u8>
    decreases s.len(),
{
    if s.len() > 0 && is_ws(s[0]) {
        trim_start(s.skip(1))
    } else {
        s
    }
}

/// The token with trailing whitespace removed.
pub open spec fn trim_end(s: Seq<u8>) -> Seq<u8>
    decreases s.len(),
{
    if s.len() > 0 && is_ws(s.last()) {
        trim_end(s.drop_last())
    } else {
        s
    }
}

/// The token with whitespace removed from both ends.
pub open spec fn spec_trim(s: Seq<u8>) -> Seq<u8> {
    trim_end(trim_start(s))
}

proof fn lemma_trim_start_skip(s: Seq<u8>, a: int)
    requires
        0 <= a <= s.len(),
        forall|j: int| 0 <= j < a ==> is_ws(s[j]),
        a == s.len() || !is_ws(s[a]),
    ensures
        trim_start(s) == s.skip(a),
    decreases a,
{
    if a == 0 {
        assert(s.skip(0) =~= s);
    } else {
        assert(is_ws(s[0]));
        lemma_trim_start_skip(s.skip(1), a - 1);
        assert(s.skip(1).skip(a - 1) =~= s.skip(a));
    }
}

proof fn lemma_trim_end_take(s: Seq<u8>, m: int)
    requires
        0 <= m <= s.len(),
        forall|j: int| m <= j < s.len() ==> is_ws(s[j]),
        m == 0 || !is_ws(s[m - 1]),
    ensures
        trim_end(s) == s.take(m),
    decreases s.len(),
{
    if m == s.len() {
        assert(s.take(m) =~= s);
    } else {
        assert(is_ws(s.last()));
        lemma_trim_end_take(s.drop_last(), m);
        assert(s.drop_last().take(m) =~= s.take(m));
    }
}

/// The whole trim, read off a scan that found the token at `a..b`.
pub proof fn lemma_trim_subrange(s: Seq<u8>, a: int, b: int)
    requires
        0 <= a <= b <= s.len(),
        forall|j: int| 0 <= j < a ==> is_ws(s[j]),
        forall|j: int| b <= j < s.len() ==> is_ws(s[j]),
        a == b ==> a == s.len(),
        a < b ==> !is_ws(s[a]) && !is_ws(s[b - 1]),
    ensures
        spec_trim(s) == s.subrange(a, b),
{
    lemma_trim_start_skip(s, a);
    assert forall|j: int| b - a <= j < s.skip(a).len() implies is_ws(s.skip(a)[j]) by {
        assert(s.skip(a)[j] == s[j + a]);
    }
    lemma_trim_end_take(s.skip(a), b - a);
    assert(s.skip(a).take(b - a) =~= s.subrange(a, b));
}

/// The value of a string of decimal digits, most significant first.
pub open spec fn digits_val(s: Seq<u8>) -> int
    decreases s.len(),
{
    if s.len() == 0 {
        0
    } else {
        digits_val(s.drop_last()) * 10 + (s.last() - 48)
    }
}

/// A non-empty, all-digit token.
pub open spec fn all_digits(s: Seq<u8>) -> bool {
    s.len() > 0 && forall|i: int| 0 <= i < s.len() ==> is_digit(#[trigger] s[i])
}

pub proof fn lemma_digits_val_nonneg(s: Seq<u8>)
    requires
        forall|i: int| 0 <= i < s.len() ==> is_digit(#[trigger] s[i]),
    ensures
        digits_val(s) >= 0,
    decreases s.len(),
{
    if s.len() > 0 {
        lemma_digits_val_nonneg(s.drop_last());
    }
}

/// A prefix of a digit string never exceeds the whole string's value.
pub proof fn lemma_digits_val_mono(s: Seq<u8>, k: int)
    requires
        0 <= k <= s.len(),
        forall|i: int| 0 <= i < s.len() ==> is_digit(#[trigger] s[i]),
    ensures
        digits_val(s.take(k)) <= digits_val(s),
    decreases s.len() - k,
{
    if k == s.len() {
        assert(s.take(k) =~= s);
    } else {
        assert(s.take(k + 1).drop_last() =~= s.take(k));
        assert(s.take(k + 1).last() == s[k]);
        lemma_digits_val_nonneg(s.take(k));
        assert(digits_val(s.take(k)) <= digits_val(s.take(k + 1)));
        lemma_digits_val_mono(s, k + 1);
    }
}

/// A signed base-10 integer token, as `str::parse::<i32>` accepts it:
/// an optional sign, then digits, the value in range for `i32`.
pub open spec fn int_token_ok(s: Seq<u8>) -> bool {
    if s.len() == 0 {
        false
    } else if s[0] == 45 {
        all_digits(s.skip(1)) && digits_val(s.skip(1)) <= 0x8000_0000
    } else if s[0] == 43 {
        all_digits(s.skip(1)) && digits_val(s.skip(1)) <= 0x7fff_ffff
    } else {
        all_digits(s) && digits_val(s) <= 0x7fff_ffff
    }
}

/// The value of a well-formed integer token.
pub open spec fn int_token_val(s: Seq<u8>) -> int {
    if s.len() > 0 && s[0] == 45 {
        -digits_val(s.skip(1))
    } else if s.len() > 0 && s[0] == 43 {
        digits_val(s.skip(1))
    } else {
        digits_val(s)
    }
}

/// A line is a record when it has exactly one `:` and the part after it,
/// trimmed, is an integer in range.
pub open spec fn line_ok(line: Seq<u8>) -> bool {
    &&& count_byte(line, 58) == 1
    &&& int_token_ok(spec_trim(line.skip(first_index(line, 58) + 1)))
}

/// What a record line denotes: the name before the `:`, untouched, and the
/// number after it.
pub open spec fn spec_parse_line(line: Seq<u8>) -> Option<(Seq<u8>, int)> {
    if line_ok(line) {
        Some(
            (
                line.take(first_index(line, 58)),
                int_token_val(spec_trim(line.skip(first_index(line, 58) + 1))),
            ),
        )
    } else {
        None
    }
}

/// Parses one ranking line as `<name>:<score>`. A line without exactly one
/// `:`, or whose score part does not read as an `i32` after trimming, is a
/// malformed record, which the caller skips.
#[verifier::rlimit(50)]
pub fn parse_highscore_line(line: &[u8]) -> (r: Result<Highscore, YahtzeeError>)
    ensures
        match r {
            Ok(h) => line_ok(line@) && spec_parse_line(line@) == Some(h@),
            Err(e) => e == YahtzeeError::MalformedRecord && !line_ok(line@),
        },
{
    let n = line.len();

    // Find the first colon and count all of them.
    let mut cpos: usize = n;
    let mut ccount: usize = 0;
    let mut i: usize = 0;
    while i < n
        invariant
            n == line@.len(),
            i <= n,
            ccount <= i,
            ccount as nat == count_byte(line@.take(i as int), 58),
            ccount == 0 ==> cpos == n && (forall|j: int| 0 <= j < i ==> line@[j] != 58),
            ccount > 0 ==> cpos < i && line@[cpos as int] == 58 && (forall|j: int|
                0 <= j < cpos ==> line@[j] != 58),
        decreases n - i,
    {
        proof {
            assert(line@.take(i as int + 1).drop_last() =~= line@.take(i as int));
        }
        if line[i] == 58 {
            if ccount == 0 {
                cpos = i;
            }
            ccount += 1;
        }
        i += 1;
    }
    proof {
        assert(line@.take(n as int) =~= line@);
    }
    if ccount != 1 {
        return Err(YahtzeeError::MalformedRecord);
    }
    proof {
        lemma_first_index_of(line@, 58, cpos as int);
    }

    // The name is everything before the colon, untrimmed.
    let mut name: Vec<u8> = Vec::new();
    let mut i: usize = 0;
    while i < cpos
        invariant
            n == line@.len(),
            cpos < n,
            i <= cpos,
            name@ == line@.subrange(0, i as int),
        decreases cpos - i,
    {
        name.push(line[i]);
        i += 1;
    }

    // Trim whitespace around the score token.
    let mut a: usize = cpos + 1;
    while a < n && (line[a] == 32 || line[a] == 9 || line[a] == 10 || line[a] == 13 || line[a]
        == 11 || line[a] == 12)
        invariant
            n == line@.len(),
            cpos + 1 <= a <= n,
            forall|j: int| cpos + 1 <= j < a ==> is_ws(line@[j]),
        decreases n - a,
    {
        a += 1;
    }
    let mut b: usize = n;
    while b > a && (line[b - 1] == 32 || line[b - 1] == 9 || line[b - 1] == 10 || line[b - 1]
        == 13 || line[b - 1] == 11 || line[b - 1] == 12)
        invariant
            n == line@.len(),
            a <= b <= n,
            forall|j: int| b <= j < n ==> is_ws(line@[j]),
        decreases b,
    {
        b -= 1;
    }
    proof {
        let t = line@.skip(cpos as int + 1);
        assert forall|j: int| 0 <= j < a - cpos - 1 implies is_ws(t[j]) by {
            assert(t[j] == line@[j + cpos + 1]);
        }
        assert forall|j: int| b - cpos - 1 <= j < t.len() implies is_ws(t[j]) by {
            assert(t[j] == line@[j + cpos + 1]);
        }
        if a < b {
            assert(!is_ws(line@[a as int]));
            assert(!is_ws(line@[b - 1]));
            assert(t[a - cpos - 1] == line@[a as int]);
            assert(t[b - cpos - 2] == line@[b - 1]);
        } else {
            if a < n {
                assert(!is_ws(line@[a as int]));
                assert(is_ws(line@[a as int]));
            }
        }
        lemma_trim_subrange(t, a - cpos - 1, b - cpos - 1);
        assert(t.subrange(a - cpos - 1, b - cpos - 1) =~= line@.subrange(a as int, b as int));
    }
    let ghost token = line@.subrange(a as int, b as int);
    if a == b {
        return Err(YahtzeeError::MalformedRecord);
    }

    // An optional sign, then digits.
    let neg = line[a] == 45;
    let mut p = a;
    if line[a] == 45 || line[a] == 43 {
        p = p + 1;
    }
    proof {
        assert(token[0] == line@[a as int]);
        if p > a {
            assert(token.skip(1) =~= line@.subrange(p as int, b as int));
        } else {
            assert(token =~= line@.subrange(p as int, b as int));
        }
    }
    if p == b {
        return Err(YahtzeeError::MalformedRecord);
    }
    let ghost tok = line@.subrange(p as int, b as int);
    let mut val: u64 = 0;
    let mut q = p;
    while q < b
        invariant
            n == line@.len(),
            a <= p <= q <= b,
            b <= n,
            p - a <= 1,
            tok == line@.subrange(p as int, b as int),
            token == line@.subrange(a as int, b as int),
            p > a ==> token.skip(1) == tok && (line@[a as int] == 45 || line@[a as int] == 43),
            p == a ==> token == tok && line@[a as int] != 45 && line@[a as int] != 43,
            token.len() > 0,
            token[0] == line@[a as int],
            neg == (line@[a as int] == 45),
            forall|j: int| 0 <= j < q - p ==> is_digit(#[trigger] tok[j]),
            val as int == digits_val(tok.take(q - p)),
            val <= 0x8000_0000,
            spec_trim(line@.skip(cpos as int + 1)) == token,
            first_index(line@, 58) == cpos as int,
            count_byte(line@, 58) == 1,
        decreases b - q,
    {
        let c = line[q];
        if c < 48 || c > 57 {
            proof {
                assert(tok[q - p] == line@[q as int]);
                assert(!all_digits(tok));
                assert(!int_token_ok(token));
            }
            return Err(YahtzeeError::MalformedRecord);
        }
        proof {
            assert(tok.take(q - p + 1).drop_last() =~= tok.take(q - p));
            assert(tok.take(q - p + 1).last() == tok[q - p]);
            assert(tok[q - p] == line@[q as int]);
        }
        val = val * 10 + (c - 48) as u64;
        if val > 0x8000_0000 {
            proof {
                if all_digits(tok) {
                    lemma_digits_val_mono(tok, q - p + 1);
                }
            }
            return Err(YahtzeeError::MalformedRecord);
        }
        q += 1;
    }
    proof {
        assert(tok.take(b - p) =~= tok);
        assert(all_digits(tok));
    }
    let score: i32;
    if neg {
        score = (-(val as i64)) as i32;
    } else {
        if val > 0x7fff_ffff {
            return Err(YahtzeeError::MalformedRecord);
        }
        score = val as i32;
    }
    proof {
        assert(name@ =~= line@.take(cpos as int));
        assert(int_token_ok(token));
        assert(int_token_val(token) == score as int);
    }
    Ok(Highscore { name, score })
}

/// The decimal digits of a non-negative number, most significant first.
pub open spec fn dec_bytes(n: int) -> Seq<u8>
    decreases n,
{
    if n < 0 {
        seq![48u8]
    } else if n < 10 {
        seq![(48 + n) as u8]
    } else {
        dec_bytes(n / 10).push((48 + n % 10) as u8)
    }
}

/// The decimal form of an integer: a minus sign for negative values, then
/// the digits of the magnitude.
pub open spec fn int_bytes(v: int) -> Seq<u8> {
    if v < 0 {
        seq![45u8] + dec_bytes(-v)
    } else {
        dec_bytes(v)
    }
}

pub proof fn lemma_dec_bytes_digits(n: int)
    ensures
        dec_bytes(n).len() > 0,
        forall|i: int| 0 <= i < dec_bytes(n).len() ==> is_digit(#[trigger] dec_bytes(n)[i]),
    decreases n,
{
    if n >= 10 {
        lemma_dec_bytes_digits(n / 10);
        assert forall|i: int| 0 <= i < dec_bytes(n).len() implies is_digit(
            #[trigger] dec_bytes(n)[i],
        ) by {
            if i < dec_bytes(n / 10).len() {
                assert(dec_bytes(n)[i] == dec_bytes(n / 10)[i]);
            }
        }
    }
}

/// Reading the digits back gives the number itself.
pub proof fn lemma_dec_bytes_val(n: int)
    requires
        n >= 0,
    ensures
        digits_val(dec_bytes(n)) == n,
    decreases n,
{
    if n < 10 {
        let s = dec_bytes(n);
        assert(s =~= seq![(48 + n) as u8]);
        assert(s.drop_last() =~= Seq::<u8>::empty());
        assert(digits_val(s) == digits_val(s.drop_last()) * 10 + (s.last() - 48));
    } else {
        lemma_dec_bytes_val(n / 10);
        assert(dec_bytes(n).drop_last() =~= dec_bytes(n / 10));
        assert(n == 10 * (n / 10) + n % 10) by {
            vstd::arithmetic::div_mod::lemma_fundamental_div_mod(n, 10);
        }
    }
}

/// Appends the decimal digits of `m`.
fn push_dec(out: &mut Vec<u8>, m: u32)
    ensures
        final(out)@ == old(out)@ + dec_bytes(m as int),
    decreases m,
{
    if m < 10 {
        out.push(48 + m as u8);
        proof {
            assert(final(out)@ =~= old(out)@ + dec_bytes(m as int));
        }
    } else {
        push_dec(out, m / 10);
        out.push(48 + (m % 10) as u8);
        proof {
            assert(final(out)@ =~= old(out)@ + dec_bytes(m as int));
        }
    }
}

/// One record as persisted: the name, a colon and a space, the score.
pub open spec fn spec_format_entry(e: (Seq<u8>, int)) -> Seq<u8> {
    e.0 + seq![58u8, 32u8] + int_bytes(e.1)
}

/// Renders one record in the persisted shape `name: score`.
pub fn format_highscore(h: &Highscore) -> (r: Vec<u8>)
    ensures
        r@ == spec_format_entry(h@),
{
    let mut out: Vec<u8> = Vec::new();
    let mut i: usize = 0;
    while i < h.name.len()
        invariant
            i <= h.name@.len(),
            out@ == h.name@.subrange(0, i as int),
        decreases h.name@.len() - i,
    {
        out.push(h.name[i]);
        i += 1;
    }
    out.push(58);
    out.push(32);
    if h.score < 0 {
        out.push(45);
        let mag: u32 = (-(h.score as i64)) as u32;
        push_dec(&mut out, mag);
        proof {
            assert(out@ =~= spec_format_entry(h@));
        }
    } else {
        push_dec(&mut out, h.score as u32);
        proof {
            assert(out@ =~= spec_format_entry(h@));
        }
    }
    out
}

/// The persisted image of a ranking list: each record on its own line, in
/// list order.
pub open spec fn spec_persist(es: Seq<(Seq<u8>, int)>) -> Seq<u8>
    decreases es.len(),
{
    if es.len() == 0 {
        Seq::empty()
    } else {
        spec_persist(es.drop_last()) + spec_format_entry(es.last()) + seq![10u8]
    }
}

/// What loading persisted bytes yields: the lines in order, each parsed as
/// a record, the malformed ones skipped.
pub open spec fn spec_load(data: Seq<u8>) -> Seq<(Seq<u8>, int)>
    decreases data.len(),
        via spec_load_dec
{
    if data.len() == 0 {
        Seq::empty()
    } else {
        let p = first_index(data, 10);
        let line = data.take(p);
        let rest = if p == data.len() {
            Seq::<u8>::empty()
        } else {
            data.skip(p + 1)
        };
        match spec_parse_line(line) {
            Some(e) => seq![e] + spec_load(rest),
            None => spec_load(rest),
        }
    }
}

#[via_fn]
proof fn spec_load_dec(data: Seq<u8>) {
    if data.len() > 0 {
        lemma_first_index_props(data, 10);
    }
}

/// Renders the whole ranking list in its persisted shape, one record per
/// line; the caller writes the bytes out, replacing any prior content.
pub fn write_highscores(hs: &Vec<Highscore>) -> (r: Vec<u8>)
    ensures
        r@ == spec_persist(views(hs@)),
{
    let mut out: Vec<u8> = Vec::new();
    let mut i: usize = 0;
    while i < hs.len()
        invariant
            i <= hs@.len(),
            out@ == spec_persist(views(hs@).take(i as int)),
        decreases hs@.len() - i,
    {
        let line = format_highscore(&hs[i]);
        let mut j: usize = 0;
        let ghost sofar = out@;
        while j < line.len()
            invariant
                j <= line@.len(),
                out@ == sofar + line@.subrange(0, j as int),
            decreases line@.len() - j,
        {
            out.push(line[j]);
            j += 1;
        }
        out.push(10);
        proof {
            assert(views(hs@).take(i as int + 1).drop_last() =~= views(hs@).take(i as int));
            assert(views(hs@).take(i as int + 1).last() == hs@[i as int]@);
            assert(line@.subrange(0, line@.len() as int) =~= line@);
            assert(out@ =~= spec_persist(views(hs@).take(i as int + 1)));
        }
        i += 1;
    }
    proof {
        assert(views(hs@).take(hs@.len() as int) =~= views(hs@));
    }
    out
}

/// Parses the persisted bytes back into records, in file order, skipping
/// every malformed line; missing data is simply an empty sequence.
pub fn get_highscores(data: &[u8]) -> (r: Vec<Highscore>)
    ensures
        views(r@) == spec_load(data@),
{
    let n = data.len();
    let mut out: Vec<Highscore> = Vec::new();
    let mut line: Vec<u8> = Vec::new();
    let mut start: usize = 0;
    let mut i: usize = 0;
    proof {
        assert(data@.skip(0) =~= data@);
        assert(views(out@) =~= Seq::<(Seq<u8>, int)>::empty());
        assert(views(out@) + spec_load(data@) =~= spec_load(data@));
        assert(line@ =~= data@.subrange(0, 0));
    }
    while i < n
        invariant
            n == data@.len(),
            start <= i <= n,
            line@ == data@.subrange(start as int, i as int),
            forall|j: int| start <= j < i ==> data@[j] != 10,
            views(out@) + spec_load(data@.skip(start as int)) == spec_load(data@),
        decreases n - i,
    {
        if data[i] == 10 {
            let ghost tail = data@.skip(start as int);
            let ghost pre = out@;
            proof {
                assert forall|j: int| 0 <= j < i - start implies tail[j] != 10 by {
                    assert(tail[j] == data@[j + start]);
                }
                assert(tail[i - start] == data@[i as int]);
                lemma_first_index_of(tail, 10, i - start);
                assert(tail.take(i - start) =~= line@);
                assert(tail.skip(i - start + 1) =~= data@.skip(i as int + 1));
            }
            match parse_highscore_line(line.as_slice()) {
                Ok(h) => {
                    out.push(h);
                    proof {
                        assert(out@.drop_last() =~= pre);
                        assert(views(out@) =~= views(pre).push(h@));
                        assert(spec_load(tail) == seq![h@] + spec_load(data@.skip(i as int + 1)));
                        assert(views(out@) + spec_load(data@.skip(i as int + 1)) =~= views(pre)
                            + spec_load(tail));
                    }
                },
                Err(_) => {
                    proof {
                        assert(spec_load(tail) == spec_load(data@.skip(i as int + 1)));
                    }
                },
            }
            line = Vec::new();
            start = i + 1;
            proof {
                assert(line@ =~= data@.subrange(i as int + 1, i as int + 1));
            }
        } else {
            line.push(data[i]);
            proof {
                assert(line@ =~= data@.subrange(start as int, i as int + 1));
            }
        }
        i += 1;
    }
    let ghost tail = data@.skip(start as int);
    proof {
        assert forall|j: int| 0 <= j < tail.len() implies tail[j] != 10 by {
            assert(tail[j] == data@[j + start]);
        }
        lemma_first_index_of(tail, 10, tail.len() as int);
        assert(tail.take(tail.len() as int) =~= line@);
    }
    if line.len() > 0 {
        let ghost pre = out@;
        match parse_highscore_line(line.as_slice()) {
            Ok(h) => {
                out.push(h);
                proof {
                    assert(out@.drop_last() =~= pre);
                    assert(views(out@) =~= views(pre).push(h@));
                    assert(spec_load(tail) == seq![h@] + spec_load(Seq::<u8>::empty()));
                    assert(seq![h@] + spec_load(Seq::<u8>::empty()) =~= seq![h@]);
                    assert(views(out@) =~= views(pre) + spec_load(tail));
                }
            },
            Err(_) => {
                proof {
                    assert(spec_load(tail) == spec_load(Seq::<u8>::empty()));
                    assert(views(out@) + spec_load(Seq::<u8>::empty()) =~= views(out@));
                }
            },
        }
    } else {
        proof {
            assert(tail =~= Seq::<u8>::empty());
            assert(views(out@) + spec_load(tail) =~= views(out@));
        }
    }
    proof {
        assert(views(out@) =~= spec_load(data@));
    }
    out
}

/// Descending order by score, ties allowed.
pub open spec fn sorted_desc(s: Seq<Highscore>) -> bool {
    forall|i: int, j: int| 0 <= i <= j < s.len() ==> s[i].score >= s[j].score
}

/// The insertion point for a new score: the first position whose existing
/// score is strictly lower, so a new entry lands after equal scores.
pub fn insert_position(hs: &Vec<Highscore>, score: i32) -> (p: usize)
    ensures
        p <= hs@.len(),
        forall|i: int| 0 <= i < p ==> hs@[i].score >= score,
        p < hs@.len() ==> hs@[p as int].score < score,
{
    let mut p: usize = 0;
    while p < hs.len() && hs[p].score >= score
        invariant
            p <= hs@.len(),
            forall|i: int| 0 <= i < p ==> hs@[i].score >= score,
        decreases hs@.len() - p,
    {
        p += 1;
    }
    p
}

/// Inserts a finished game's record at its position; a list already in
/// descending order stays in descending order.
pub fn insert_highscore(hs: &mut Vec<Highscore>, h: Highscore) -> (p: usize)
    ensures
        p <= old(hs)@.len(),
        final(hs)@ == old(hs)@.insert(p as int, h),
        forall|i: int| 0 <= i < p ==> old(hs)@[i].score >= h.score,
        p < old(hs)@.len() ==> old(hs)@[p as int].score < h.score,
        sorted_desc(old(hs)@) ==> sorted_desc(final(hs)@),
{
    let ghost orig = hs@;
    let p = insert_position(hs, h.score);
    let ghost hscore = h.score;
    hs.insert(p, h);
    proof {
        if sorted_desc(orig) {
            assert forall|i: int, j: int|
                0 <= i <= j < hs@.len() implies hs@[i].score >= hs@[j].score by {
                if i < p && j < p {
                    assert(hs@[i] == orig[i] && hs@[j] == orig[j]);
                } else if i < p && j == p {
                    assert(hs@[i] == orig[i]);
                } else if i < p && j > p {
                    assert(hs@[i] == orig[i] && hs@[j] == orig[j - 1]);
                } else if i == p && j > p {
                    assert(hs@[j] == orig[j - 1] && orig[p as int].score >= orig[j - 1].score);
                } else if i > p && j > p {
                    assert(hs@[i] == orig[i - 1] && hs@[j] == orig[j - 1]);
                }
            }
        }
    }
    p
}

/// A record that the persisted shape can carry faithfully: a name free of
/// `:` and of line breaks, and a score that fits an `i32`.
pub open spec fn entry_wf(e: (Seq<u8>, int)) -> bool {
    &&& forall|j: int| 0 <= j < e.0.len() ==> e.0[j] != 58 && e.0[j] != 10
    &&& -0x8000_0000 <= e.1 <= 0x7fff_ffff
}

proof fn lemma_int_bytes_chars(v: int)
    ensures
        int_bytes(v).len() > 0,
        forall|i: int|
            0 <= i < int_bytes(v).len() ==> is_digit(#[trigger] int_bytes(v)[i]) || int_bytes(
                v,
            )[i] == 45,
        is_digit(int_bytes(v).last()),
        !is_ws(int_bytes(v)[0]),
{
    if v < 0 {
        lemma_dec_bytes_digits(-v);
        assert forall|i: int|
            0 <= i < int_bytes(v).len() implies is_digit(#[trigger] int_bytes(v)[i]) || int_bytes(
            v,
        )[i] == 45 by {
            if i > 0 {
                assert(int_bytes(v)[i] == dec_bytes(-v)[i - 1]);
            }
        }
        assert(int_bytes(v).last() == dec_bytes(-v).last());
    } else {
        lemma_dec_bytes_digits(v);
    }
}

/// A well-formed record, rendered and parsed back, is itself; and its
/// rendering holds no line break.
pub proof fn lemma_format_entry_parses(e: (Seq<u8>, int))
    requires
        entry_wf(e),
    ensures
        spec_parse_line(spec_format_entry(e)) == Some(e),
        forall|j: int| 0 <= j < spec_format_entry(e).len() ==> spec_format_entry(e)[j] != 10,
{
    let name = e.0;
    let v = e.1;
    let ib = int_bytes(v);
    let f = spec_format_entry(e);
    lemma_int_bytes_chars(v);

    // No line break anywhere in the record.
    assert forall|j: int| 0 <= j < f.len() implies f[j] != 10 by {
        if j < name.len() {
            assert(f[j] == name[j]);
        } else if j >= name.len() + 2 {
            assert(f[j] == ib[j - name.len() - 2]);
        }
    }

    // Exactly one colon: none in the name, one in the separator, none in
    // the number.
    lemma_count_byte_zero(name, 58);
    lemma_count_byte_zero(ib, 58);
    assert(seq![58u8, 32u8].drop_last() =~= seq![58u8]);
    assert(seq![58u8].drop_last() =~= Seq::<u8>::empty());
    assert(count_byte(Seq::<u8>::empty(), 58) == 0);
    assert(seq![58u8].last() == 58);
    assert(count_byte(seq![58u8], 58) == 1);
    assert(seq![58u8, 32u8].last() == 32);
    assert(count_byte(seq![58u8, 32u8], 58) == 1);
    lemma_count_byte_concat(name, seq![58u8, 32u8], 58);
    lemma_count_byte_concat(name + seq![58u8, 32u8], ib, 58);
    assert(f =~= (name + seq![58u8, 32u8]) + ib);
    assert(count_byte(f, 58) == 1);

    // The colon sits right after the name.
    assert forall|j: int| 0 <= j < name.len() implies f[j] != 58 by {
        assert(f[j] == name[j]);
    }
    assert(f[name.len() as int] == 58);
    lemma_first_index_of(f, 58, name.len() as int);

    // After the colon: one space, then the number; trimming leaves the
    // number alone.
    let t = f.skip(name.len() as int + 1);
    assert(t =~= seq![32u8] + ib);
    assert(t[0] == 32);
    assert(t[1] == ib[0]);
    assert(t[t.len() - 1] == ib.last());
    lemma_trim_subrange(t, 1, t.len() as int);
    assert(t.subrange(1, t.len() as int) =~= ib);

    // The number reads back as the score.
    if v < 0 {
        assert(ib[0] == 45);
        assert(ib.skip(1) =~= dec_bytes(-v));
        lemma_dec_bytes_digits(-v);
        lemma_dec_bytes_val(-v);
        assert(int_token_ok(ib));
        assert(int_token_val(ib) == v);
    } else {
        assert(ib =~= dec_bytes(v));
        lemma_dec_bytes_digits(v);
        lemma_dec_bytes_val(v);
        assert(is_digit(ib[0]));
        assert(int_token_ok(ib));
        assert(int_token_val(ib) == v);
    }
    assert(line_ok(f));
    assert(f.take(name.len() as int) =~= name);
}

proof fn lemma_persist_front(es: Seq<(Seq<u8>, int)>)
    requires
        es.len() > 0,
    ensures
        spec_persist(es) == spec_format_entry(es[0]) + seq![10u8] + spec_persist(es.skip(1)),
    decreases es.len(),
{
    if es.len() == 1 {
        assert(es.drop_last() =~= Seq::<(Seq<u8>, int)>::empty());
        assert(es.skip(1) =~= Seq::<(Seq<u8>, int)>::empty());
        assert(spec_persist(es) =~= spec_format_entry(es[0]) + seq![10u8] + spec_persist(
            es.skip(1),
        ));
    } else {
        lemma_persist_front(es.drop_last());
        assert(es.skip(1).drop_last() =~= es.drop_last().skip(1));
        assert(es.skip(1).last() == es.last());
        assert(es.drop_last()[0] == es[0]);
        assert(spec_persist(es.skip(1)) == spec_persist(es.skip(1).drop_last())
            + spec_format_entry(es.skip(1).last()) + seq![10u8]);
        assert(spec_persist(es) =~= spec_format_entry(es[0]) + seq![10u8] + spec_persist(
            es.skip(1),
        ));
    }
}

/// Persisting a list of well-formed records and loading the bytes back
/// reproduces the records, in order.
pub proof fn lemma_load_persist(es: Seq<(Seq<u8>, int)>)
    requires
        forall|k: int| 0 <= k < es.len() ==> entry_wf(#[trigger] es[k]),
    ensures
        spec_load(spec_persist(es)) == es,
    decreases es.len(),
{
    if es.len() == 0 {
        assert(spec_load(spec_persist(es)) =~= es);
    } else {
        let e0 = es[0];
        let f = spec_format_entry(e0);
        let data = spec_persist(es);
        lemma_persist_front(es);
        lemma_format_entry_parses(e0);
        assert forall|j: int| 0 <= j < f.len() implies data[j] != 10 by {
            assert(data[j] == f[j]);
        }
        assert(data[f.len() as int] == 10);
        lemma_first_index_of(data, 10, f.len() as int);
        assert(data.take(f.len() as int) =~= f);
        assert(data.skip(f.len() as int + 1) =~= spec_persist(es.skip(1)));
        assert forall|k: int| 0 <= k < es.skip(1).len() implies entry_wf(
            #[trigger] es.skip(1)[k],
        ) by {
            assert(es.skip(1)[k] == es[k + 1]);
        }
        lemma_load_persist(es.skip(1));
        assert(spec_load(data) == seq![e0] + es.skip(1));
        assert(seq![e0] + es.skip(1) =~= es);
    }
}

} // verus!
