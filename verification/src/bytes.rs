//! Byte-level text primitives: whitespace-separated fields, exact splitting on
//! a separator byte, decimal number parsing and printing, and lexicographic
//! comparison of byte sequences.

use vstd::prelude::*;
use vstd::slice::slice_subrange;

verus! {

/// A field-separating byte: space, tab, carriage return or line feed.
pub open spec fn is_ws(c: u8) -> bool {
    c == 32 || c == 9 || c == 13 || c == 10
}

/// True when `s` is a non-empty run of ASCII decimal digits.
pub open spec fn is_digits(s: Seq<u8>) -> bool {
    s.len() > 0 && forall|i: int| 0 <= i < s.len() ==> 48 <= #[trigger] s[i] <= 57
}

/// The value of `s` read as a decimal numeral (most significant digit first).
pub open spec fn dec_val(s: Seq<u8>) -> nat
    decreases s.len(),
{
    if s.len() == 0 {
        0
    } else {
        dec_val(s.take(s.len() - 1)) * 10 + (s[s.len() - 1] - 48) as nat
    }
}

/// Extending a numeral with more digits never decreases its value.
proof fn lemma_dec_val_take_le(s: Seq<u8>, i: int)
    requires
        0 <= i <= s.len(),
        is_digits(s),
    ensures
        dec_val(s.take(i)) <= dec_val(s),
    decreases s.len() - i,
{
    if i < s.len() {
        lemma_dec_val_take_le(s, i + 1);
        assert(s.take(i + 1).take(i) =~= s.take(i));
        assert(dec_val(s.take(i + 1)) == dec_val(s.take(i)) * 10 + (s.take(i + 1)[i] - 48) as nat);
    } else {
        assert(s.take(i) =~= s);
    }
}

/// An unsigned decimal numeral as the standard conversions read it: digits,
/// with one optional leading plus sign.
pub open spec fn is_udec(s: Seq<u8>) -> bool {
    if s.len() > 0 && s[0] == 43 {
        is_digits(s.skip(1))
    } else {
        is_digits(s)
    }
}

/// The value of an unsigned decimal numeral, sign stripped.
pub open spec fn udec_val(s: Seq<u8>) -> nat {
    if s.len() > 0 && s[0] == 43 {
        dec_val(s.skip(1))
    } else {
        dec_val(s)
    }
}

/// Parse an unsigned decimal numeral as a `usize`.
///
/// Returns `Some` exactly when `s` is a numeral (an optional `+` then digits)
/// whose value fits the machine word; the result is then that value.
pub fn parse_usize(s: &[u8]) -> (r: Option<usize>)
    ensures
        match r {
            Some(v) => is_udec(s@) && udec_val(s@) == v,
            None => !(is_udec(s@) && udec_val(s@) <= usize::MAX),
        },
{
    if s.len() > 0 && s[0] == 43 {
        let rest = slice_subrange(s, 1, s.len());
        proof {
            assert(rest@ =~= s@.skip(1));
        }
        parse_usize_digits(rest)
    } else {
        parse_usize_digits(s)
    }
}

/// Parse a run of decimal digits (no sign) as a `usize`.
fn parse_usize_digits(s: &[u8]) -> (r: Option<usize>)
    ensures
        match r {
            Some(v) => is_digits(s@) && dec_val(s@) == v,
            None => !(is_digits(s@) && dec_val(s@) <= usize::MAX),
        },
{
    if s.len() == 0 {
        return None;
    }
    let mut acc: usize = 0;
    let mut i: usize = 0;
    while i < s.len()
        invariant
            0 <= i <= s@.len(),
            is_digits(s@.take(i as int)) || i == 0,
            forall|j: int| 0 <= j < i ==> 48 <= #[trigger] s@[j] <= 57,
            acc == dec_val(s@.take(i as int)),
        decreases s@.len() - i,
    {
        let c = s[i];
        if c < 48 || c > 57 {
            assert(!is_digits(s@));
            return None;
        }
        let d = (c - 48) as usize;
        if acc > (usize::MAX - d) / 10 {
            proof {
                assert(s@.take(i + 1).take(i as int) =~= s@.take(i as int));
                assert(dec_val(s@.take(i + 1)) == acc * 10 + d);
                assert(acc * 10 + d > usize::MAX) by (nonlinear_arith)
                    requires
                        acc > (usize::MAX - d) / 10,
                        0 <= d <= 9,
                ;
                if is_digits(s@) {
                    lemma_dec_val_take_le(s@, i + 1);
                }
            }
            return None;
        }
        proof {
            assert(acc * 10 + d <= usize::MAX) by (nonlinear_arith)
                requires
                    acc <= (usize::MAX - d) / 10,
                    0 <= d <= 9,
            ;
            assert(s@.take(i + 1).take(i as int) =~= s@.take(i as int));
            assert(dec_val(s@.take(i + 1)) == acc * 10 + d);
        }
        acc = acc * 10 + d;
        i = i + 1;
    }
    proof {
        assert(s@.take(i as int) =~= s@);
    }
    Some(acc)
}

/// Length of the maximal non-whitespace prefix of `s`.
pub open spec fn token_len(s: Seq<u8>) -> int
    decreases s.len(),
{
    if s.len() == 0 || is_ws(s[0]) {
        0
    } else {
        1 + token_len(s.skip(1))
    }
}

proof fn lemma_token_len_bounds(s: Seq<u8>)
    ensures
        0 <= token_len(s) <= s.len(),
        forall|i: int| 0 <= i < token_len(s) ==> !is_ws(#[trigger] s[i]),
        token_len(s) < s.len() ==> is_ws(s[token_len(s)]),
        token_len(s) > 0 ==> !is_ws(s[0]),
    decreases s.len(),
{
    if s.len() > 0 && !is_ws(s[0]) {
        lemma_token_len_bounds(s.skip(1));
        assert forall|i: int| 0 <= i < token_len(s) implies !is_ws(#[trigger] s[i]) by {
            if i > 0 {
                assert(s[i] == s.skip(1)[i - 1]);
            }
        }
        if token_len(s) < s.len() {
            assert(s[token_len(s)] == s.skip(1)[token_len(s) - 1]);
        }
    }
}

/// The whitespace-separated fields of a line, in order; runs of separators
/// count as one, and leading or trailing separators are ignored.
pub open spec fn spec_fields(s: Seq<u8>) -> Seq<Seq<u8>>
    decreases s.len(),
{
    if s.len() == 0 {
        Seq::empty()
    } else if is_ws(s[0]) {
        spec_fields(s.skip(1))
    } else {
        let t = token_len(s);
        if 0 < t <= s.len() {
            seq![s.take(t)] + spec_fields(s.skip(t))
        } else {
            Seq::empty()
        }
    }
}

/// Split a line into its whitespace-separated fields.
pub fn split_fields(line: &[u8]) -> (r: Vec<Vec<u8>>)
    ensures
        r.deep_view() == spec_fields(line@),
{
    let n = line.len();
    let mut r: Vec<Vec<u8>> = Vec::new();
    let mut pos: usize = 0;
    proof {
        assert(line@.skip(0) =~= line@);
    }
    while pos < n
        invariant
            0 <= pos <= n,
            n == line@.len(),
            spec_fields(line@) == r.deep_view() + spec_fields(line@.skip(pos as int)),
        decreases n - pos,
    {
        if is_ws_exec(line[pos]) {
            proof {
                assert(line@.skip(pos as int).skip(1) =~= line@.skip(pos + 1));
            }
            pos = pos + 1;
        } else {
            let start = pos;
            let ghost rest = line@.skip(start as int);
            let mut end = pos + 1;
            proof {
                lemma_token_len_bounds(rest);
                assert(rest.skip(1) =~= line@.skip(start + 1));
            }
            while end < n && !is_ws_exec(line[end])
                invariant
                    start < end <= n,
                    n == line@.len(),
                    rest == line@.skip(start as int),
                    token_len(rest) == (end - start) + token_len(line@.skip(end as int)),
                decreases n - end,
            {
                proof {
                    let tail = line@.skip(end as int);
                    assert(tail[0] == line@[end as int]);
                    assert(tail.skip(1) =~= line@.skip(end + 1));
                }
                end = end + 1;
            }
            proof {
                let tail = line@.skip(end as int);
                if end < n {
                    assert(tail[0] == line@[end as int]);
                }
                assert(token_len(rest) == end - start);
                lemma_token_len_bounds(rest);
                assert(rest.take((end - start) as int) =~= line@.subrange(start as int, end as int));
            }
            let field = slice_to_vec_u8(line, start, end);
            let ghost prev = r.deep_view();
            r.push(field);
            proof {
                assert(rest.skip((end - start) as int) =~= line@.skip(end as int));
                assert(r.deep_view() =~~= prev.push(line@.subrange(start as int, end as int)));
                assert(r.deep_view() + spec_fields(line@.skip(end as int)) =~~= prev + (seq![
                    line@.subrange(start as int, end as int),
                ] + spec_fields(line@.skip(end as int))));
            }
            pos = end;
        }
    }
    proof {
        assert(line@.skip(pos as int) =~= Seq::<u8>::empty());
        assert(r.deep_view() =~~= r.deep_view() + spec_fields(line@.skip(pos as int)));
    }
    r
}

/// Run-time test for a field-separating byte.
pub fn is_ws_exec(c: u8) -> (r: bool)
    ensures
        r == is_ws(c),
{
    c == 32 || c == 9 || c == 13 || c == 10
}

/// Index of the first occurrence of `sep` in `s`, or `s.len()` when absent.
pub open spec fn first_occurrence(s: Seq<u8>, sep: u8) -> int
    decreases s.len(),
{
    if s.len() == 0 {
        0
    } else if s[0] == sep {
        0
    } else {
        1 + first_occurrence(s.skip(1), sep)
    }
}

proof fn lemma_first_occurrence(s: Seq<u8>, sep: u8)
    ensures
        0 <= first_occurrence(s, sep) <= s.len(),
        forall|i: int| 0 <= i < first_occurrence(s, sep) ==> #[trigger] s[i] != sep,
        first_occurrence(s, sep) < s.len() ==> s[first_occurrence(s, sep)] == sep,
    decreases s.len(),
{
    if s.len() > 0 && s[0] != sep {
        lemma_first_occurrence(s.skip(1), sep);
        let f = first_occurrence(s, sep);
        assert forall|i: int| 0 <= i < f implies #[trigger] s[i] != sep by {
            if i > 0 {
                assert(s[i] == s.skip(1)[i - 1]);
            }
        }
        if f < s.len() {
            assert(s[f] == s.skip(1)[f - 1]);
        }
    }
}

/// `s` cut at every occurrence of `sep`; `n` separators give `n + 1` parts,
/// and empty parts are kept.
pub open spec fn spec_split(s: Seq<u8>, sep: u8) -> Seq<Seq<u8>>
    decreases s.len(),
{
    let f = first_occurrence(s, sep);
    if 0 <= f < s.len() {
        seq![s.take(f)] + spec_split(s.skip(f + 1), sep)
    } else {
        seq![s]
    }
}

/// Split `s` at every occurrence of `sep`, keeping empty parts.
pub fn split_by(s: &[u8], sep: u8) -> (r: Vec<Vec<u8>>)
    ensures
        r.deep_view() == spec_split(s@, sep),
        r@.len() > 0,
{
    let n = s.len();
    let mut r: Vec<Vec<u8>> = Vec::new();
    let mut start: usize = 0;
    let mut i: usize = 0;
    proof {
        assert(s@.skip(0) =~= s@);
    }
    while i < n
        invariant
            0 <= start <= i <= n,
            n == s@.len(),
            forall|j: int| start <= j < i ==> #[trigger] s@[j] != sep,
            spec_split(s@, sep) == r.deep_view() + spec_split(s@.skip(start as int), sep),
        decreases n - i,
    {
        if s[i] == sep {
            let part = slice_to_vec_u8(s, start, i);
            let ghost prev = r.deep_view();
            r.push(part);
            proof {
                let rest = s@.skip(start as int);
                lemma_first_occ_prefix(rest, sep, (i - start) as int);
                assert(rest.take((i - start) as int) =~= s@.subrange(start as int, i as int));
                assert(rest.skip(i - start + 1) =~= s@.skip(i + 1));
                assert(r.deep_view() =~~= prev.push(s@.subrange(start as int, i as int)));
                assert(r.deep_view() + spec_split(s@.skip(i + 1), sep) =~~= prev + (seq![
                    s@.subrange(start as int, i as int),
                ] + spec_split(s@.skip(i + 1), sep)));
            }
            start = i + 1;
        }
        i = i + 1;
    }
    let part = slice_to_vec_u8(s, start, n);
    let ghost prev = r.deep_view();
    r.push(part);
    proof {
        let rest = s@.skip(start as int);
        lemma_first_occ_none(rest, sep);
        assert(rest =~= s@.subrange(start as int, n as int));
        assert(r.deep_view() =~~= prev.push(rest));
        assert(r.deep_view() =~~= prev + seq![rest]);
    }
    r
}

/// When the first `k` bytes of `s` avoid `sep` and `s[k] == sep`, the first
/// occurrence is exactly `k`.
proof fn lemma_first_occ_prefix(s: Seq<u8>, sep: u8, k: int)
    requires
        0 <= k < s.len(),
        forall|j: int| 0 <= j < k ==> #[trigger] s[j] != sep,
        s[k] == sep,
    ensures
        first_occurrence(s, sep) == k,
    decreases k,
{
    if k > 0 {
        assert(s.skip(1)[k - 1] == s[k]);
        assert forall|j: int| 0 <= j < k - 1 implies #[trigger] s.skip(1)[j] != sep by {
            assert(s.skip(1)[j] == s[j + 1]);
        }
        lemma_first_occ_prefix(s.skip(1), sep, k - 1);
    }
}

/// When no byte of `s` is `sep`, the first occurrence is `s.len()`.
proof fn lemma_first_occ_none(s: Seq<u8>, sep: u8)
    requires
        forall|j: int| 0 <= j < s.len() ==> #[trigger] s[j] != sep,
    ensures
        first_occurrence(s, sep) == s.len(),
    decreases s.len(),
{
    if s.len() > 0 {
        assert forall|j: int| 0 <= j < s.skip(1).len() implies #[trigger] s.skip(1)[j] != sep by {
            assert(s.skip(1)[j] == s[j + 1]);
        }
        lemma_first_occ_none(s.skip(1), sep);
    }
}

/// Lexicographic order on byte strings: a proper prefix comes first, and
/// otherwise the first differing byte decides.
pub open spec fn lex_le(a: Seq<u8>, b: Seq<u8>) -> bool
    decreases a.len(),
{
    if a.len() == 0 {
        true
    } else if b.len() == 0 {
        false
    } else if a[0] < b[0] {
        true
    } else if a[0] > b[0] {
        false
    } else {
        lex_le(a.skip(1), b.skip(1))
    }
}

/// Any two byte strings are ordered one way or the other.
pub proof fn lemma_lex_le_total(a: Seq<u8>, b: Seq<u8>)
    ensures
        lex_le(a, b) || lex_le(b, a),
    decreases a.len(),
{
    if a.len() > 0 && b.len() > 0 && a[0] == b[0] {
        lemma_lex_le_total(a.skip(1), b.skip(1));
    }
}

/// Byte strings ordered both ways are equal.
pub proof fn lemma_lex_le_antisym(a: Seq<u8>, b: Seq<u8>)
    requires
        lex_le(a, b),
        lex_le(b, a),
    ensures
        a == b,
    decreases a.len(),
{
    if a.len() == 0 {
        assert(a =~= b);
    } else {
        lemma_lex_le_antisym(a.skip(1), b.skip(1));
        assert(a =~= seq![a[0]] + a.skip(1));
        assert(b =~= seq![b[0]] + b.skip(1));
    }
}

/// Lexicographic order is transitive.
pub proof fn lemma_lex_le_trans(a: Seq<u8>, b: Seq<u8>, c: Seq<u8>)
    requires
        lex_le(a, b),
        lex_le(b, c),
    ensures
        lex_le(a, c),
    decreases a.len(),
{
    if a.len() > 0 && b.len() > 0 && c.len() > 0 && a[0] == b[0] && b[0] == c[0] {
        lemma_lex_le_trans(a.skip(1), b.skip(1), c.skip(1));
    }
}

/// Compare two byte strings lexicographically.
pub fn lex_le_exec(a: &[u8], b: &[u8]) -> (r: bool)
    ensures
        r == lex_le(a@, b@),
{
    let mut i: usize = 0;
    proof {
        assert(a@.skip(0) =~= a@);
        assert(b@.skip(0) =~= b@);
    }
    while i < a.len() && i < b.len()
        invariant
            0 <= i <= a@.len(),
            0 <= i <= b@.len(),
            lex_le(a@, b@) == lex_le(a@.skip(i as int), b@.skip(i as int)),
        decreases a@.len() - i,
    {
        let x = a[i];
        let y = b[i];
        proof {
            assert(a@.skip(i as int)[0] == a@[i as int]);
            assert(b@.skip(i as int)[0] == b@[i as int]);
            assert(a@.skip(i as int).skip(1) =~= a@.skip(i + 1));
            assert(b@.skip(i as int).skip(1) =~= b@.skip(i + 1));
        }
        if x < y {
            return true;
        }
        if x > y {
            return false;
        }
        i = i + 1;
    }
    proof {
        if i == a@.len() {
            assert(a@.skip(i as int) =~= Seq::<u8>::empty());
        } else {
            assert(b@.skip(i as int) =~= Seq::<u8>::empty());
            assert(a@.skip(i as int).len() > 0);
        }
    }
    i == a.len()
}

/// Byte-wise equality of two byte strings.
pub fn bytes_eq(a: &[u8], b: &[u8]) -> (r: bool)
    ensures
        r == (a@ == b@),
{
    if a.len() != b.len() {
        return false;
    }
    let mut i: usize = 0;
    while i < a.len()
        invariant
            0 <= i <= a@.len(),
            a@.len() == b@.len(),
            forall|j: int| 0 <= j < i ==> a@[j] == b@[j],
        decreases a@.len() - i,
    {
        if a[i] != b[i] {
            return false;
        }
        i = i + 1;
    }
    proof {
        assert(a@ =~= b@);
    }
    true
}

/// Parse an unsigned decimal numeral (optional `+` then digits) as a `u64`.
pub fn parse_u64(s: &[u8]) -> (r: Option<u64>)
    ensures
        match r {
            Some(v) => is_udec(s@) && udec_val(s@) == v,
            None => !(is_udec(s@) && udec_val(s@) <= u64::MAX),
        },
{
    if s.len() > 0 && s[0] == 43 {
        let rest = slice_subrange(s, 1, s.len());
        proof {
            assert(rest@ =~= s@.skip(1));
        }
        parse_u64_digits(rest)
    } else {
        parse_u64_digits(s)
    }
}

/// Parse a run of decimal digits (no sign) as a `u64`.
fn parse_u64_digits(s: &[u8]) -> (r: Option<u64>)
    ensures
        match r {
            Some(v) => is_digits(s@) && dec_val(s@) == v,
            None => !(is_digits(s@) && dec_val(s@) <= u64::MAX),
        },
{
    if s.len() == 0 {
        return None;
    }
    let mut acc: u64 = 0;
    let mut i: usize = 0;
    while i < s.len()
        invariant
            0 <= i <= s@.len(),
            forall|j: int| 0 <= j < i ==> 48 <= #[trigger] s@[j] <= 57,
            acc == dec_val(s@.take(i as int)),
        decreases s@.len() - i,
    {
        let c = s[i];
        if c < 48 || c > 57 {
            assert(!is_digits(s@));
            return None;
        }
        let d = (c - 48) as u64;
        if acc > (u64::MAX - d) / 10 {
            proof {
                assert(s@.take(i + 1).take(i as int) =~= s@.take(i as int));
                assert(dec_val(s@.take(i + 1)) == acc * 10 + d);
                assert(acc * 10 + d > u64::MAX) by (nonlinear_arith)
                    requires
                        acc > (u64::MAX - d) / 10,
                        0 <= d <= 9,
                ;
                if is_digits(s@) {
                    lemma_dec_val_take_le(s@, i + 1);
                }
            }
            return None;
        }
        proof {
            assert(acc * 10 + d <= u64::MAX) by (nonlinear_arith)
                requires
                    acc <= (u64::MAX - d) / 10,
                    0 <= d <= 9,
            ;
            assert(s@.take(i + 1).take(i as int) =~= s@.take(i as int));
            assert(dec_val(s@.take(i + 1)) == acc * 10 + d);
        }
        acc = acc * 10 + d;
        i = i + 1;
    }
    proof {
        assert(s@.take(i as int) =~= s@);
    }
    Some(acc)
}

/// True when `s` is a decimal integer numeral with one optional leading sign,
/// as the standard conversions read it.
pub open spec fn is_int_str(s: Seq<u8>) -> bool {
    if s.len() > 0 && s[0] == 45 {
        is_digits(s.skip(1))
    } else {
        is_udec(s)
    }
}

/// The signed value of an integer numeral.
pub open spec fn int_val(s: Seq<u8>) -> int {
    if s.len() > 0 && s[0] == 45 {
        -(dec_val(s.skip(1)) as int)
    } else {
        udec_val(s) as int
    }
}

/// Parse a signed decimal numeral as an `i64`.
pub fn parse_i64(s: &[u8]) -> (r: Option<i64>)
    ensures
        match r {
            Some(v) => is_int_str(s@) && int_val(s@) == v,
            None => !(is_int_str(s@) && i64::MIN <= int_val(s@) <= i64::MAX),
        },
{
    if s.len() > 0 && s[0] == 45 {
        let rest = slice_subrange(s, 1, s.len());
        proof {
            assert(rest@ =~= s@.skip(1));
        }
        match parse_u64_digits(rest) {
            Some(v) => {
                if v <= 9223372036854775807u64 {
                    Some(-(v as i64))
                } else if v == 9223372036854775808u64 {
                    Some(i64::MIN)
                } else {
                    None
                }
            },
            None => None,
        }
    } else {
        match parse_u64(s) {
            Some(v) => {
                if v <= 9223372036854775807u64 {
                    Some(v as i64)
                } else {
                    None
                }
            },
            None => None,
        }
    }
}

/// The decimal numeral of `n`, most significant digit first.
pub open spec fn u_dec(n: nat) -> Seq<u8>
    decreases n,
{
    if n < 10 {
        seq![(48 + n) as u8]
    } else {
        u_dec(n / 10).push((48 + n % 10) as u8)
    }
}

/// The decimal numeral of a signed value, with a leading minus when negative.
pub open spec fn i_dec(v: int) -> Seq<u8> {
    if v < 0 {
        seq![45u8] + u_dec((-v) as nat)
    } else {
        u_dec(v as nat)
    }
}

/// Append the decimal numeral of `n` to `out`.
pub fn push_u_dec(n: u64, out: &mut Vec<u8>)
    ensures
        final(out)@ == old(out)@ + u_dec(n as nat),
    decreases n,
{
    if n < 10 {
        out.push(48 + n as u8);
        proof {
            assert(out@ =~= old(out)@ + u_dec(n as nat));
        }
    } else {
        push_u_dec(n / 10, out);
        out.push(48 + (n % 10) as u8);
        proof {
            assert(out@ =~= old(out)@ + u_dec(n as nat));
        }
    }
}

/// Append the decimal numeral of `v`, minus sign included, to `out`.
pub fn push_i_dec(v: i64, out: &mut Vec<u8>)
    ensures
        final(out)@ == old(out)@ + i_dec(v as int),
{
    if v < 0 {
        out.push(45);
        let m: u64 = if v == i64::MIN {
            9223372036854775808u64
        } else {
            (-v) as u64
        };
        push_u_dec(m, out);
        proof {
            assert(out@ =~= old(out)@ + i_dec(v as int));
        }
    } else {
        push_u_dec(v as u64, out);
    }
}

/// Copy a slice of indices into an owned vector.
pub fn slice_to_vec_usize(s: &[usize]) -> (r: Vec<usize>)
    ensures
        r@ == s@,
{
    let mut r: Vec<usize> = Vec::new();
    let mut i: usize = 0;
    while i < s.len()
        invariant
            0 <= i <= s@.len(),
            r@ == s@.take(i as int),
        decreases s@.len() - i,
    {
        r.push(s[i]);
        proof {
            assert(s@.take(i + 1) =~= s@.take(i as int).push(s@[i as int]));
        }
        i = i + 1;
    }
    proof {
        assert(s@.take(i as int) =~= s@);
    }
    r
}

/// Copy `s[start..end]` into an owned vector.
pub fn slice_to_vec_u8(s: &[u8], start: usize, end: usize) -> (r: Vec<u8>)
    requires
        0 <= start <= end <= s@.len(),
    ensures
        r@ == s@.subrange(start as int, end as int),
{
    let mut r: Vec<u8> = Vec::new();
    let mut i = start;
    while i < end
        invariant
            start <= i <= end <= s@.len(),
            r@ == s@.subrange(start as int, i as int),
        decreases end - i,
    {
        r.push(s[i]);
        proof {
            assert(s@.subrange(start as int, i + 1) =~= s@.subrange(start as int, i as int).push(s@[i as int]));
        }
        i = i + 1;
    }
    r
}

} // verus!
