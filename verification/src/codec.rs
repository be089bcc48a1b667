//! The record line format: one JSON object per line, in a fixed canonical
//! shape. Serialization is exact; parsing accepts precisely the canonical
//! images, so a corrupt line is recognized and can be skipped by replay.

use vstd::prelude::*;

use crate::types::{EdgeKind, EdgeView, Item, ItemView, Status};

verus! {

/// `p` occurs in `v` starting at `i`.
pub open spec fn prefix_at(v: Seq<char>, i: int, p: Seq<char>) -> bool {
    0 <= i && i + p.len() <= v.len() && v.subrange(i, i + p.len()) == p
}

/// Splitting a prefix made of two parts.
pub proof fn lemma_split(v: Seq<char>, i: int, p: Seq<char>, q: Seq<char>)
    requires
        prefix_at(v, i, p + q),
    ensures
        prefix_at(v, i, p),
        prefix_at(v, i + p.len(), q),
{
    let pq = p + q;
    assert forall|j: int| 0 <= j < p.len() implies v.subrange(i, i + p.len())[j] == p[j] by {
        assert(v.subrange(i, i + pq.len())[j] == pq[j]);
    }
    assert(v.subrange(i, i + p.len()) =~= p);
    assert forall|j: int| 0 <= j < q.len() implies v.subrange(
        i + p.len(),
        i + p.len() + q.len(),
    )[j] == q[j] by {
        assert(v.subrange(i, i + pq.len())[p.len() + j] == pq[p.len() + j]);
    }
    assert(v.subrange(i + p.len(), i + p.len() + q.len()) =~= q);
}

/// The lowercase hex digit for a value below 16.
pub open spec fn hex_digit(n: int) -> char {
    if n < 10 {
        ((48 + n) as u8) as char
    } else {
        ((87 + n) as u8) as char
    }
}

/// How one character is written inside a quoted string: quote and backslash
/// get a backslash, control characters become `\u00XX`, the rest stand as
/// themselves.
pub open spec fn esc_char(c: char) -> Seq<char> {
    if c == '"' {
        seq!['\\', '"']
    } else if c == '\\' {
        seq!['\\', '\\']
    } else if (c as u32) < 0x20 {
        seq!['\\', 'u', '0', '0', hex_digit((c as u32) as int / 16), hex_digit((c as u32) as int % 16)]
    } else {
        seq![c]
    }
}

/// The escaped image of a whole string.
pub open spec fn esc(s: Seq<char>) -> Seq<char>
    decreases s.len(),
{
    if s.len() == 0 {
        Seq::empty()
    } else {
        esc_char(s[0]) + esc(s.drop_first())
    }
}

/// A quoted string as it stands on a record line.
pub open spec fn quoted(s: Seq<char>) -> Seq<char> {
    seq!['"'] + esc(s) + seq!['"']
}

pub proof fn lemma_esc_concat(a: Seq<char>, b: Seq<char>)
    ensures
        esc(a + b) == esc(a) + esc(b),
    decreases a.len(),
{
    if a.len() == 0 {
        assert(a + b =~= b);
        assert(esc(a) + esc(b) =~= esc(b));
    } else {
        assert((a + b).drop_first() =~= a.drop_first() + b);
        assert((a + b)[0] == a[0]);
        lemma_esc_concat(a.drop_first(), b);
        assert(esc_char(a[0]) + (esc(a.drop_first()) + esc(b)) =~= (esc_char(a[0]) + esc(
            a.drop_first(),
        )) + esc(b));
    }
}

/// Escaping one more character appends its image.
pub proof fn lemma_esc_push(s: Seq<char>, k: int)
    requires
        0 <= k < s.len(),
    ensures
        esc(s.take(k + 1)) == esc(s.take(k)) + esc_char(s[k]),
{
    assert(s.take(k + 1) =~= s.take(k) + seq![s[k]]);
    lemma_esc_concat(s.take(k), seq![s[k]]);
    let single = seq![s[k]];
    assert(single.len() == 1 && single[0] == s[k]);
    assert(single.drop_first() =~= Seq::<char>::empty());
    assert(esc(single.drop_first()) =~= Seq::<char>::empty());
    assert(esc(single) =~= esc_char(s[k]) + esc(single.drop_first()));
    assert(esc_char(s[k]) + Seq::<char>::empty() =~= esc_char(s[k]));
}

/// Distinct values below 16 have distinct hex digits.
pub proof fn lemma_hex_digit_inj(a: int, b: int)
    requires
        0 <= a < 16,
        0 <= b < 16,
        hex_digit(a) == hex_digit(b),
    ensures
        a == b,
{
    assert(hex_digit(a) as u32 == if a < 10 {
        (48 + a) as u32
    } else {
        (87 + a) as u32
    });
    assert(hex_digit(b) as u32 == if b < 10 {
        (48 + b) as u32
    } else {
        (87 + b) as u32
    });
}

/// Whether the input at `i` begins the quoted image of the string `s`.
pub open spec fn quoted_at(v: Seq<char>, i: int, s: Seq<char>) -> bool {
    prefix_at(v, i, quoted(s))
}

/// Check that the characters of `lit` stand in `v` at position `i`.
pub fn expect(v: &Vec<char>, i: usize, lit: &str) -> (r: bool)
    ensures
        r == prefix_at(v@, i as int, lit@),
{
    let n: usize = lit.unicode_len();
    let m: usize = v.len();
    if i > m || n > m - i {
        return false;
    }
    let mut k: usize = 0;
    while k < n
        invariant
            n == lit@.len(),
            m == v@.len(),
            i + n <= m,
            k <= n,
            forall|j: int| 0 <= j < k ==> v@[i + j] == lit@[j],
        decreases n - k,
    {
        if v[i + k] != lit.get_char(k) {
            proof {
                assert(prefix_at(v@, i as int, lit@) ==> v@.subrange(
                    i as int,
                    i + lit@.len(),
                )[k as int] == lit@[k as int]);
            }
            return false;
        }
        k = k + 1;
    }
    proof {
        assert(v@.subrange(i as int, i + lit@.len()) =~= lit@);
    }
    true
}

/// Append the characters of a literal to the output.
pub fn push_lit(out: &mut Vec<char>, lit: &str)
    ensures
        final(out)@ == old(out)@ + lit@,
{
    let n: usize = lit.unicode_len();
    let mut k: usize = 0;
    while k < n
        invariant
            n == lit@.len(),
            k <= n,
            out@ == old(out)@ + lit@.take(k as int),
        decreases n - k,
    {
        out.push(lit.get_char(k));
        proof {
            assert(old(out)@ + lit@.take(k + 1) =~= (old(out)@ + lit@.take(k as int)).push(
                lit@[k as int],
            ));
        }
        k = k + 1;
    }
    proof {
        assert(lit@.take(n as int) =~= lit@);
    }
}

fn push_hex_digit(out: &mut Vec<char>, n: u32)
    requires
        n < 16,
    ensures
        final(out)@ == old(out)@.push(hex_digit(n as int)),
{
    let c: char = if n < 10 {
        ((48 + n) as u8) as char
    } else {
        ((87 + n) as u8) as char
    };
    out.push(c);
}

/// Append the quoted image of a string to the output.
pub fn push_quoted(out: &mut Vec<char>, s: &str)
    ensures
        final(out)@ == old(out)@ + quoted(s@),
{
    out.push('"');
    let n: usize = s.unicode_len();
    let mut k: usize = 0;
    while k < n
        invariant
            n == s@.len(),
            k <= n,
            out@ == old(out)@ + seq!['"'] + esc(s@.take(k as int)),
        decreases n - k,
    {
        let c = s.get_char(k);
        if c == '"' {
            out.push('\\');
            out.push('"');
        } else if c == '\\' {
            out.push('\\');
            out.push('\\');
        } else if (c as u32) < 0x20 {
            out.push('\\');
            out.push('u');
            out.push('0');
            out.push('0');
            push_hex_digit(out, (c as u32) / 16);
            push_hex_digit(out, (c as u32) % 16);
        } else {
            out.push(c);
        }
        proof {
            lemma_esc_push(s@, k as int);
            assert(out@ =~= old(out)@ + seq!['"'] + esc(s@.take(k + 1)));
        }
        k = k + 1;
    }
    out.push('"');
    proof {
        assert(s@.take(n as int) =~= s@);
        assert(out@ =~= old(out)@ + quoted(s@));
    }
}

/// The decimal image of a byte, without leading zeros.
pub open spec fn dec_u8(n: u8) -> Seq<char> {
    if n < 10 {
        seq![hex_digit(n as int)]
    } else if n < 100 {
        seq![hex_digit(n as int / 10), hex_digit(n as int % 10)]
    } else {
        seq![hex_digit(n as int / 100), hex_digit((n as int / 10) % 10), hex_digit(n as int % 10)]
    }
}

/// Append the decimal image of a byte.
pub fn push_dec_u8(out: &mut Vec<char>, n: u8)
    ensures
        final(out)@ == old(out)@ + dec_u8(n),
{
    if n < 10 {
        push_hex_digit(out, n as u32);
        proof {
            assert(out@ =~= old(out)@ + dec_u8(n));
        }
    } else if n < 100 {
        push_hex_digit(out, (n / 10) as u32);
        push_hex_digit(out, (n % 10) as u32);
        proof {
            assert(out@ =~= old(out)@ + dec_u8(n));
        }
    } else {
        push_hex_digit(out, (n / 100) as u32);
        push_hex_digit(out, ((n / 10) % 10) as u32);
        push_hex_digit(out, (n % 10) as u32);
        proof {
            assert(out@ =~= old(out)@ + dec_u8(n));
        }
    }
}

/// A decimal digit.
pub open spec fn is_digit(c: char) -> bool {
    48 <= (c as u32) && (c as u32) <= 57
}

fn hex_val(c: char) -> (r: Option<u32>)
    ensures
        r matches Some(n) ==> n < 16 && hex_digit(n as int) == c,
        r is None ==> forall|n: int| 0 <= n < 16 ==> hex_digit(n) != c,
{
    let u = c as u32;
    if 48 <= u && u <= 57 {
        proof {
            assert(hex_digit((u - 48) as int) as u32 == u);
            assert(hex_digit((u - 48) as int) == c);
        }
        Some(u - 48)
    } else if 97 <= u && u <= 102 {
        proof {
            assert(hex_digit((u - 87) as int) as u32 == u);
            assert(hex_digit((u - 87) as int) == c);
        }
        Some(u - 87)
    } else {
        proof {
            assert forall|n: int| 0 <= n < 16 implies hex_digit(n) != c by {
                if n < 10 {
                    assert(hex_digit(n) as u32 == 48 + n);
                } else {
                    assert(hex_digit(n) as u32 == 87 + n);
                }
            }
        }
        None
    }
}

/// How the quoted image of `s` continues at position `j`, after `k`
/// characters of `s` have been decoded.
pub proof fn lemma_quoted_char_at(v: Seq<char>, i: int, s: Seq<char>, k: int, j: int)
    requires
        quoted_at(v, i, s),
        0 <= k <= s.len(),
        j == i + 1 + esc(s.take(k)).len(),
    ensures
        i + quoted(s).len() <= v.len(),
        k < s.len() ==> j + esc_char(s[k]).len() + 1 <= i + quoted(s).len() && (forall|t: int|
            0 <= t < esc_char(s[k]).len() ==> v[j + t] == esc_char(s[k])[t]),
        k == s.len() ==> j + 1 == i + quoted(s).len() && v[j] == '"',
{
    let tk = s.take(k);
    let sk = s.skip(k);
    assert(tk + sk =~= s);
    lemma_esc_concat(tk, sk);
    let l = quoted(s).len();
    assert(forall|y: int| 0 <= y < l ==> v[i + y] == #[trigger] quoted(s)[y]) by {
        assert(forall|y: int| 0 <= y < l ==> v.subrange(i, i + l)[y] == #[trigger] quoted(s)[y]);
    }
    if k < s.len() {
        assert(sk[0] == s[k]);
        assert(sk.drop_first() =~= s.skip(k + 1));
        assert(esc(sk) == esc_char(s[k]) + esc(s.skip(k + 1)));
        assert forall|t: int| 0 <= t < esc_char(s[k]).len() implies v[j + t] == esc_char(s[k])[t] by {
            let y = 1 + esc(tk).len() + t;
            assert(quoted(s)[y] == esc(s)[y - 1]);
            assert(esc(s)[y - 1] == esc(sk)[t]);
            assert(esc(sk)[t] == esc_char(s[k])[t]);
            assert(v[i + y] == quoted(s)[y]);
        }
    } else {
        assert(tk =~= s);
        assert(esc(sk) =~= Seq::<char>::empty());
        assert(quoted(s)[1 + esc(s).len() as int] == '"');
        assert(v[i + 1 + esc(s).len() as int] == quoted(s)[1 + esc(s).len() as int]);
    }
}

/// Read a quoted string beginning at `i`: accepts exactly the canonical
/// quoted images and decodes the escapes.
/// Two escape images at the same position in the input are images of the
/// same character.
pub proof fn lemma_esc_char_determined(v: Seq<char>, p: int, a: char, b: char)
    requires
        0 <= p,
        p + esc_char(a).len() <= v.len(),
        p + esc_char(b).len() <= v.len(),
        forall|t: int| 0 <= t < esc_char(a).len() ==> v[p + t] == esc_char(a)[t],
        forall|t: int| 0 <= t < esc_char(b).len() ==> v[p + t] == esc_char(b)[t],
    ensures
        a == b,
{
    let ea = esc_char(a);
    let eb = esc_char(b);
    assert(v[p + 0] == ea[0] && v[p + 0] == eb[0]);
    if ea[0] != '\\' && eb[0] != '\\' {
        assert(ea =~= seq![a] && eb =~= seq![b]);
        assert(a == v[p] && b == v[p]);
    } else {
        assert(ea[0] == '\\' && eb[0] == '\\');
        assert(ea.len() >= 2 && eb.len() >= 2);
        assert(v[p + 1] == ea[1] && v[p + 1] == eb[1]);
        if ea[1] == '"' {
            assert(a == '"' && b == '"');
        } else if ea[1] == '\\' {
            assert(a == '\\' && b == '\\');
        } else {
            assert(ea[1] == 'u' && eb[1] == 'u');
            assert((a as u32) < 0x20 && (b as u32) < 0x20);
            assert(ea.len() == 6 && eb.len() == 6);
            let ua = a as u32;
            let ub = b as u32;
            assert(v[p + 4] == hex_digit(ua as int / 16) && v[p + 4] == hex_digit(ub as int / 16));
            assert(v[p + 5] == hex_digit(ua as int % 16) && v[p + 5] == hex_digit(ub as int % 16));
            lemma_hex_digit_inj(ua as int / 16, ub as int / 16);
            lemma_hex_digit_inj(ua as int % 16, ub as int % 16);
            assert(ua == ub);
            assert(a as int == b as int);
        }
    }
}

/// Read a quoted string beginning at `i`: accepts exactly the canonical
/// quoted images and decodes the escapes.
#[verifier::rlimit(80)]
pub fn parse_string(v: &Vec<char>, i: usize) -> (r: Option<(Vec<char>, usize)>)
    ensures
        r matches Some(p) ==> i < p.1 <= v@.len() && v@.subrange(i as int, p.1 as int) == quoted(
            p.0@,
        ),
        forall|s: Seq<char>| quoted_at(v@, i as int, s) ==> (r matches Some(p) && p.0@ == s
            && p.1 == i + quoted(s).len()),
{
    let m: usize = v.len();
    if i >= m || v[i] != '"' {
        proof {
            assert forall|s: Seq<char>| !quoted_at(v@, i as int, s) by {
                if quoted_at(v@, i as int, s) {
                    assert(v@.subrange(i as int, i + quoted(s).len())[0] == quoted(s)[0]);
                    assert(v@[i as int] == '"');
                }
            }
        }
        return None;
    }
    let mut out: Vec<char> = Vec::new();
    let mut j: usize = i + 1;
    proof {
        assert(v@.subrange(i + 1, j as int) =~= esc(out@));
        assert forall|s: Seq<char>| quoted_at(v@, i as int, s) implies out@.len() <= s.len()
            && s.take(out@.len() as int) == out@ && j == i + 1 + esc(s.take(
            out@.len() as int,
        )).len() by {
            assert(s.take(0) =~= Seq::<char>::empty());
            assert(s.take(0) =~= out@);
            assert(esc(s.take(0)).len() == 0);
        }
    }
    loop
        invariant
            m == v@.len(),
            i < j <= m,
            v@[i as int] == '"',
            v@.subrange(i + 1, j as int) == esc(out@),
            forall|s: Seq<char>| quoted_at(v@, i as int, s) ==> out@.len() <= s.len() && s.take(
                out@.len() as int,
            ) == out@ && j == i + 1 + esc(s.take(out@.len() as int)).len(),
        decreases m - j,
    {
        let ghost k = out@.len() as int;
        if j >= m {
            proof {
                assert forall|s: Seq<char>| !quoted_at(v@, i as int, s) by {
                    if quoted_at(v@, i as int, s) {
                        lemma_quoted_char_at(v@, i as int, s, k, j as int);
                        assert(s.take(k) == out@);
                        if k < s.len() {
                            assert(esc_char(s[k]).len() >= 1);
                        }
                    }
                }
            }
            return None;
        }
        let c = v[j];
        if c == '"' {
            proof {
                assert(j - i - 1 == esc(out@).len());
                assert forall|y: int| 0 <= y < (j + 1 - i) implies v@.subrange(i as int, j + 1)[y]
                    == (seq!['"'] + esc(out@) + seq!['"'])[y] by {
                    if y == 0 {
                        assert(v@[i as int] == '"');
                    } else if y < 1 + esc(out@).len() {
                        assert(v@.subrange(i + 1, j as int)[y - 1] == esc(out@)[y - 1]);
                    } else {
                        assert(v@[j as int] == '"');
                    }
                }
                assert(v@.subrange(i as int, j + 1) =~= seq!['"'] + esc(out@) + seq!['"']);
                assert forall|s: Seq<char>| quoted_at(v@, i as int, s) implies s == out@ && j + 1
                    == i + quoted(s).len() by {
                    lemma_quoted_char_at(v@, i as int, s, k, j as int);
                    if k < s.len() {
                        assert(v@[j + 0] == esc_char(s[k])[0]);
                        assert(esc_char(s[k])[0] != '"');
                    }
                    assert(s.take(k) =~= s);
                }
            }
            return Some((out, j + 1));
        }
        let ghost old_out = out@;
        let ghost old_j = j as int;
        if c == '\\' {
            if j + 1 >= m {
                proof {
                    assert forall|s: Seq<char>| !quoted_at(v@, i as int, s) by {
                        if quoted_at(v@, i as int, s) {
                            lemma_quoted_char_at(v@, i as int, s, k, j as int);
                            if k < s.len() {
                                assert(v@[j + 0] == esc_char(s[k])[0]);
                                assert(esc_char(s[k])[0] == '\\');
                                assert(esc_char(s[k]).len() >= 2);
                            }
                        }
                    }
                }
                return None;
            }
            let d = v[j + 1];
            if d == '"' {
                out.push('"');
                j = j + 2;
                proof {
                    assert(v@.subrange(old_j, j as int) =~= seq!['\\', '"']);
                    assert(esc_char('"') =~= v@.subrange(old_j, j as int));
                }
            } else if d == '\\' {
                out.push('\\');
                j = j + 2;
                proof {
                    assert(v@.subrange(old_j, j as int) =~= seq!['\\', '\\']);
                    assert(esc_char('\\') =~= v@.subrange(old_j, j as int));
                }
            } else if d == 'u' {
                if m - j < 6 {
                    proof {
                        assert forall|s: Seq<char>| !quoted_at(v@, i as int, s) by {
                            if quoted_at(v@, i as int, s) {
                                lemma_quoted_char_at(v@, i as int, s, k, j as int);
                                if k < s.len() {
                                    let e = esc_char(s[k]);
                                    assert(v@[j + 0] == e[0]);
                                    assert(e[0] == '\\');
                                    assert(e.len() >= 2);
                                    assert(v@[j + 1] == e[1]);
                                    assert(e[1] == 'u');
                                    assert(e.len() == 6);
                                }
                            }
                        }
                    }
                    return None;
                }
                let ok00 = v[j + 2] == '0' && v[j + 3] == '0';
                let n1o = hex_val(v[j + 4]);
                let n0o = hex_val(v[j + 5]);
                let valid = ok00 && match (n1o, n0o) {
                    (Some(n1), Some(_)) => n1 < 2,
                    _ => false,
                };
                if !valid {
                    proof {
                        assert forall|s: Seq<char>| !quoted_at(v@, i as int, s) by {
                            if quoted_at(v@, i as int, s) {
                                lemma_quoted_char_at(v@, i as int, s, k, j as int);
                                if k < s.len() {
                                    let e = esc_char(s[k]);
                                    assert(v@[j + 0] == e[0]);
                                    assert(e[0] == '\\');
                                    assert(e.len() >= 2);
                                    assert(v@[j + 1] == e[1]);
                                    assert(e[1] == 'u');
                                    assert((s[k] as u32) < 0x20);
                                    assert(e.len() == 6);
                                    let u = s[k] as u32;
                                    assert(v@[j + 2] == e[2] && e[2] == '0');
                                    assert(v@[j + 3] == e[3] && e[3] == '0');
                                    assert(v@[j + 4] == e[4] && e[4] == hex_digit(u as int / 16));
                                    assert(v@[j + 5] == e[5] && e[5] == hex_digit(u as int % 16));
                                    assert(0 <= u as int / 16 < 2);
                                    assert(hex_digit(u as int / 16) == if u as int / 16 == 0 {
                                        '0'
                                    } else {
                                        '1'
                                    });
                                }
                            }
                        }
                    }
                    return None;
                }
                let n1 = n1o.unwrap();
                let n0 = n0o.unwrap();
                let code: u32 = n1 * 16 + n0;
                let c2: char = (code as u8) as char;
                out.push(c2);
                j = j + 6;
                proof {
                    assert(c2 as u32 == code);
                    assert((c2 as u32) < 0x20);
                    assert(c2 != '"' && c2 != '\\');
                    assert(code as int / 16 == n1 && code as int % 16 == n0);
                    assert(v@.subrange(old_j, j as int) =~= seq![
                        '\\',
                        'u',
                        '0',
                        '0',
                        v@[old_j + 4],
                        v@[old_j + 5],
                    ]);
                    assert(esc_char(c2) =~= v@.subrange(old_j, j as int));
                }
            } else {
                proof {
                    assert forall|s: Seq<char>| !quoted_at(v@, i as int, s) by {
                        if quoted_at(v@, i as int, s) {
                            lemma_quoted_char_at(v@, i as int, s, k, old_j);
                            if k < s.len() {
                                let e = esc_char(s[k]);
                                assert(v@[old_j + 0] == e[0]);
                                assert(e[0] == '\\');
                                assert(e.len() >= 2);
                                assert(v@[old_j + 1] == e[1]);
                                assert(e[1] == '"' || e[1] == '\\' || e[1] == 'u');
                            }
                        }
                    }
                }
                return None;
            }
        } else {
            if (c as u32) < 0x20 {
                proof {
                    assert forall|s: Seq<char>| !quoted_at(v@, i as int, s) by {
                        if quoted_at(v@, i as int, s) {
                            lemma_quoted_char_at(v@, i as int, s, k, j as int);
                            if k < s.len() {
                                let e = esc_char(s[k]);
                                assert(v@[j + 0] == e[0]);
                                assert(e[0] == '\\' || (e =~= seq![s[k]] && !((s[k]
                                    as u32) < 0x20)));
                            }
                        }
                    }
                }
                return None;
            }
            out.push(c);
            j = j + 1;
            proof {
                assert(v@.subrange(old_j, j as int) =~= seq![c]);
                assert(esc_char(c) =~= v@.subrange(old_j, j as int));
            }
        }
        proof {
            let c_new = out@[out@.len() - 1];
            assert(out@ == old_out.push(c_new));
            assert(esc_char(c_new) == v@.subrange(old_j, j as int));
            lemma_esc_push(out@, out@.len() - 1);
            assert(out@.take(out@.len() as int) =~= out@);
            assert(out@.take(out@.len() - 1) =~= old_out);
            assert(esc(out@) == esc(old_out) + esc_char(c_new));
            assert(v@.subrange(i + 1, j as int) =~= v@.subrange(i + 1, old_j) + v@.subrange(
                old_j,
                j as int,
            ));
            assert(v@.subrange(i + 1, j as int) == esc(out@));
            assert(v@[old_j] == c && c != '"');
            assert forall|s: Seq<char>| quoted_at(v@, i as int, s) implies out@.len() <= s.len()
                && s.take(out@.len() as int) == out@ && j == i + 1 + esc(s.take(
                out@.len() as int,
            )).len() by {
                lemma_quoted_char_at(v@, i as int, s, k, old_j);
                assert(s.take(k) == old_out);
                if k == s.len() {
                    assert(v@[old_j] == '"');
                    assert(false);
                }
                assert forall|t: int| 0 <= t < esc_char(c_new).len() implies v@[old_j + t]
                    == esc_char(c_new)[t] by {
                    assert(v@.subrange(old_j, j as int)[t] == v@[old_j + t]);
                }
                lemma_esc_char_determined(v@, old_j, s[k], c_new);
                assert(s.take(k + 1) =~= s.take(k).push(s[k]));
                assert(s.take(k + 1) == out@);
                lemma_esc_push(s, k);
            }
        }
    }
}


/// The status variant as it stands on a record line.
pub open spec fn status_lit(s: Status) -> Seq<char> {
    match s {
        Status::Open => "open"@,
        Status::InProgress => "in_progress"@,
        Status::Blocked => "blocked"@,
        Status::Closed => "closed"@,
    }
}

/// The edge kind variant as it stands on a record line.
pub open spec fn kind_lit(k: EdgeKind) -> Seq<char> {
    match k {
        EdgeKind::Blocks => "blocks"@,
        EdgeKind::ParentChild => "parent_child"@,
        EdgeKind::Related => "related"@,
    }
}

pub open spec fn t_end() -> Seq<char> {
    "}"@
}

pub open spec fn t_reason(w: ItemView) -> Seq<char> {
    match w.close_reason {
        Some(c) => ",\"close_reason\":"@ + quoted(c) + t_end(),
        None => t_end(),
    }
}

pub open spec fn t_closed(w: ItemView) -> Seq<char> {
    match w.closed_at {
        Some(c) => ",\"closed_at\":"@ + quoted(c) + t_reason(w),
        None => t_reason(w),
    }
}

pub open spec fn t_updated(w: ItemView) -> Seq<char> {
    ",\"updated_at\":"@ + quoted(w.updated_at) + t_closed(w)
}

pub open spec fn t_created(w: ItemView) -> Seq<char> {
    ",\"created_at\":"@ + quoted(w.created_at) + t_updated(w)
}

/// The rest of a label array: each further label after a comma, then the
/// closing bracket.
pub open spec fn labels_rest(ls: Seq<Seq<char>>) -> Seq<char>
    decreases ls.len(),
{
    if ls.len() == 0 {
        "]"@
    } else {
        ","@ + quoted(ls[0]) + labels_rest(ls.drop_first())
    }
}

/// The label array segment, empty when there are no labels.
pub open spec fn labels_seg(ls: Seq<Seq<char>>) -> Seq<char> {
    if ls.len() == 0 {
        Seq::empty()
    } else {
        ",\"labels\":["@ + quoted(ls[0]) + labels_rest(ls.drop_first())
    }
}

pub open spec fn t_labels(w: ItemView) -> Seq<char> {
    labels_seg(w.labels) + t_created(w)
}

pub open spec fn t_prio(w: ItemView) -> Seq<char> {
    "\",\"priority\":"@ + dec_u8(w.priority) + t_labels(w)
}

pub open spec fn t_status(w: ItemView) -> Seq<char> {
    ",\"status\":\""@ + status_lit(w.status) + t_prio(w)
}

pub open spec fn t_desc(w: ItemView) -> Seq<char> {
    match w.description {
        Some(d) => ",\"description\":"@ + quoted(d) + t_status(w),
        None => t_status(w),
    }
}

/// An item record line: one JSON object in canonical shape, with the
/// optional fields omitted when absent and the label array omitted when
/// empty.
pub open spec fn ser_item(w: ItemView) -> Seq<char> {
    "{\"id\":"@ + quoted(w.id) + ",\"title\":"@ + quoted(w.title) + t_desc(w)
}

pub open spec fn te_end(w: EdgeView) -> Seq<char> {
    if w.deleted {
        ",\"deleted\":true}"@
    } else {
        "}"@
    }
}

pub open spec fn te_created(w: EdgeView) -> Seq<char> {
    "\",\"created_at\":"@ + quoted(w.created_at) + te_end(w)
}

pub open spec fn te_kind(w: EdgeView) -> Seq<char> {
    ",\"kind\":\""@ + kind_lit(w.kind) + te_created(w)
}

/// An edge record line.
pub open spec fn ser_edge(w: EdgeView) -> Seq<char> {
    "{\"from_id\":"@ + quoted(w.from_id) + ",\"to_id\":"@ + quoted(w.to_id) + te_kind(w)
}

fn push_status(out: &mut Vec<char>, s: Status)
    ensures
        final(out)@ == old(out)@ + status_lit(s),
{
    match s {
        Status::Open => push_lit(out, "open"),
        Status::InProgress => push_lit(out, "in_progress"),
        Status::Blocked => push_lit(out, "blocked"),
        Status::Closed => push_lit(out, "closed"),
    }
}

fn push_kind(out: &mut Vec<char>, k: EdgeKind)
    ensures
        final(out)@ == old(out)@ + kind_lit(k),
{
    match k {
        EdgeKind::Blocks => push_lit(out, "blocks"),
        EdgeKind::ParentChild => push_lit(out, "parent_child"),
        EdgeKind::Related => push_lit(out, "related"),
    }
}

fn push_t_reason(out: &mut Vec<char>, it: &Item)
    ensures
        final(out)@ == old(out)@ + t_reason(it@),
{
    match &it.close_reason {
        Some(c) => {
            push_lit(out, ",\"close_reason\":");
            push_quoted(out, c.as_str());
            push_lit(out, "}");
            proof {
                assert(out@ =~= old(out)@ + t_reason(it@));
            }
        },
        None => {
            push_lit(out, "}");
        },
    }
}

fn push_t_closed(out: &mut Vec<char>, it: &Item)
    ensures
        final(out)@ == old(out)@ + t_closed(it@),
{
    match &it.closed_at {
        Some(c) => {
            push_lit(out, ",\"closed_at\":");
            push_quoted(out, c.as_str());
            push_t_reason(out, it);
            proof {
                assert(out@ =~= old(out)@ + t_closed(it@));
            }
        },
        None => {
            push_t_reason(out, it);
        },
    }
}

fn push_t_updated(out: &mut Vec<char>, it: &Item)
    ensures
        final(out)@ == old(out)@ + t_updated(it@),
{
    push_lit(out, ",\"updated_at\":");
    push_quoted(out, it.updated_at.as_str());
    push_t_closed(out, it);
    proof {
        assert(out@ =~= old(out)@ + t_updated(it@));
    }
}

fn push_t_created(out: &mut Vec<char>, it: &Item)
    ensures
        final(out)@ == old(out)@ + t_created(it@),
{
    push_lit(out, ",\"created_at\":");
    push_quoted(out, it.created_at.as_str());
    push_t_updated(out, it);
    proof {
        assert(out@ =~= old(out)@ + t_created(it@));
    }
}

fn push_labels_seg(out: &mut Vec<char>, it: &Item)
    ensures
        final(out)@ == old(out)@ + labels_seg(it@.labels),
{
    if it.labels.len() == 0 {
        return ;
    }
    let ghost base = out@;
    let ghost ls = it.labels.deep_view();
    push_lit(out, ",\"labels\":[");
    push_quoted(out, it.labels[0].as_str());
    let mut p: usize = 1;
    while p < it.labels.len()
        invariant
            1 <= p <= it.labels.len(),
            ls == it.labels.deep_view(),
            ls.len() == it.labels.len(),
            out@ + labels_rest(ls.skip(p as int)) == base + ",\"labels\":["@ + quoted(ls[0])
                + labels_rest(ls.skip(1)),
        decreases it.labels.len() - p,
    {
        push_lit(out, ",");
        push_quoted(out, it.labels[p].as_str());
        proof {
            assert(ls.skip(p as int)[0] == ls[p as int]);
            assert(ls.skip(p as int).drop_first() =~= ls.skip(p + 1));
            assert(labels_rest(ls.skip(p as int)) == ","@ + quoted(ls[p as int]) + labels_rest(
                ls.skip(p + 1),
            ));
            assert(out@ + labels_rest(ls.skip(p + 1)) =~= base + ",\"labels\":["@ + quoted(ls[0])
                + labels_rest(ls.skip(1)));
        }
        p = p + 1;
    }
    push_lit(out, "]");
    proof {
        assert(ls.skip(it.labels.len() as int) =~= Seq::<Seq<char>>::empty());
        assert(labels_rest(ls.skip(it.labels.len() as int)) == "]"@);
        assert(out@ =~= base + ",\"labels\":["@ + quoted(ls[0]) + labels_rest(ls.skip(1)));
        assert(ls.drop_first() =~= ls.skip(1));
        assert(out@ =~= base + labels_seg(it@.labels));
    }
}

fn push_t_labels(out: &mut Vec<char>, it: &Item)
    ensures
        final(out)@ == old(out)@ + t_labels(it@),
{
    push_labels_seg(out, it);
    push_t_created(out, it);
    proof {
        assert(out@ =~= old(out)@ + t_labels(it@));
    }
}

fn push_t_prio(out: &mut Vec<char>, it: &Item)
    ensures
        final(out)@ == old(out)@ + t_prio(it@),
{
    push_lit(out, "\",\"priority\":");
    push_dec_u8(out, it.priority);
    push_t_labels(out, it);
    proof {
        assert(out@ =~= old(out)@ + t_prio(it@));
    }
}

fn push_t_status(out: &mut Vec<char>, it: &Item)
    ensures
        final(out)@ == old(out)@ + t_status(it@),
{
    push_lit(out, ",\"status\":\"");
    push_status(out, it.status);
    push_t_prio(out, it);
    proof {
        assert(out@ =~= old(out)@ + t_status(it@));
    }
}

fn push_t_desc(out: &mut Vec<char>, it: &Item)
    ensures
        final(out)@ == old(out)@ + t_desc(it@),
{
    match &it.description {
        Some(d) => {
            push_lit(out, ",\"description\":");
            push_quoted(out, d.as_str());
            push_t_status(out, it);
            proof {
                assert(out@ =~= old(out)@ + t_desc(it@));
            }
        },
        None => {
            push_t_status(out, it);
        },
    }
}

/// The characters of an item's record line.
pub fn item_line_chars(it: &Item) -> (r: Vec<char>)
    ensures
        r@ == ser_item(it@),
{
    let mut out: Vec<char> = Vec::new();
    push_lit(&mut out, "{\"id\":");
    push_quoted(&mut out, it.id.as_str());
    push_lit(&mut out, ",\"title\":");
    push_quoted(&mut out, it.title.as_str());
    push_t_desc(&mut out, it);
    proof {
        assert(out@ =~= ser_item(it@));
    }
    out
}

/// An item's record line.
pub fn serialize_item(it: &Item) -> (r: String)
    ensures
        r@ == ser_item(it@),
{
    let chars = item_line_chars(it);
    crate::text::string_from_chars(&chars)
}

/// The characters of an edge's record line.
pub fn edge_line_chars(e: &crate::types::Edge) -> (r: Vec<char>)
    ensures
        r@ == ser_edge(e@),
{
    let mut out: Vec<char> = Vec::new();
    push_lit(&mut out, "{\"from_id\":");
    push_quoted(&mut out, e.from_id.as_str());
    push_lit(&mut out, ",\"to_id\":");
    push_quoted(&mut out, e.to_id.as_str());
    push_lit(&mut out, ",\"kind\":\"");
    push_kind(&mut out, e.kind);
    push_lit(&mut out, "\",\"created_at\":");
    push_quoted(&mut out, e.created_at.as_str());
    if e.deleted {
        push_lit(&mut out, ",\"deleted\":true}");
    } else {
        push_lit(&mut out, "}");
    }
    proof {
        assert(out@ =~= ser_edge(e@));
    }
    out
}

/// An edge's record line.
pub fn serialize_edge(e: &crate::types::Edge) -> (r: String)
    ensures
        r@ == ser_edge(e@),
{
    let chars = edge_line_chars(e);
    crate::text::string_from_chars(&chars)
}


/// Consume a literal, returning the position after it.
pub fn eat(v: &Vec<char>, i: usize, lit: &str) -> (r: Option<usize>)
    ensures
        r matches Some(j) ==> j == i + lit@.len() && prefix_at(v@, i as int, lit@),
        r is None ==> !prefix_at(v@, i as int, lit@),
{
    let n = lit.unicode_len();
    let vm = v.len();
    if expect(v, i, lit) {
        proof {
            assert(i + n <= vm);
        }
        Some(i + n)
    } else {
        None
    }
}

/// Character-for-character equality of two vectors.
pub fn chars_eq(a: &Vec<char>, b: &Vec<char>) -> (r: bool)
    ensures
        r == (a@ == b@),
{
    if a.len() != b.len() {
        return false;
    }
    let mut i: usize = 0;
    while i < a.len()
        invariant
            a@.len() == b@.len(),
            i <= a@.len(),
            forall|j: int| 0 <= j < i ==> a@[j] == b@[j],
        decreases a@.len() - i,
    {
        if a[i] != b[i] {
            return false;
        }
        i = i + 1;
    }
    proof {
        assert(a@ =~= b@);
    }
    true
}

/// Read a canonical decimal byte at `i`: digits without a leading zero,
/// ending before the first non-digit.
pub fn parse_u8(v: &Vec<char>, i: usize) -> (r: Option<(u8, usize)>)
    ensures
        forall|n: u8| (prefix_at(v@, i as int, dec_u8(n)) && (i + dec_u8(n).len() == v@.len() || !is_digit(
            v@[i + dec_u8(n).len()],
        ))) ==> (r matches Some(p) && p.0 == n && p.1 == i + dec_u8(n).len()),
{
    let m: usize = v.len();
    proof {
        assert(forall|n: u8| (#[trigger] dec_u8(n)).len() >= 1);
        assert forall|n: u8| #[trigger] prefix_at(v@, i as int, dec_u8(n)) implies v@[i as int]
            == dec_u8(n)[0] && (dec_u8(n).len() >= 2 ==> v@[i + 1] == dec_u8(n)[1]) && (dec_u8(
            n,
        ).len() >= 3 ==> v@[i + 2] == dec_u8(n)[2]) by {
            assert(v@.subrange(i as int, i + dec_u8(n).len())[0] == dec_u8(n)[0]);
            if dec_u8(n).len() >= 2 {
                assert(v@.subrange(i as int, i + dec_u8(n).len())[1] == dec_u8(n)[1]);
            }
            if dec_u8(n).len() >= 3 {
                assert(v@.subrange(i as int, i + dec_u8(n).len())[2] == dec_u8(n)[2]);
            }
        }
        assert forall|n: u8| 100 <= n implies 100 * (n as int / 100) + 10 * ((#[trigger] (n as int
            / 10)) % 10) + n as int % 10 == n as int by {
            assert(n as int == 10 * (n as int / 10) + n as int % 10);
            assert(n as int / 10 == 10 * ((n as int / 10) / 10) + (n as int / 10) % 10);
            assert((n as int / 10) / 10 == n as int / 100) by (nonlinear_arith)
                requires 100 <= n,
            ;
        }
        assert(forall|n: u8| n < 10 ==> (#[trigger] dec_u8(n))[0] == hex_digit(n as int)
            && hex_digit(n as int) as u32 == 48 + n as u32);
        assert(forall|n: u8| 10 <= n < 100 ==> (#[trigger] dec_u8(n))[0] == hex_digit(n as int / 10)
            && hex_digit(n as int / 10) as u32 == 48 + (n as u32 / 10));
        assert(forall|n: u8| 100 <= n ==> (#[trigger] dec_u8(n))[0] == hex_digit(n as int / 100)
            && hex_digit(n as int / 100) as u32 == 48 + (n as u32 / 100));
        assert(forall|n: u8| 10 <= n < 100 ==> (#[trigger] dec_u8(n))[1] == hex_digit(n as int % 10)
            && hex_digit(n as int % 10) as u32 == 48 + (n as u32 % 10));
        assert(forall|n: u8| 100 <= n ==> (#[trigger] dec_u8(n))[1] == hex_digit((n as int / 10) % 10)
            && hex_digit((n as int / 10) % 10) as u32 == 48 + ((n as u32 / 10) % 10));
        assert(forall|n: u8| 100 <= n ==> (#[trigger] dec_u8(n))[2] == hex_digit(n as int % 10)
            && hex_digit(n as int % 10) as u32 == 48 + (n as u32 % 10));
    }
    if i >= m {
        return None;
    }
    let c0 = v[i];
    if !(48 <= (c0 as u32) && (c0 as u32) <= 57) {
        return None;
    }
    let d0: u32 = (c0 as u32) - 48;
    if i + 1 >= m || !(48 <= (v[i + 1] as u32) && (v[i + 1] as u32) <= 57) {
        return Some((d0 as u8, i + 1));
    }
    if d0 == 0 {
        return None;
    }
    let d1: u32 = (v[i + 1] as u32) - 48;
    if i + 2 >= m || !(48 <= (v[i + 2] as u32) && (v[i + 2] as u32) <= 57) {
        return Some(((d0 * 10 + d1) as u8, i + 2));
    }
    let d2: u32 = (v[i + 2] as u32) - 48;
    if i + 3 < m && 48 <= (v[i + 3] as u32) && (v[i + 3] as u32) <= 57 {
        return None;
    }
    let val: u32 = d0 * 100 + d1 * 10 + d2;
    if val > 255 {
        return None;
    }
    Some((val as u8, i + 3))
}


/// The view of an optional string.
pub open spec fn osv(o: Option<String>) -> Option<Seq<char>> {
    match o {
        Some(s) => Some(s@),
        None => None,
    }
}

/// Decode the opening of an item line: the id and the title.
#[verifier::rlimit(100)]
fn parse_item_head(v: &Vec<char>) -> (r: Option<(Vec<char>, Vec<char>, usize)>)
    ensures
        forall|w: ItemView| v@ == #[trigger] ser_item(w) ==> (r matches Some(t) && w.id == t.0@
            && w.title == t.1@ && t.2 <= v@.len() && prefix_at(v@, t.2 as int, t_desc(w))),
{
    proof {
        assert forall|w: ItemView| v@ == #[trigger] ser_item(w) implies prefix_at(
            v@,
            0,
            "{\"id\":"@ + (quoted(w.id) + (",\"title\":"@ + (quoted(w.title) + t_desc(w)))),
        ) by {
            assert(v@.subrange(0, v@.len() as int) =~= v@);
            assert(ser_item(w) =~= "{\"id\":"@ + (quoted(w.id) + (",\"title\":"@ + (quoted(w.title)
                + t_desc(w)))));
        }
    }
    let j1 = match eat(v, 0, "{\"id\":") {
        Some(j) => j,
        None => {
            proof {
                assert forall|w: ItemView| v@ != #[trigger] ser_item(w) by {
                    if v@ == ser_item(w) {
                        lemma_split(v@, 0, "{\"id\":"@, quoted(w.id) + (",\"title\":"@ + (quoted(
                            w.title,
                        ) + t_desc(w))));
                    }
                }
            }
            return None;
        },
    };
    let (idc, j2) = match parse_string(v, j1) {
        Some(p) => p,
        None => {
            proof {
                assert forall|w: ItemView| v@ != #[trigger] ser_item(w) by {
                    if v@ == ser_item(w) {
                        lemma_split(v@, 0, "{\"id\":"@, quoted(w.id) + (",\"title\":"@ + (quoted(
                            w.title,
                        ) + t_desc(w))));
                        lemma_split(v@, j1 as int, quoted(w.id), ",\"title\":"@ + (quoted(w.title)
                            + t_desc(w)));
                        assert(quoted_at(v@, j1 as int, w.id));
                    }
                }
            }
            return None;
        },
    };
    proof {
        assert forall|w: ItemView| v@ == #[trigger] ser_item(w) implies w.id == idc@ && prefix_at(
            v@,
            j2 as int,
            ",\"title\":"@ + (quoted(w.title) + t_desc(w)),
        ) by {
            lemma_split(v@, 0, "{\"id\":"@, quoted(w.id) + (",\"title\":"@ + (quoted(w.title)
                + t_desc(w))));
            lemma_split(v@, j1 as int, quoted(w.id), ",\"title\":"@ + (quoted(w.title) + t_desc(
                w,
            )));
            assert(quoted_at(v@, j1 as int, w.id));
        }
    }
    let j3 = match eat(v, j2, ",\"title\":") {
        Some(j) => j,
        None => {
            proof {
                assert forall|w: ItemView| v@ != #[trigger] ser_item(w) by {
                    if v@ == ser_item(w) {
                        lemma_split(v@, j2 as int, ",\"title\":"@, quoted(w.title) + t_desc(w));
                    }
                }
            }
            return None;
        },
    };
    let (titc, j4) = match parse_string(v, j3) {
        Some(p) => p,
        None => {
            proof {
                assert forall|w: ItemView| v@ != #[trigger] ser_item(w) by {
                    if v@ == ser_item(w) {
                        lemma_split(v@, j2 as int, ",\"title\":"@, quoted(w.title) + t_desc(w));
                        lemma_split(v@, j3 as int, quoted(w.title), t_desc(w));
                        assert(quoted_at(v@, j3 as int, w.title));
                    }
                }
            }
            return None;
        },
    };
    proof {
        assert forall|w: ItemView| v@ == #[trigger] ser_item(w) implies w.title == titc@
            && prefix_at(v@, j4 as int, t_desc(w)) by {
            lemma_split(v@, j2 as int, ",\"title\":"@, quoted(w.title) + t_desc(w));
            lemma_split(v@, j3 as int, quoted(w.title), t_desc(w));
            assert(quoted_at(v@, j3 as int, w.title));
        }
    }
    Some((idc, titc, j4))
}

proof fn lemma_desc_some(v: Seq<char>, j4: int, w: ItemView)
    requires
        prefix_at(v, j4, t_desc(w)),
        prefix_at(v, j4, ",\"description\":"@),
    ensures
        w.description is Some,
        prefix_at(v, j4 + ",\"description\":"@.len(), quoted(w.description->0) + t_status(w)),
{
    reveal_strlit(",\"description\":");
    reveal_strlit(",\"status\":\"");
    if w.description is None {
        assert(t_desc(w) == t_status(w));
        assert(t_status(w) =~= ",\"status\":\""@ + (status_lit(w.status) + t_prio(w)));
        lemma_split(v, j4, ",\"status\":\""@, status_lit(w.status) + t_prio(w));
        assert(v.subrange(j4, j4 + 11)[2] == (",\"status\":\""@)[2]);
        assert(v.subrange(j4, j4 + 15)[2] == (",\"description\":"@)[2]);
        assert((",\"status\":\""@)[2] == 's');
        assert((",\"description\":"@)[2] == 'd');
    }
    assert(t_desc(w) =~= ",\"description\":"@ + (quoted(w.description->0) + t_status(w)));
    lemma_split(v, j4, ",\"description\":"@, quoted(w.description->0) + t_status(w));
}

proof fn lemma_desc_none(v: Seq<char>, j4: int, w: ItemView)
    requires
        prefix_at(v, j4, t_desc(w)),
        !prefix_at(v, j4, ",\"description\":"@),
    ensures
        w.description is None,
        prefix_at(v, j4, t_status(w)),
{
    if w.description is Some {
        assert(t_desc(w) =~= ",\"description\":"@ + (quoted(w.description->0) + t_status(w)));
        lemma_split(v, j4, ",\"description\":"@, quoted(w.description->0) + t_status(w));
    }
    assert(t_desc(w) == t_status(w));
}

/// Decode the optional description of an item line.
fn parse_item_desc(v: &Vec<char>, j4: usize) -> (r: Option<(Option<String>, usize)>)
    ensures
        forall|w: ItemView| #[trigger] prefix_at(v@, j4 as int, t_desc(w)) ==> (r matches Some(t)
            && w.description == osv(t.0) && t.1 <= v@.len() && prefix_at(
            v@,
            t.1 as int,
            t_status(w),
        )),
{
    match eat(v, j4, ",\"description\":") {
        Some(j5) => {
            proof {
                assert forall|w: ItemView| #[trigger] prefix_at(v@, j4 as int, t_desc(w)) implies
                    w.description is Some && quoted_at(v@, j5 as int, w.description->0) by {
                    lemma_desc_some(v@, j4 as int, w);
                    lemma_split(v@, j5 as int, quoted(w.description->0), t_status(w));
                }
            }
            let (dc, j6) = match parse_string(v, j5) {
                Some(p) => p,
                None => {
                    proof {
                        assert(forall|w: ItemView| !prefix_at(v@, j4 as int, t_desc(w)));
                    }
                    return None;
                },
            };
            proof {
                assert forall|w: ItemView| #[trigger] prefix_at(v@, j4 as int, t_desc(w)) implies
                    w.description == Some(dc@) && prefix_at(v@, j6 as int, t_status(w)) by {
                    lemma_desc_some(v@, j4 as int, w);
                    lemma_split(v@, j5 as int, quoted(w.description->0), t_status(w));
                    assert(quoted_at(v@, j5 as int, w.description->0));
                }
            }
            Some((Some(crate::text::string_from_chars(&dc)), j6))
        },
        None => {
            proof {
                assert forall|w: ItemView| #[trigger] prefix_at(v@, j4 as int, t_desc(w)) implies
                    w.description is None && prefix_at(v@, j4 as int, t_status(w)) by {
                    lemma_desc_none(v@, j4 as int, w);
                }
            }
            Some((None, j4))
        },
    }
}

proof fn lemma_status_split(v: Seq<char>, j6: int, w: ItemView)
    requires
        prefix_at(v, j6, t_status(w)),
    ensures
        prefix_at(v, j6, ",\"status\":\""@),
        prefix_at(v, j6 + ",\"status\":\""@.len(), status_lit(w.status) + t_prio(w)),
        v[j6 + ",\"status\":\""@.len()] == status_lit(w.status)[0],
        prefix_at(
            v,
            j6 + ",\"status\":\""@.len() + status_lit(w.status).len(),
            "\",\"priority\":"@,
        ),
        prefix_at(
            v,
            j6 + ",\"status\":\""@.len() + status_lit(w.status).len() + "\",\"priority\":"@.len(),
            dec_u8(w.priority) + t_labels(w),
        ),
{
    reveal_strlit("open");
    reveal_strlit("in_progress");
    reveal_strlit("blocked");
    reveal_strlit("closed");
    assert(t_status(w) =~= ",\"status\":\""@ + (status_lit(w.status) + t_prio(w)));
    lemma_split(v, j6, ",\"status\":\""@, status_lit(w.status) + t_prio(w));
    let p = j6 + ",\"status\":\""@.len();
    lemma_split(v, p, status_lit(w.status), t_prio(w));
    assert(status_lit(w.status).len() >= 1);
    assert(v.subrange(p, p + (status_lit(w.status) + t_prio(w)).len())[0] == (status_lit(w.status)
        + t_prio(w))[0]);
    assert(t_prio(w) =~= "\",\"priority\":"@ + (dec_u8(w.priority) + t_labels(w)));
    lemma_split(v, p + status_lit(w.status).len(), "\",\"priority\":"@, dec_u8(w.priority)
        + t_labels(w));
}

proof fn lemma_status_first_char(w: ItemView)
    ensures
        w.status == Status::Open ==> status_lit(w.status)[0] == 'o',
        w.status == Status::InProgress ==> status_lit(w.status)[0] == 'i',
        w.status == Status::Blocked ==> status_lit(w.status)[0] == 'b',
        w.status == Status::Closed ==> status_lit(w.status)[0] == 'c',
{
    reveal_strlit("open");
    reveal_strlit("in_progress");
    reveal_strlit("blocked");
    reveal_strlit("closed");
}

proof fn lemma_prio_boundary(v: Seq<char>, q: int, w: ItemView)
    requires
        prefix_at(v, q, dec_u8(w.priority) + t_labels(w)),
    ensures
        prefix_at(v, q, dec_u8(w.priority)),
        !is_digit(v[q + dec_u8(w.priority).len()]),
        prefix_at(v, q + dec_u8(w.priority).len(), t_labels(w)),
{
    reveal_strlit(",\"labels\":[");
    reveal_strlit(",\"created_at\":");
    lemma_split(v, q, dec_u8(w.priority), t_labels(w));
    let p = q + dec_u8(w.priority).len();
    if w.labels.len() == 0 {
        assert(labels_seg(w.labels) =~= Seq::<char>::empty());
        assert(t_labels(w) =~= ",\"created_at\":"@ + (quoted(w.created_at) + t_updated(w)));
        assert(v.subrange(p, p + t_labels(w).len())[0] == t_labels(w)[0]);
        assert(t_labels(w)[0] == ',');
    } else {
        assert(t_labels(w) =~= ",\"labels\":["@ + (quoted(w.labels[0]) + (labels_rest(
            w.labels.drop_first(),
        ) + t_created(w))));
        assert(v.subrange(p, p + t_labels(w).len())[0] == t_labels(w)[0]);
        assert(t_labels(w)[0] == ',');
    }
}

proof fn lemma_status_token_case(v: Seq<char>, j7: int, w: ItemView, lit: Seq<char>, st: Status)
    requires
        prefix_at(v, j7, status_lit(w.status) + t_prio(w)),
        prefix_at(v, j7, lit),
        lit == status_lit(st),
        lit.len() >= 1,
        forall|s2: Status| status_lit(s2).len() >= 1,
        forall|s2: Status| s2 != st ==> #[trigger] status_lit(s2)[0] != lit[0],
    ensures
        w.status == st,
{
    lemma_split(v, j7, status_lit(w.status), t_prio(w));
    assert(v.subrange(j7, j7 + status_lit(w.status).len())[0] == status_lit(w.status)[0]);
    assert(v.subrange(j7, j7 + lit.len())[0] == lit[0]);
    assert(status_lit(w.status)[0] == lit[0]);
}

proof fn lemma_status_lits()
    ensures
        forall|s2: Status| (#[trigger] status_lit(s2)).len() >= 1,
        status_lit(Status::Open)[0] == 'o',
        status_lit(Status::InProgress)[0] == 'i',
        status_lit(Status::Blocked)[0] == 'b',
        status_lit(Status::Closed)[0] == 'c',
{
    reveal_strlit("open");
    reveal_strlit("in_progress");
    reveal_strlit("blocked");
    reveal_strlit("closed");
    assert forall|s2: Status| (#[trigger] status_lit(s2)).len() >= 1 by {
        match s2 {
            Status::Open => assert(status_lit(s2).len() == 4),
            Status::InProgress => assert(status_lit(s2).len() == 11),
            Status::Blocked => assert(status_lit(s2).len() == 7),
            Status::Closed => assert(status_lit(s2).len() == 6),
        }
    }
}

/// Decode one status variant name.
fn parse_status_token(v: &Vec<char>, j7: usize) -> (r: Option<(Status, usize)>)
    ensures
        forall|w: ItemView| #[trigger] prefix_at(v@, j7 as int, status_lit(w.status) + t_prio(w))
            ==> (r matches Some(t) && w.status == t.0 && t.1 == j7 + status_lit(w.status).len()),
{
    if let Some(j) = eat(v, j7, "open") {
        proof {
            lemma_status_lits();
            assert forall|w: ItemView| #[trigger] prefix_at(
                v@,
                j7 as int,
                status_lit(w.status) + t_prio(w),
            ) implies w.status == Status::Open && j == j7 + status_lit(w.status).len() by {
                lemma_status_token_case(v@, j7 as int, w, "open"@, Status::Open);
            }
        }
        Some((Status::Open, j))
    } else if let Some(j) = eat(v, j7, "in_progress") {
        proof {
            lemma_status_lits();
            assert forall|w: ItemView| #[trigger] prefix_at(
                v@,
                j7 as int,
                status_lit(w.status) + t_prio(w),
            ) implies w.status == Status::InProgress && j == j7 + status_lit(w.status).len() by {
                lemma_status_token_case(v@, j7 as int, w, "in_progress"@, Status::InProgress);
            }
        }
        Some((Status::InProgress, j))
    } else if let Some(j) = eat(v, j7, "blocked") {
        proof {
            lemma_status_lits();
            assert forall|w: ItemView| #[trigger] prefix_at(
                v@,
                j7 as int,
                status_lit(w.status) + t_prio(w),
            ) implies w.status == Status::Blocked && j == j7 + status_lit(w.status).len() by {
                lemma_status_token_case(v@, j7 as int, w, "blocked"@, Status::Blocked);
            }
        }
        Some((Status::Blocked, j))
    } else if let Some(j) = eat(v, j7, "closed") {
        proof {
            lemma_status_lits();
            assert forall|w: ItemView| #[trigger] prefix_at(
                v@,
                j7 as int,
                status_lit(w.status) + t_prio(w),
            ) implies w.status == Status::Closed && j == j7 + status_lit(w.status).len() by {
                lemma_status_token_case(v@, j7 as int, w, "closed"@, Status::Closed);
            }
        }
        Some((Status::Closed, j))
    } else {
        proof {
            lemma_status_lits();
            assert forall|w: ItemView| !prefix_at(
                v@,
                j7 as int,
                status_lit(w.status) + t_prio(w),
            ) by {
                if prefix_at(v@, j7 as int, status_lit(w.status) + t_prio(w)) {
                    lemma_split(v@, j7 as int, status_lit(w.status), t_prio(w));
                }
            }
        }
        None
    }
}

/// Decode the status and priority of an item line.
fn parse_item_status_prio(v: &Vec<char>, j6: usize) -> (r: Option<(Status, u8, usize)>)
    ensures
        forall|w: ItemView| #[trigger] prefix_at(v@, j6 as int, t_status(w)) ==> (r matches Some(t)
            && w.status == t.0 && w.priority == t.1 && t.2 <= v@.len() && prefix_at(
            v@,
            t.2 as int,
            t_labels(w),
        )),
{
    let j7 = match eat(v, j6, ",\"status\":\"") {
        Some(j) => j,
        None => {
            proof {
                assert forall|w: ItemView| !prefix_at(v@, j6 as int, t_status(w)) by {
                    if prefix_at(v@, j6 as int, t_status(w)) {
                        lemma_status_split(v@, j6 as int, w);
                    }
                }
            }
            return None;
        },
    };
    let (st, j8) = match parse_status_token(v, j7) {
        Some(t) => t,
        None => {
            proof {
                assert forall|w: ItemView| !prefix_at(v@, j6 as int, t_status(w)) by {
                    if prefix_at(v@, j6 as int, t_status(w)) {
                        lemma_status_split(v@, j6 as int, w);
                    }
                }
            }
            return None;
        },
    };
    proof {
        assert forall|w: ItemView| #[trigger] prefix_at(v@, j6 as int, t_status(w)) implies
            w.status == st && j8 == j7 + status_lit(w.status).len() by {
            lemma_status_split(v@, j6 as int, w);
        }
    }
    let j9 = match eat(v, j8, "\",\"priority\":") {
        Some(j) => j,
        None => {
            proof {
                assert forall|w: ItemView| !prefix_at(v@, j6 as int, t_status(w)) by {
                    if prefix_at(v@, j6 as int, t_status(w)) {
                        lemma_status_split(v@, j6 as int, w);
                    }
                }
            }
            return None;
        },
    };
    proof {
        assert forall|w: ItemView| #[trigger] prefix_at(v@, j6 as int, t_status(w)) implies
            prefix_at(v@, j9 as int, dec_u8(w.priority)) && !is_digit(v@[j9 + dec_u8(
            w.priority,
        ).len()]) && prefix_at(v@, j9 + dec_u8(w.priority).len(), t_labels(w)) by {
            lemma_status_split(v@, j6 as int, w);
            lemma_prio_boundary(v@, j9 as int, w);
        }
    }
    let (prio, j10) = match parse_u8(v, j9) {
        Some(p) => p,
        None => {
            return None;
        },
    };
    Some((st, prio, j10))
}

/// Decode the label array standing at `i`, or nothing when the array is
/// omitted.
#[verifier::rlimit(100)]
fn parse_labels(v: &Vec<char>, i: usize) -> (r: Option<(Vec<String>, usize)>)
    ensures
        forall|w: ItemView| #[trigger] prefix_at(v@, i as int, t_labels(w)) ==> (r matches Some(t)
            && w.labels == t.0.deep_view() && t.1 <= v@.len() && prefix_at(
            v@,
            t.1 as int,
            t_created(w),
        )),
{
    let mut labels: Vec<String> = Vec::new();
    match eat(v, i, ",\"labels\":[") {
        Some(ja) => {
            proof {
                reveal_strlit(",\"labels\":[");
                reveal_strlit(",\"created_at\":");
                assert forall|w: ItemView| #[trigger] prefix_at(v@, i as int, t_labels(w)) implies
                    w.labels.len() >= 1 && prefix_at(v@, ja as int, quoted(w.labels[0]) + (
                labels_rest(w.labels.drop_first()) + t_created(w))) by {
                    if w.labels.len() == 0 {
                        assert(labels_seg(w.labels) =~= Seq::<char>::empty());
                        assert(t_labels(w) =~= ",\"created_at\":"@ + (quoted(w.created_at)
                            + t_updated(w)));
                        lemma_split(v@, i as int, ",\"created_at\":"@, quoted(w.created_at)
                            + t_updated(w));
                        assert(v@.subrange(i as int, i + 14)[2] == (",\"created_at\":"@)[2]);
                        assert(v@.subrange(i as int, i + 11)[2] == (",\"labels\":["@)[2]);
                        assert((",\"created_at\":"@)[2] == 'c');
                        assert((",\"labels\":["@)[2] == 'l');
                    }
                    assert(t_labels(w) =~= ",\"labels\":["@ + (quoted(w.labels[0]) + (labels_rest(
                        w.labels.drop_first(),
                    ) + t_created(w))));
                    lemma_split(v@, i as int, ",\"labels\":["@, quoted(w.labels[0]) + (
                    labels_rest(w.labels.drop_first()) + t_created(w)));
                }
            }
            let (l0, jb) = match parse_string(v, ja) {
                Some(p) => p,
                None => {
                    proof {
                        assert forall|w: ItemView| !prefix_at(v@, i as int, t_labels(w)) by {
                            if prefix_at(v@, i as int, t_labels(w)) {
                                lemma_split(v@, ja as int, quoted(w.labels[0]), labels_rest(
                                    w.labels.drop_first(),
                                ) + t_created(w));
                                assert(quoted_at(v@, ja as int, w.labels[0]));
                            }
                        }
                    }
                    return None;
                },
            };
            labels.push(crate::text::string_from_chars(&l0));
            proof {
                assert forall|w: ItemView| #[trigger] prefix_at(v@, i as int, t_labels(w)) implies
                    labels.deep_view().len() <= w.labels.len() && w.labels.take(
                    labels.deep_view().len() as int,
                ) == labels.deep_view() && prefix_at(v@, jb as int, labels_rest(w.labels.skip(
                    labels.deep_view().len() as int,
                )) + t_created(w)) by {
                    lemma_split(v@, ja as int, quoted(w.labels[0]), labels_rest(
                        w.labels.drop_first(),
                    ) + t_created(w));
                    assert(quoted_at(v@, ja as int, w.labels[0]));
                    assert(labels.deep_view() =~= seq![l0@]);
                    assert(w.labels.take(1) =~= seq![w.labels[0]]);
                    assert(w.labels.drop_first() =~= w.labels.skip(1));
                }
            }
            let mut jc: usize = jb;
            let mut jend: usize = 0;
            loop
                invariant_except_break
                    jc <= v@.len(),
                    labels@.len() >= 1,
                    forall|w: ItemView| #[trigger] prefix_at(v@, i as int, t_labels(w))
                        ==> labels.deep_view().len() <= w.labels.len() && w.labels.take(
                        labels.deep_view().len() as int,
                    ) == labels.deep_view() && prefix_at(v@, jc as int, labels_rest(w.labels.skip(
                        labels.deep_view().len() as int,
                    )) + t_created(w)),
                ensures
                    jend <= v@.len(),
                    forall|w: ItemView| #[trigger] prefix_at(v@, i as int, t_labels(w)) ==> w.labels
                        == labels.deep_view() && prefix_at(v@, jend as int, t_created(w)),
                decreases v@.len() - jc,
            {
                let ghost nl = labels.deep_view().len() as int;
                if let Some(jd) = eat(v, jc, ",") {
                    proof {
                        reveal_strlit(",");
                        reveal_strlit("]");
                        assert forall|w: ItemView| #[trigger] prefix_at(
                            v@,
                            i as int,
                            t_labels(w),
                        ) implies nl < w.labels.len() && prefix_at(v@, jd as int, quoted(
                            w.labels[nl],
                        ) + (labels_rest(w.labels.skip(nl + 1)) + t_created(w))) by {
                            let rest = w.labels.skip(nl);
                            if nl == w.labels.len() {
                                assert(labels_rest(rest) == "]"@);
                                lemma_split(v@, jc as int, "]"@, t_created(w));
                                assert(v@.subrange(jc as int, jc + 1)[0] == ("]"@)[0]);
                                assert(v@.subrange(jc as int, jc + 1)[0] == (","@)[0]);
                            }
                            assert(rest[0] == w.labels[nl]);
                            assert(rest.drop_first() =~= w.labels.skip(nl + 1));
                            assert(labels_rest(rest) + t_created(w) =~= ","@ + (quoted(
                                w.labels[nl],
                            ) + (labels_rest(w.labels.skip(nl + 1)) + t_created(w))));
                            lemma_split(v@, jc as int, ","@, quoted(w.labels[nl]) + (labels_rest(
                                w.labels.skip(nl + 1),
                            ) + t_created(w)));
                        }
                    }
                    let (ln, je) = match parse_string(v, jd) {
                        Some(p) => p,
                        None => {
                            proof {
                                assert forall|w: ItemView| !prefix_at(
                                    v@,
                                    i as int,
                                    t_labels(w),
                                ) by {
                                    if prefix_at(v@, i as int, t_labels(w)) {
                                        lemma_split(v@, jd as int, quoted(w.labels[nl]),
                                            labels_rest(w.labels.skip(nl + 1)) + t_created(w));
                                        assert(quoted_at(v@, jd as int, w.labels[nl]));
                                    }
                                }
                            }
                            return None;
                        },
                    };
                    labels.push(crate::text::string_from_chars(&ln));
                    jc = je;
                    proof {
                        assert forall|w: ItemView| #[trigger] prefix_at(
                            v@,
                            i as int,
                            t_labels(w),
                        ) implies labels.deep_view().len() <= w.labels.len() && w.labels.take(
                            labels.deep_view().len() as int,
                        ) == labels.deep_view() && prefix_at(v@, jc as int, labels_rest(
                            w.labels.skip(labels.deep_view().len() as int),
                        ) + t_created(w)) by {
                            lemma_split(v@, jd as int, quoted(w.labels[nl]), labels_rest(
                                w.labels.skip(nl + 1),
                            ) + t_created(w));
                            assert(quoted_at(v@, jd as int, w.labels[nl]));
                            assert(labels.deep_view() =~= labels.deep_view().take(nl).push(ln@));
                            assert(w.labels.take(nl + 1) =~= w.labels.take(nl).push(w.labels[nl]));
                        }
                    }
                } else if let Some(jd) = eat(v, jc, "]") {
                    proof {
                        reveal_strlit(",");
                        reveal_strlit("]");
                        assert forall|w: ItemView| #[trigger] prefix_at(
                            v@,
                            i as int,
                            t_labels(w),
                        ) implies w.labels == labels.deep_view() && prefix_at(
                            v@,
                            jd as int,
                            t_created(w),
                        ) by {
                            let rest = w.labels.skip(nl);
                            if nl < w.labels.len() {
                                assert(labels_rest(rest) + t_created(w) =~= ","@ + (quoted(
                                    rest[0],
                                ) + (labels_rest(rest.drop_first()) + t_created(w))));
                                lemma_split(v@, jc as int, ","@, quoted(rest[0]) + (labels_rest(
                                    rest.drop_first(),
                                ) + t_created(w)));
                                assert(v@.subrange(jc as int, jc + 1)[0] == (","@)[0]);
                                assert(v@.subrange(jc as int, jc + 1)[0] == ("]"@)[0]);
                            }
                            assert(labels_rest(rest) == "]"@);
                            lemma_split(v@, jc as int, "]"@, t_created(w));
                            assert(w.labels.take(nl) =~= w.labels);
                        }
                    }
                    jend = jd;
                    break ;
                } else {
                    proof {
                        reveal_strlit(",");
                        reveal_strlit("]");
                        assert forall|w: ItemView| !prefix_at(v@, i as int, t_labels(w)) by {
                            if prefix_at(v@, i as int, t_labels(w)) {
                                let rest = w.labels.skip(nl);
                                if nl < w.labels.len() {
                                    assert(labels_rest(rest) + t_created(w) =~= ","@ + (quoted(
                                        rest[0],
                                    ) + (labels_rest(rest.drop_first()) + t_created(w))));
                                    lemma_split(v@, jc as int, ","@, quoted(rest[0]) + (
                                    labels_rest(rest.drop_first()) + t_created(w)));
                                } else {
                                    assert(labels_rest(rest) == "]"@);
                                    lemma_split(v@, jc as int, "]"@, t_created(w));
                                }
                            }
                        }
                    }
                    return None;
                }
            }
            Some((labels, jend))
        },
        None => {
            proof {
                reveal_strlit(",\"labels\":[");
                reveal_strlit(",\"created_at\":");
                assert forall|w: ItemView| #[trigger] prefix_at(v@, i as int, t_labels(w)) implies
                    w.labels == labels.deep_view() && prefix_at(v@, i as int, t_created(w)) by {
                    if w.labels.len() > 0 {
                        assert(t_labels(w) =~= ",\"labels\":["@ + (quoted(w.labels[0]) + (
                        labels_rest(w.labels.drop_first()) + t_created(w))));
                        lemma_split(v@, i as int, ",\"labels\":["@, quoted(w.labels[0]) + (
                        labels_rest(w.labels.drop_first()) + t_created(w)));
                    }
                    assert(labels_seg(w.labels) =~= Seq::<char>::empty());
                    assert(t_labels(w) =~= t_created(w));
                    assert(labels.deep_view() =~= w.labels);
                }
            }
            Some((labels, i))
        },
    }
}

/// Decode the two timestamps of an item line.
#[verifier::rlimit(100)]
fn parse_item_times(v: &Vec<char>, i: usize) -> (r: Option<(Vec<char>, Vec<char>, usize)>)
    ensures
        forall|w: ItemView| #[trigger] prefix_at(v@, i as int, t_created(w)) ==> (r matches Some(t)
            && w.created_at == t.0@ && w.updated_at == t.1@ && t.2 <= v@.len() && prefix_at(
            v@,
            t.2 as int,
            t_closed(w),
        )),
{
    proof {
        assert forall|w: ItemView| #[trigger] prefix_at(v@, i as int, t_created(w)) implies
            prefix_at(v@, i as int, ",\"created_at\":"@ + (quoted(w.created_at) + t_updated(w)))
            by {
            assert(t_created(w) =~= ",\"created_at\":"@ + (quoted(w.created_at) + t_updated(w)));
        }
    }
    let j12 = match eat(v, i, ",\"created_at\":") {
        Some(j) => j,
        None => {
            proof {
                assert forall|w: ItemView| !prefix_at(v@, i as int, t_created(w)) by {
                    if prefix_at(v@, i as int, t_created(w)) {
                        lemma_split(v@, i as int, ",\"created_at\":"@, quoted(w.created_at)
                            + t_updated(w));
                    }
                }
            }
            return None;
        },
    };
    let (crc, j13) = match parse_string(v, j12) {
        Some(p) => p,
        None => {
            proof {
                assert forall|w: ItemView| !prefix_at(v@, i as int, t_created(w)) by {
                    if prefix_at(v@, i as int, t_created(w)) {
                        lemma_split(v@, i as int, ",\"created_at\":"@, quoted(w.created_at)
                            + t_updated(w));
                        lemma_split(v@, j12 as int, quoted(w.created_at), t_updated(w));
                        assert(quoted_at(v@, j12 as int, w.created_at));
                    }
                }
            }
            return None;
        },
    };
    proof {
        assert forall|w: ItemView| #[trigger] prefix_at(v@, i as int, t_created(w)) implies
            w.created_at == crc@ && prefix_at(v@, j13 as int, ",\"updated_at\":"@ + (quoted(
            w.updated_at,
        ) + t_closed(w))) by {
            lemma_split(v@, i as int, ",\"created_at\":"@, quoted(w.created_at) + t_updated(w));
            lemma_split(v@, j12 as int, quoted(w.created_at), t_updated(w));
            assert(quoted_at(v@, j12 as int, w.created_at));
            assert(t_updated(w) =~= ",\"updated_at\":"@ + (quoted(w.updated_at) + t_closed(w)));
        }
    }
    let j14 = match eat(v, j13, ",\"updated_at\":") {
        Some(j) => j,
        None => {
            proof {
                assert forall|w: ItemView| !prefix_at(v@, i as int, t_created(w)) by {
                    if prefix_at(v@, i as int, t_created(w)) {
                        lemma_split(v@, j13 as int, ",\"updated_at\":"@, quoted(w.updated_at)
                            + t_closed(w));
                    }
                }
            }
            return None;
        },
    };
    let (upc, j15) = match parse_string(v, j14) {
        Some(p) => p,
        None => {
            proof {
                assert forall|w: ItemView| !prefix_at(v@, i as int, t_created(w)) by {
                    if prefix_at(v@, i as int, t_created(w)) {
                        lemma_split(v@, j13 as int, ",\"updated_at\":"@, quoted(w.updated_at)
                            + t_closed(w));
                        lemma_split(v@, j14 as int, quoted(w.updated_at), t_closed(w));
                        assert(quoted_at(v@, j14 as int, w.updated_at));
                    }
                }
            }
            return None;
        },
    };
    proof {
        assert forall|w: ItemView| #[trigger] prefix_at(v@, i as int, t_created(w)) implies
            w.updated_at == upc@ && prefix_at(v@, j15 as int, t_closed(w)) by {
            lemma_split(v@, j13 as int, ",\"updated_at\":"@, quoted(w.updated_at) + t_closed(w));
            lemma_split(v@, j14 as int, quoted(w.updated_at), t_closed(w));
            assert(quoted_at(v@, j14 as int, w.updated_at));
        }
    }
    Some((crc, upc, j15))
}

/// Decode the optional closure fields ending an item line.
#[verifier::rlimit(100)]
fn parse_item_close(v: &Vec<char>, j15: usize) -> (r: Option<(Option<String>, Option<String>)>)
    ensures
        forall|w: ItemView| #[trigger] prefix_at(v@, j15 as int, t_closed(w)) ==> (r matches Some(
            t,
        ) && w.closed_at == osv(t.0) && w.close_reason == osv(t.1)),
{
    let (closed, j17) = match eat(v, j15, ",\"closed_at\":") {
        Some(j16) => {
            proof {
                reveal_strlit(",\"closed_at\":");
                reveal_strlit(",\"close_reason\":");
                reveal_strlit("}");
                assert forall|w: ItemView| #[trigger] prefix_at(v@, j15 as int, t_closed(w)) implies
                    w.closed_at is Some && prefix_at(v@, j16 as int, quoted(w.closed_at->0)
                    + t_reason(w)) by {
                    if w.closed_at is None {
                        assert(t_closed(w) == t_reason(w));
                        if w.close_reason is Some {
                            assert(t_reason(w) =~= ",\"close_reason\":"@ + (quoted(
                                w.close_reason->0,
                            ) + t_end()));
                            lemma_split(v@, j15 as int, ",\"close_reason\":"@, quoted(
                                w.close_reason->0,
                            ) + t_end());
                            assert(v@.subrange(j15 as int, j15 + 16)[7]
                                == (",\"close_reason\":"@)[7]);
                            assert(v@.subrange(j15 as int, j15 + 13)[7] == (",\"closed_at\":"@)[7]);
                            assert((",\"close_reason\":"@)[7] == '_');
                            assert((",\"closed_at\":"@)[7] == 'd');
                        } else {
                            assert(t_reason(w) == t_end());
                            assert(t_end() =~= "}"@ + Seq::<char>::empty());
                            lemma_split(v@, j15 as int, "}"@, Seq::<char>::empty());
                            assert(v@.subrange(j15 as int, j15 + 1)[0] == ("}"@)[0]);
                            assert(v@.subrange(j15 as int, j15 + 13)[0] == (",\"closed_at\":"@)[0]);
                        }
                    }
                    assert(t_closed(w) =~= ",\"closed_at\":"@ + (quoted(w.closed_at->0) + t_reason(
                        w,
                    )));
                    lemma_split(v@, j15 as int, ",\"closed_at\":"@, quoted(w.closed_at->0)
                        + t_reason(w));
                }
            }
            let (cc, j17) = match parse_string(v, j16) {
                Some(p) => p,
                None => {
                    proof {
                        assert forall|w: ItemView| !prefix_at(v@, j15 as int, t_closed(w)) by {
                            if prefix_at(v@, j15 as int, t_closed(w)) {
                                lemma_split(v@, j16 as int, quoted(w.closed_at->0), t_reason(w));
                                assert(quoted_at(v@, j16 as int, w.closed_at->0));
                            }
                        }
                    }
                    return None;
                },
            };
            proof {
                assert forall|w: ItemView| #[trigger] prefix_at(v@, j15 as int, t_closed(w)) implies
                    w.closed_at == Some(cc@) && prefix_at(v@, j17 as int, t_reason(w)) by {
                    lemma_split(v@, j16 as int, quoted(w.closed_at->0), t_reason(w));
                    assert(quoted_at(v@, j16 as int, w.closed_at->0));
                }
            }
            (Some(crate::text::string_from_chars(&cc)), j17)
        },
        None => {
            proof {
                assert forall|w: ItemView| #[trigger] prefix_at(v@, j15 as int, t_closed(w)) implies
                    w.closed_at is None && prefix_at(v@, j15 as int, t_reason(w)) by {
                    if w.closed_at is Some {
                        assert(t_closed(w) =~= ",\"closed_at\":"@ + (quoted(w.closed_at->0)
                            + t_reason(w)));
                        lemma_split(v@, j15 as int, ",\"closed_at\":"@, quoted(w.closed_at->0)
                            + t_reason(w));
                    }
                    assert(t_closed(w) == t_reason(w));
                }
            }
            (None, j15)
        },
    };
    let reason = match eat(v, j17, ",\"close_reason\":") {
        Some(j18) => {
            proof {
                reveal_strlit(",\"close_reason\":");
                reveal_strlit("}");
                assert forall|w: ItemView| #[trigger] prefix_at(v@, j15 as int, t_closed(w)) implies
                    w.close_reason is Some && prefix_at(v@, j18 as int, quoted(w.close_reason->0)
                    + t_end()) by {
                    if w.close_reason is None {
                        assert(t_reason(w) == t_end());
                        assert(t_end() =~= "}"@ + Seq::<char>::empty());
                        lemma_split(v@, j17 as int, "}"@, Seq::<char>::empty());
                        assert(v@.subrange(j17 as int, j17 + 1)[0] == ("}"@)[0]);
                        assert(v@.subrange(j17 as int, j17 + 16)[0] == (",\"close_reason\":"@)[0]);
                    }
                    assert(t_reason(w) =~= ",\"close_reason\":"@ + (quoted(w.close_reason->0)
                        + t_end()));
                    lemma_split(v@, j17 as int, ",\"close_reason\":"@, quoted(w.close_reason->0)
                        + t_end());
                }
            }
            let (rc, _j19) = match parse_string(v, j18) {
                Some(p) => p,
                None => {
                    proof {
                        assert forall|w: ItemView| !prefix_at(v@, j15 as int, t_closed(w)) by {
                            if prefix_at(v@, j15 as int, t_closed(w)) {
                                lemma_split(v@, j18 as int, quoted(w.close_reason->0), t_end());
                                assert(quoted_at(v@, j18 as int, w.close_reason->0));
                            }
                        }
                    }
                    return None;
                },
            };
            proof {
                assert forall|w: ItemView| #[trigger] prefix_at(v@, j15 as int, t_closed(w)) implies
                    w.close_reason == Some(rc@) by {
                    lemma_split(v@, j18 as int, quoted(w.close_reason->0), t_end());
                    assert(quoted_at(v@, j18 as int, w.close_reason->0));
                }
            }
            Some(crate::text::string_from_chars(&rc))
        },
        None => {
            proof {
                assert forall|w: ItemView| #[trigger] prefix_at(v@, j15 as int, t_closed(w)) implies
                    w.close_reason is None by {
                    if w.close_reason is Some {
                        assert(t_reason(w) =~= ",\"close_reason\":"@ + (quoted(w.close_reason->0)
                            + t_end()));
                        lemma_split(v@, j17 as int, ",\"close_reason\":"@, quoted(
                            w.close_reason->0,
                        ) + t_end());
                    }
                }
            }
            None
        },
    };
    Some((closed, reason))
}

/// Parse one item record line. Exactly the canonical lines are accepted:
/// a line equal to `ser_item(w)` for some view `w` yields the item with
/// that view, and any other line yields nothing.
pub fn parse_item_line(line: &str) -> (r: Option<Item>)
    ensures
        r matches Some(it) ==> line@ == ser_item(it@),
        forall|w: ItemView| line@ == #[trigger] ser_item(w) ==> (r matches Some(it) && it@ == w),
{
    let v = crate::text::chars_vec(line);
    let (idc, titc, j4) = match parse_item_head(&v) {
        Some(t) => t,
        None => {
            return None;
        },
    };
    let (desc, j6) = match parse_item_desc(&v, j4) {
        Some(t) => t,
        None => {
            return None;
        },
    };
    let (st, prio, j10) = match parse_item_status_prio(&v, j6) {
        Some(t) => t,
        None => {
            return None;
        },
    };
    let (labels, j11) = match parse_labels(&v, j10) {
        Some(t) => t,
        None => {
            return None;
        },
    };
    let (crc, upc, j15) = match parse_item_times(&v, j11) {
        Some(t) => t,
        None => {
            return None;
        },
    };
    let (closed, reason) = match parse_item_close(&v, j15) {
        Some(t) => t,
        None => {
            return None;
        },
    };
    let it = Item {
        id: crate::text::string_from_chars(&idc),
        title: crate::text::string_from_chars(&titc),
        description: desc,
        status: st,
        priority: prio,
        labels,
        created_at: crate::text::string_from_chars(&crc),
        updated_at: crate::text::string_from_chars(&upc),
        closed_at: closed,
        close_reason: reason,
    };
    proof {
        assert forall|w: ItemView| v@ == #[trigger] ser_item(w) implies it@ =~= w by {}
    }
    let ser = item_line_chars(&it);
    if !chars_eq(&ser, &v) {
        proof {
            assert forall|w: ItemView| v@ != #[trigger] ser_item(w) by {
                if v@ == ser_item(w) {
                    assert(it@ =~= w);
                    assert(ser@ == ser_item(it@));
                }
            }
        }
        return None;
    }
    proof {
        assert(line@ == ser_item(it@));
    }
    Some(it)
}


proof fn lemma_kind_lits()
    ensures
        forall|k: EdgeKind| (#[trigger] kind_lit(k)).len() >= 1,
        kind_lit(EdgeKind::Blocks)[0] == 'b',
        kind_lit(EdgeKind::ParentChild)[0] == 'p',
        kind_lit(EdgeKind::Related)[0] == 'r',
{
    reveal_strlit("blocks");
    reveal_strlit("parent_child");
    reveal_strlit("related");
    assert forall|k: EdgeKind| (#[trigger] kind_lit(k)).len() >= 1 by {
        match k {
            EdgeKind::Blocks => assert(kind_lit(k).len() == 6),
            EdgeKind::ParentChild => assert(kind_lit(k).len() == 12),
            EdgeKind::Related => assert(kind_lit(k).len() == 7),
        }
    }
}

proof fn lemma_kind_token_case(v: Seq<char>, p: int, w: EdgeView, lit: Seq<char>, k: EdgeKind)
    requires
        prefix_at(v, p, kind_lit(w.kind) + te_created(w)),
        prefix_at(v, p, lit),
        lit == kind_lit(k),
        lit.len() >= 1,
        forall|k2: EdgeKind| (#[trigger] kind_lit(k2)).len() >= 1,
        forall|k2: EdgeKind| k2 != k ==> #[trigger] kind_lit(k2)[0] != lit[0],
    ensures
        w.kind == k,
{
    lemma_split(v, p, kind_lit(w.kind), te_created(w));
    assert(v.subrange(p, p + kind_lit(w.kind).len())[0] == kind_lit(w.kind)[0]);
    assert(v.subrange(p, p + lit.len())[0] == lit[0]);
    assert(kind_lit(w.kind)[0] == lit[0]);
}

/// Decode one edge kind variant name.
fn parse_kind_token(v: &Vec<char>, p: usize) -> (r: Option<(EdgeKind, usize)>)
    ensures
        forall|w: EdgeView| #[trigger] prefix_at(v@, p as int, kind_lit(w.kind) + te_created(w))
            ==> (r matches Some(t) && w.kind == t.0 && t.1 == p + kind_lit(w.kind).len()),
{
    if let Some(j) = eat(v, p, "blocks") {
        proof {
            lemma_kind_lits();
            assert forall|w: EdgeView| #[trigger] prefix_at(
                v@,
                p as int,
                kind_lit(w.kind) + te_created(w),
            ) implies w.kind == EdgeKind::Blocks && j == p + kind_lit(w.kind).len() by {
                lemma_kind_token_case(v@, p as int, w, "blocks"@, EdgeKind::Blocks);
            }
        }
        Some((EdgeKind::Blocks, j))
    } else if let Some(j) = eat(v, p, "parent_child") {
        proof {
            lemma_kind_lits();
            assert forall|w: EdgeView| #[trigger] prefix_at(
                v@,
                p as int,
                kind_lit(w.kind) + te_created(w),
            ) implies w.kind == EdgeKind::ParentChild && j == p + kind_lit(w.kind).len() by {
                lemma_kind_token_case(v@, p as int, w, "parent_child"@, EdgeKind::ParentChild);
            }
        }
        Some((EdgeKind::ParentChild, j))
    } else if let Some(j) = eat(v, p, "related") {
        proof {
            lemma_kind_lits();
            assert forall|w: EdgeView| #[trigger] prefix_at(
                v@,
                p as int,
                kind_lit(w.kind) + te_created(w),
            ) implies w.kind == EdgeKind::Related && j == p + kind_lit(w.kind).len() by {
                lemma_kind_token_case(v@, p as int, w, "related"@, EdgeKind::Related);
            }
        }
        Some((EdgeKind::Related, j))
    } else {
        proof {
            lemma_kind_lits();
            assert forall|w: EdgeView| !prefix_at(
                v@,
                p as int,
                kind_lit(w.kind) + te_created(w),
            ) by {
                if prefix_at(v@, p as int, kind_lit(w.kind) + te_created(w)) {
                    lemma_split(v@, p as int, kind_lit(w.kind), te_created(w));
                }
            }
        }
        None
    }
}

/// Decode the opening of an edge line: the two endpoints.
#[verifier::rlimit(100)]
fn parse_edge_head(v: &Vec<char>) -> (r: Option<(Vec<char>, Vec<char>, usize)>)
    ensures
        forall|w: EdgeView| v@ == #[trigger] ser_edge(w) ==> (r matches Some(t) && w.from_id
            == t.0@ && w.to_id == t.1@ && t.2 <= v@.len() && prefix_at(v@, t.2 as int, te_kind(w))),
{
    proof {
        assert forall|w: EdgeView| v@ == #[trigger] ser_edge(w) implies prefix_at(
            v@,
            0,
            "{\"from_id\":"@ + (quoted(w.from_id) + (",\"to_id\":"@ + (quoted(w.to_id) + te_kind(
                w,
            )))),
        ) by {
            assert(v@.subrange(0, v@.len() as int) =~= v@);
            assert(ser_edge(w) =~= "{\"from_id\":"@ + (quoted(w.from_id) + (",\"to_id\":"@ + (
            quoted(w.to_id) + te_kind(w)))));
        }
    }
    let j1 = match eat(v, 0, "{\"from_id\":") {
        Some(j) => j,
        None => {
            proof {
                assert forall|w: EdgeView| v@ != #[trigger] ser_edge(w) by {
                    if v@ == ser_edge(w) {
                        lemma_split(v@, 0, "{\"from_id\":"@, quoted(w.from_id) + (",\"to_id\":"@
                            + (quoted(w.to_id) + te_kind(w))));
                    }
                }
            }
            return None;
        },
    };
    let (fc, j2) = match parse_string(v, j1) {
        Some(p) => p,
        None => {
            proof {
                assert forall|w: EdgeView| v@ != #[trigger] ser_edge(w) by {
                    if v@ == ser_edge(w) {
                        lemma_split(v@, 0, "{\"from_id\":"@, quoted(w.from_id) + (",\"to_id\":"@
                            + (quoted(w.to_id) + te_kind(w))));
                        lemma_split(v@, j1 as int, quoted(w.from_id), ",\"to_id\":"@ + (quoted(
                            w.to_id,
                        ) + te_kind(w)));
                        assert(quoted_at(v@, j1 as int, w.from_id));
                    }
                }
            }
            return None;
        },
    };
    proof {
        assert forall|w: EdgeView| v@ == #[trigger] ser_edge(w) implies w.from_id == fc@
            && prefix_at(v@, j2 as int, ",\"to_id\":"@ + (quoted(w.to_id) + te_kind(w))) by {
            lemma_split(v@, 0, "{\"from_id\":"@, quoted(w.from_id) + (",\"to_id\":"@ + (quoted(
                w.to_id,
            ) + te_kind(w))));
            lemma_split(v@, j1 as int, quoted(w.from_id), ",\"to_id\":"@ + (quoted(w.to_id)
                + te_kind(w)));
            assert(quoted_at(v@, j1 as int, w.from_id));
        }
    }
    let j3 = match eat(v, j2, ",\"to_id\":") {
        Some(j) => j,
        None => {
            proof {
                assert forall|w: EdgeView| v@ != #[trigger] ser_edge(w) by {
                    if v@ == ser_edge(w) {
                        lemma_split(v@, j2 as int, ",\"to_id\":"@, quoted(w.to_id) + te_kind(w));
                    }
                }
            }
            return None;
        },
    };
    let (tc, j4) = match parse_string(v, j3) {
        Some(p) => p,
        None => {
            proof {
                assert forall|w: EdgeView| v@ != #[trigger] ser_edge(w) by {
                    if v@ == ser_edge(w) {
                        lemma_split(v@, j2 as int, ",\"to_id\":"@, quoted(w.to_id) + te_kind(w));
                        lemma_split(v@, j3 as int, quoted(w.to_id), te_kind(w));
                        assert(quoted_at(v@, j3 as int, w.to_id));
                    }
                }
            }
            return None;
        },
    };
    proof {
        assert forall|w: EdgeView| v@ == #[trigger] ser_edge(w) implies w.to_id == tc@ && prefix_at(
            v@,
            j4 as int,
            te_kind(w),
        ) by {
            lemma_split(v@, j2 as int, ",\"to_id\":"@, quoted(w.to_id) + te_kind(w));
            lemma_split(v@, j3 as int, quoted(w.to_id), te_kind(w));
            assert(quoted_at(v@, j3 as int, w.to_id));
        }
    }
    Some((fc, tc, j4))
}

/// Decode the kind, timestamp and tombstone flag of an edge line.
#[verifier::rlimit(100)]
fn parse_edge_mid(v: &Vec<char>, i: usize) -> (r: Option<(EdgeKind, Vec<char>, bool)>)
    ensures
        forall|w: EdgeView| #[trigger] prefix_at(v@, i as int, te_kind(w)) ==> (r matches Some(t)
            && w.kind == t.0 && w.created_at == t.1@ && w.deleted == t.2),
{
    proof {
        assert forall|w: EdgeView| #[trigger] prefix_at(v@, i as int, te_kind(w)) implies prefix_at(
            v@,
            i as int,
            ",\"kind\":\""@ + (kind_lit(w.kind) + te_created(w)),
        ) by {
            assert(te_kind(w) =~= ",\"kind\":\""@ + (kind_lit(w.kind) + te_created(w)));
        }
    }
    let j5 = match eat(v, i, ",\"kind\":\"") {
        Some(j) => j,
        None => {
            proof {
                assert forall|w: EdgeView| !prefix_at(v@, i as int, te_kind(w)) by {
                    if prefix_at(v@, i as int, te_kind(w)) {
                        lemma_split(v@, i as int, ",\"kind\":\""@, kind_lit(w.kind) + te_created(
                            w,
                        ));
                    }
                }
            }
            return None;
        },
    };
    proof {
        assert forall|w: EdgeView| #[trigger] prefix_at(v@, i as int, te_kind(w)) implies prefix_at(
            v@,
            j5 as int,
            kind_lit(w.kind) + te_created(w),
        ) by {
            lemma_split(v@, i as int, ",\"kind\":\""@, kind_lit(w.kind) + te_created(w));
        }
    }
    let (kind, j6) = match parse_kind_token(v, j5) {
        Some(t) => t,
        None => {
            proof {
                assert(forall|w: EdgeView| !prefix_at(v@, i as int, te_kind(w)));
            }
            return None;
        },
    };
    proof {
        assert forall|w: EdgeView| #[trigger] prefix_at(v@, i as int, te_kind(w)) implies w.kind
            == kind && prefix_at(v@, j6 as int, "\",\"created_at\":"@ + (quoted(w.created_at)
            + te_end(w))) by {
            lemma_split(v@, j5 as int, kind_lit(w.kind), te_created(w));
            assert(te_created(w) =~= "\",\"created_at\":"@ + (quoted(w.created_at) + te_end(w)));
        }
    }
    let j7 = match eat(v, j6, "\",\"created_at\":") {
        Some(j) => j,
        None => {
            proof {
                assert forall|w: EdgeView| !prefix_at(v@, i as int, te_kind(w)) by {
                    if prefix_at(v@, i as int, te_kind(w)) {
                        lemma_split(v@, j6 as int, "\",\"created_at\":"@, quoted(w.created_at)
                            + te_end(w));
                    }
                }
            }
            return None;
        },
    };
    let (cc, j8) = match parse_string(v, j7) {
        Some(p) => p,
        None => {
            proof {
                assert forall|w: EdgeView| !prefix_at(v@, i as int, te_kind(w)) by {
                    if prefix_at(v@, i as int, te_kind(w)) {
                        lemma_split(v@, j6 as int, "\",\"created_at\":"@, quoted(w.created_at)
                            + te_end(w));
                        lemma_split(v@, j7 as int, quoted(w.created_at), te_end(w));
                        assert(quoted_at(v@, j7 as int, w.created_at));
                    }
                }
            }
            return None;
        },
    };
    proof {
        assert forall|w: EdgeView| #[trigger] prefix_at(v@, i as int, te_kind(w)) implies
            w.created_at == cc@ && prefix_at(v@, j8 as int, te_end(w)) by {
            lemma_split(v@, j6 as int, "\",\"created_at\":"@, quoted(w.created_at) + te_end(w));
            lemma_split(v@, j7 as int, quoted(w.created_at), te_end(w));
            assert(quoted_at(v@, j7 as int, w.created_at));
        }
    }
    let deleted = if let Some(_j9) = eat(v, j8, ",\"deleted\":true}") {
        proof {
            reveal_strlit(",\"deleted\":true}");
            reveal_strlit("}");
            assert forall|w: EdgeView| #[trigger] prefix_at(v@, i as int, te_kind(w)) implies
                w.deleted by {
                if !w.deleted {
                    assert(te_end(w) == "}"@);
                    assert(v@.subrange(j8 as int, j8 + 1)[0] == ("}"@)[0]);
                    assert(v@.subrange(j8 as int, j8 + 15)[0] == (",\"deleted\":true}"@)[0]);
                }
            }
        }
        true
    } else if let Some(_j9) = eat(v, j8, "}") {
        proof {
            reveal_strlit(",\"deleted\":true}");
            reveal_strlit("}");
            assert forall|w: EdgeView| #[trigger] prefix_at(v@, i as int, te_kind(w)) implies
                !w.deleted by {
                if w.deleted {
                    assert(te_end(w) == ",\"deleted\":true}"@);
                    assert(v@.subrange(j8 as int, j8 + 15)[0] == (",\"deleted\":true}"@)[0]);
                    assert(v@.subrange(j8 as int, j8 + 1)[0] == ("}"@)[0]);
                }
            }
        }
        false
    } else {
        proof {
            assert forall|w: EdgeView| !prefix_at(v@, i as int, te_kind(w)) by {
                if prefix_at(v@, i as int, te_kind(w)) {
                    if w.deleted {
                        assert(te_end(w) == ",\"deleted\":true}"@);
                    } else {
                        assert(te_end(w) == "}"@);
                    }
                }
            }
        }
        return None;
    };
    Some((kind, cc, deleted))
}

/// Parse one edge record line. Exactly the canonical lines are accepted:
/// a line equal to `ser_edge(w)` for some view `w` yields the edge with
/// that view, and any other line yields nothing.
pub fn parse_edge_line(line: &str) -> (r: Option<crate::types::Edge>)
    ensures
        r matches Some(e) ==> line@ == ser_edge(e@),
        forall|w: EdgeView| line@ == #[trigger] ser_edge(w) ==> (r matches Some(e) && e@ == w),
{
    let v = crate::text::chars_vec(line);
    let (fc, tc, j4) = match parse_edge_head(&v) {
        Some(t) => t,
        None => {
            return None;
        },
    };
    let (kind, cc, deleted) = match parse_edge_mid(&v, j4) {
        Some(t) => t,
        None => {
            return None;
        },
    };
    let e = crate::types::Edge {
        from_id: crate::text::string_from_chars(&fc),
        to_id: crate::text::string_from_chars(&tc),
        kind,
        created_at: crate::text::string_from_chars(&cc),
        deleted,
    };
    proof {
        assert forall|w: EdgeView| v@ == #[trigger] ser_edge(w) implies e@ =~= w by {}
    }
    let ser = edge_line_chars(&e);
    if !chars_eq(&ser, &v) {
        proof {
            assert forall|w: EdgeView| v@ != #[trigger] ser_edge(w) by {
                if v@ == ser_edge(w) {
                    assert(e@ =~= w);
                    assert(ser@ == ser_edge(e@));
                }
            }
        }
        return None;
    }
    proof {
        assert(line@ == ser_edge(e@));
    }
    Some(e)
}

} // verus!
