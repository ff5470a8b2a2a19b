use vstd::prelude::*;

verus! {

// ---------------------------------------------------------------------------
// Byte classes
// ---------------------------------------------------------------------------

/// ASCII whitespace: the space character and the controls tab through
/// carriage return, exactly the ASCII bytes that Rust's `char::is_whitespace`
/// accepts.
pub open spec fn is_ws(b: u8) -> bool {
    b == 32 || (9 <= b && b <= 13)
}

/// An ASCII decimal digit.
pub open spec fn is_digit(b: u8) -> bool {
    48 <= b && b <= 57
}

/// No byte of `s` is whitespace.
pub open spec fn no_ws(s: Seq<u8>) -> bool {
    forall|i: int| 0 <= i < s.len() ==> !is_ws(#[trigger] s[i])
}

// ---------------------------------------------------------------------------
// Counting tokens and record separators
// ---------------------------------------------------------------------------

/// A whitespace-separated token begins at position `i` of `s`.
pub open spec fn is_token_start(s: Seq<u8>, i: int) -> bool {
    &&& 0 <= i < s.len()
    &&& !is_ws(s[i])
    &&& (i == 0 || is_ws(s[i - 1]))
}

/// How many whitespace-separated tokens `s` holds.
pub open spec fn token_count(s: Seq<u8>) -> nat
    decreases s.len(),
{
    if s.len() == 0 {
        0
    } else {
        token_count(s.drop_last()) + if is_token_start(s, s.len() - 1) {
            1nat
        } else {
            0nat
        }
    }
}

/// How many newline bytes `s` holds.
pub open spec fn newline_count(s: Seq<u8>) -> nat
    decreases s.len(),
{
    if s.len() == 0 {
        0
    } else {
        newline_count(s.drop_last()) + if s.last() == 10 {
            1nat
        } else {
            0nat
        }
    }
}

/// Appending one byte adds a token exactly when the byte opens a new token,
/// and a newline exactly when the byte is one.
pub proof fn lemma_counts_push(s: Seq<u8>, b: u8)
    ensures
        token_count(s.push(b)) == token_count(s) + if !is_ws(b) && (s.len() == 0 || is_ws(
            s.last(),
        )) {
            1nat
        } else {
            0nat
        },
        newline_count(s.push(b)) == newline_count(s) + if b == 10 {
            1nat
        } else {
            0nat
        },
{
    assert(s.push(b).drop_last() =~= s);
    assert(s.push(b).last() == b);
}

/// Appending one whitespace-free, non-empty chunk to a buffer that is empty
/// or ends in whitespace adds exactly one token and no newline, and leaves
/// the buffer ending in a non-whitespace byte.
pub proof fn lemma_counts_append_word(s: Seq<u8>, c: Seq<u8>)
    requires
        c.len() > 0,
        no_ws(c),
        s.len() == 0 || is_ws(s.last()),
    ensures
        token_count(s + c) == token_count(s) + 1,
        newline_count(s + c) == newline_count(s),
        (s + c).len() > 0 && !is_ws((s + c).last()),
    decreases c.len(),
{
    if c.len() == 1 {
        assert(s + c =~= s.push(c[0]));
        lemma_counts_push(s, c[0]);
    } else {
        let c0 = c.drop_last();
        assert(no_ws(c0));
        lemma_counts_append_word(s, c0);
        assert((s + c0).push(c.last()) =~= s + c);
        lemma_counts_push(s + c0, c.last());
    }
}

/// Appending a whitespace-free word followed by a single space adds exactly
/// one token, keeps the newline count, and leaves the buffer ending in
/// whitespace.
pub proof fn lemma_counts_append_token(s: Seq<u8>, c: Seq<u8>)
    requires
        c.len() > 0,
        no_ws(c),
        s.len() == 0 || is_ws(s.last()),
    ensures
        token_count(s + c.push(32)) == token_count(s) + 1,
        newline_count(s + c.push(32)) == newline_count(s),
        (s + c.push(32)).len() > 0 && is_ws((s + c.push(32)).last()),
{
    lemma_counts_append_word(s, c);
    assert(s + c.push(32) =~= (s + c).push(32));
    lemma_counts_push(s + c, 32);
}

// ---------------------------------------------------------------------------
// Splitting into tokens
// ---------------------------------------------------------------------------

/// The position just past the token that starts at `i`: the first position at
/// or after `i` holding whitespace, or the end of `s`.
pub open spec fn token_end(s: Seq<u8>, i: int) -> int
    decreases s.len() - i,
{
    if i >= s.len() || i < 0 {
        i
    } else if is_ws(s[i]) {
        i
    } else {
        token_end(s, i + 1)
    }
}

/// `token_end` stays within `[i, s.len()]` and everything before it is
/// token material.
pub proof fn lemma_token_end(s: Seq<u8>, i: int)
    requires
        0 <= i <= s.len(),
    ensures
        i <= token_end(s, i) <= s.len(),
        forall|j: int| i <= j < token_end(s, i) ==> !is_ws(#[trigger] s[j]),
        token_end(s, i) < s.len() ==> is_ws(s[token_end(s, i)]),
    decreases s.len() - i,
{
    if i < s.len() && !is_ws(s[i]) {
        lemma_token_end(s, i + 1);
    }
}

/// The whitespace-separated tokens of `s`, starting from position `i`.
pub open spec fn tokens_from(s: Seq<u8>, i: int) -> Seq<Seq<u8>>
    decreases s.len() - i,
{
    if i >= s.len() || i < 0 {
        Seq::empty()
    } else if is_ws(s[i]) {
        tokens_from(s, i + 1)
    } else {
        proof {
            lemma_token_end(s, i);
        }
        seq![s.subrange(i, token_end(s, i))] + tokens_from(s, token_end(s, i))
    }
}

/// The whitespace-separated tokens of the whole of `s`.
pub open spec fn tokens_of(s: Seq<u8>) -> Seq<Seq<u8>> {
    tokens_from(s, 0)
}

/// Splits `s` into its whitespace-separated tokens.
pub fn split_tokens(s: &Vec<u8>) -> (r: Vec<Vec<u8>>)
    ensures
        r@.map_values(|t: Vec<u8>| t@) == tokens_of(s@),
{
    let mut r: Vec<Vec<u8>> = Vec::new();
    let mut i: usize = 0;
    while i < s.len()
        invariant
            i <= s.len(),
            tokens_of(s@) == r@.map_values(|t: Vec<u8>| t@) + tokens_from(s@, i as int),
        decreases s.len() - i,
    {
        if is_ws_byte(s[i]) {
            assert(tokens_from(s@, i as int) == tokens_from(s@, i + 1));
            i = i + 1;
        } else {
            proof {
                lemma_token_end(s@, i as int);
            }
            let ghost e = token_end(s@, i as int);
            let mut tok: Vec<u8> = Vec::new();
            let mut j: usize = i;
            assert(tok@ =~= s@.subrange(i as int, i as int));
            while j < s.len() && !is_ws_byte(s[j])
                invariant
                    i <= j <= s.len(),
                    i < s.len(),
                    e == token_end(s@, i as int),
                    forall|k: int| i <= k < j ==> !is_ws(#[trigger] s@[k]),
                    tok@ == s@.subrange(i as int, j as int),
                decreases s.len() - j,
            {
                tok.push(s[j]);
                assert(tok@ =~= s@.subrange(i as int, j + 1));
                j = j + 1;
            }
            proof {
                lemma_token_end_stable(s@, i as int, j as int);
                lemma_token_end(s@, j as int);
            }
            assert(e == j);
            assert(tokens_from(s@, i as int) == seq![s@.subrange(i as int, e)] + tokens_from(
                s@,
                e,
            ));
            let ghost r0 = r@;
            r.push(tok);
            proof {
                assert(r@ =~= r0.push(tok));
                assert(r@.map_values(|t: Vec<u8>| t@) =~= r0.map_values(|t: Vec<u8>| t@).push(
                    tok@,
                ));
                assert(r0.map_values(|t: Vec<u8>| t@).push(tok@) + tokens_from(s@, j as int)
                    =~= r0.map_values(|t: Vec<u8>| t@) + tokens_from(s@, i as int));
            }
            i = j;
        }
    }
    assert(tokens_from(s@, i as int) =~= Seq::<Seq<u8>>::empty());
    assert(r@.map_values(|t: Vec<u8>| t@) =~= tokens_of(s@));
    r
}

/// `token_end` is the same measured from any point inside the token.
pub proof fn lemma_token_end_stable(s: Seq<u8>, i: int, j: int)
    requires
        0 <= i <= j <= s.len(),
        forall|k: int| i <= k < j ==> !is_ws(#[trigger] s[k]),
    ensures
        token_end(s, i) == token_end(s, j),
    decreases j - i,
{
    if i < j {
        lemma_token_end_stable(s, i + 1, j);
    }
}

/// Scanning past `a` inside `a + b` is scanning `b`: `token_end` shifts by
/// `a`'s length.
proof fn lemma_token_end_shift(a: Seq<u8>, b: Seq<u8>, k: int)
    requires
        0 <= k <= b.len(),
    ensures
        token_end(a + b, a.len() + k) == a.len() + token_end(b, k),
    decreases b.len() - k,
{
    if k < b.len() && !is_ws(b[k]) {
        lemma_token_end_shift(a, b, k + 1);
    }
}

/// The tokens of `a + b` past `a` are the tokens of `b`.
proof fn lemma_tokens_shift(a: Seq<u8>, b: Seq<u8>, k: int)
    requires
        0 <= k <= b.len(),
    ensures
        tokens_from(a + b, a.len() + k) == tokens_from(b, k),
    decreases b.len() - k,
{
    if k == b.len() {
    } else if is_ws(b[k]) {
        lemma_tokens_shift(a, b, k + 1);
    } else {
        lemma_token_end(b, k);
        lemma_token_end_shift(a, b, k);
        let e = token_end(b, k);
        lemma_tokens_shift(a, b, e);
        assert((a + b).subrange(a.len() + k, a.len() + e) =~= b.subrange(k, e));
    }
}

/// Tokens do not cross the boundary of a buffer that ends in whitespace:
/// the tokens of `a + b` from a position in `a` are the tokens of `a` from
/// there, then the tokens of `b`.
proof fn lemma_tokens_concat_from(a: Seq<u8>, b: Seq<u8>, i: int)
    requires
        0 <= i <= a.len(),
        a.len() == 0 || is_ws(a.last()),
    ensures
        tokens_from(a + b, i) == tokens_from(a, i) + tokens_from(b, 0),
    decreases a.len() - i,
{
    if i == a.len() {
        lemma_tokens_shift(a, b, 0);
        assert(Seq::<Seq<u8>>::empty() + tokens_from(b, 0) =~= tokens_from(b, 0));
    } else if is_ws(a[i]) {
        lemma_tokens_concat_from(a, b, i + 1);
    } else {
        lemma_token_end(a, i);
        let e = token_end(a, i);
        if e == a.len() {
            assert(!is_ws(a[a.len() - 1]));
            assert(false);
        }
        assert forall|k: int| i <= k < e implies !is_ws((a + b)[k]) by {
            assert(!is_ws(a[k]));
        }
        lemma_token_end_stable(a + b, i, e);
        assert(is_ws((a + b)[e]));
        assert(token_end(a + b, e) == e);
        lemma_tokens_concat_from(a, b, e);
        assert((a + b).subrange(i, e) =~= a.subrange(i, e));
        assert(seq![a.subrange(i, e)] + (tokens_from(a, e) + tokens_from(b, 0)) =~= (
        seq![a.subrange(i, e)] + tokens_from(a, e)) + tokens_from(b, 0));
    }
}

/// Appending one whitespace-free word and a space appends exactly that word
/// to the token sequence.
pub proof fn lemma_tokens_append_word_token(s: Seq<u8>, w: Seq<u8>)
    requires
        w.len() > 0,
        no_ws(w),
        s.len() == 0 || is_ws(s.last()),
    ensures
        tokens_of(s + w.push(32)) == tokens_of(s).push(w),
{
    let b = w.push(32);
    lemma_tokens_concat_from(s, b, 0);
    lemma_token_end(b, 0);
    lemma_token_end_stable(b, 0, w.len() as int);
    assert(token_end(b, 0) == w.len());
    assert(tokens_from(b, 0) == seq![b.subrange(0, w.len() as int)] + tokens_from(
        b,
        w.len() as int,
    ));
    assert(b.subrange(0, w.len() as int) =~= w);
    assert(tokens_from(b, w.len() as int) == tokens_from(b, w.len() as int + 1));
    assert(tokens_from(b, w.len() as int + 1) =~= Seq::<Seq<u8>>::empty());
    assert(tokens_of(s) + seq![w] =~= tokens_of(s).push(w));
    assert(seq![w] + Seq::<Seq<u8>>::empty() =~= seq![w]);
}

/// Appending a newline leaves the token sequence unchanged when the buffer
/// ends in whitespace or is empty.
pub proof fn lemma_tokens_append_newline(s: Seq<u8>)
    requires
        s.len() == 0 || is_ws(s.last()),
    ensures
        tokens_of(s.push(10)) == tokens_of(s),
{
    assert(s.push(10) =~= s + seq![10u8]);
    lemma_tokens_concat_from(s, seq![10u8], 0);
    assert(tokens_from(seq![10u8], 0) == tokens_from(seq![10u8], 1));
    assert(tokens_from(seq![10u8], 1) =~= Seq::<Seq<u8>>::empty());
    assert(tokens_of(s) + Seq::<Seq<u8>>::empty() =~= tokens_of(s));
}

/// Whether `b` is ASCII whitespace.
pub fn is_ws_byte(b: u8) -> (r: bool)
    ensures
        r == is_ws(b),
{
    b == 32 || (9 <= b && b <= 13)
}

// ---------------------------------------------------------------------------
// Splitting into lines
// ---------------------------------------------------------------------------

/// The position of the newline that ends the line starting at `i`, or the end
/// of `s` if no newline follows.
pub open spec fn line_end(s: Seq<u8>, i: int) -> int
    decreases s.len() - i,
{
    if i >= s.len() || i < 0 {
        i
    } else if s[i] == 10 {
        i
    } else {
        line_end(s, i + 1)
    }
}

/// `line_end` stays within `[i, s.len()]`, nothing before it is a newline,
/// and it points at a newline unless it is the end of `s`.
pub proof fn lemma_line_end(s: Seq<u8>, i: int)
    requires
        0 <= i <= s.len(),
    ensures
        i <= line_end(s, i) <= s.len(),
        forall|j: int| i <= j < line_end(s, i) ==> #[trigger] s[j] != 10,
        line_end(s, i) < s.len() ==> s[line_end(s, i)] == 10,
    decreases s.len() - i,
{
    if i < s.len() && s[i] != 10 {
        lemma_line_end(s, i + 1);
    }
}

/// A line with a trailing carriage return has it removed, as `str::lines`
/// does.
pub open spec fn strip_cr(l: Seq<u8>) -> Seq<u8> {
    if l.len() > 0 && l.last() == 13 {
        l.drop_last()
    } else {
        l
    }
}

/// The lines of `s` from position `i` on: split at newline bytes, the final
/// newline optional, each line stripped of one trailing carriage return.
pub open spec fn lines_from(s: Seq<u8>, i: int) -> Seq<Seq<u8>>
    decreases s.len() + 1 - i,
{
    if i >= s.len() || i < 0 {
        Seq::empty()
    } else {
        proof {
            lemma_line_end(s, i);
        }
        seq![strip_cr(s.subrange(i, line_end(s, i)))] + lines_from(s, line_end(s, i) + 1)
    }
}

/// The lines of the whole of `s`.
pub open spec fn lines_of(s: Seq<u8>) -> Seq<Seq<u8>> {
    lines_from(s, 0)
}

/// `line_end` is the same measured from any point inside the line.
pub proof fn lemma_line_end_stable(s: Seq<u8>, i: int, j: int)
    requires
        0 <= i <= j <= s.len(),
        forall|k: int| i <= k < j ==> #[trigger] s[k] != 10,
    ensures
        line_end(s, i) == line_end(s, j),
    decreases j - i,
{
    if i < j {
        lemma_line_end_stable(s, i + 1, j);
    }
}

/// Splits `s` into its lines, as `str::lines` splits text.
pub fn split_lines(s: &Vec<u8>) -> (r: Vec<Vec<u8>>)
    ensures
        r@.map_values(|l: Vec<u8>| l@) == lines_of(s@),
{
    let mut r: Vec<Vec<u8>> = Vec::new();
    let mut i: usize = 0;
    while i < s.len()
        invariant
            i <= s.len(),
            lines_of(s@) == r@.map_values(|l: Vec<u8>| l@) + lines_from(s@, i as int),
        decreases s.len() - i,
    {
        proof {
            lemma_line_end(s@, i as int);
        }
        let ghost e = line_end(s@, i as int);
        let mut line: Vec<u8> = Vec::new();
        let mut j: usize = i;
        assert(line@ =~= s@.subrange(i as int, i as int));
        while j < s.len() && s[j] != 10
            invariant
                i <= j <= s.len(),
                i < s.len(),
                e == line_end(s@, i as int),
                forall|k: int| i <= k < j ==> #[trigger] s@[k] != 10,
                line@ == s@.subrange(i as int, j as int),
            decreases s.len() - j,
        {
            line.push(s[j]);
            assert(line@ =~= s@.subrange(i as int, j + 1));
            j = j + 1;
        }
        proof {
            lemma_line_end_stable(s@, i as int, j as int);
        }
        assert(e == j);
        if line.len() > 0 && line[line.len() - 1] == 13 {
            line.pop();
            assert(line@ =~= strip_cr(s@.subrange(i as int, e)));
        }
        assert(line@ == strip_cr(s@.subrange(i as int, e)));
        assert(lines_from(s@, i as int) == seq![strip_cr(s@.subrange(i as int, e))] + lines_from(
            s@,
            e + 1,
        ));
        let ghost r0 = r@;
        r.push(line);
        proof {
            assert(r@ =~= r0.push(line));
            assert(r@.map_values(|l: Vec<u8>| l@) =~= r0.map_values(|l: Vec<u8>| l@).push(line@));
            assert(r0.map_values(|l: Vec<u8>| l@).push(line@) + lines_from(s@, e + 1) =~= r0
                .map_values(|l: Vec<u8>| l@) + lines_from(s@, i as int));
        }
        if j < s.len() {
            i = j + 1;
        } else {
            assert(lines_from(s@, e + 1) =~= Seq::<Seq<u8>>::empty());
            assert(lines_from(s@, s@.len() as int) =~= Seq::<Seq<u8>>::empty());
            i = s.len();
        }
    }
    assert(lines_from(s@, i as int) =~= Seq::<Seq<u8>>::empty());
    assert(r@.map_values(|l: Vec<u8>| l@) =~= lines_of(s@));
    r
}

// ---------------------------------------------------------------------------
// Decimal representation of integers
// ---------------------------------------------------------------------------

/// The decimal digits of `n`, most significant first.
pub open spec fn udec(n: nat) -> Seq<u8>
    decreases n,
{
    if n < 10 {
        seq![(48 + n) as u8]
    } else {
        udec(n / 10).push((48 + n % 10) as u8)
    }
}

/// The canonical base-10 representation of `v`: a minus sign for negative
/// values, then the digits without leading zeros.
pub open spec fn dec_repr(v: int) -> Seq<u8> {
    if v < 0 {
        seq![45u8] + udec((-v) as nat)
    } else {
        udec(v as nat)
    }
}

/// One emitted number: its decimal representation followed by one space.
pub open spec fn int_token(v: int) -> Seq<u8> {
    dec_repr(v).push(32)
}

/// Every byte of a decimal representation is a digit or the minus sign, so
/// none is whitespace.
pub proof fn lemma_dec_repr_bytes(v: int)
    ensures
        dec_repr(v).len() > 0,
        no_ws(dec_repr(v)),
        forall|i: int|
            0 <= i < dec_repr(v).len() ==> (is_digit(#[trigger] dec_repr(v)[i]) || dec_repr(v)[i]
                == 45),
{
    if v < 0 {
        lemma_udec_bytes((-v) as nat);
    } else {
        lemma_udec_bytes(v as nat);
    }
}

/// Every byte that `udec` produces is a decimal digit.
pub proof fn lemma_udec_bytes(n: nat)
    ensures
        udec(n).len() > 0,
        forall|i: int| 0 <= i < udec(n).len() ==> is_digit(#[trigger] udec(n)[i]),
    decreases n,
{
    if n >= 10 {
        lemma_udec_bytes(n / 10);
    }
}

/// Appends the decimal digits of `x` to `out`.
fn push_udec(out: &mut Vec<u8>, x: u64)
    ensures
        final(out)@ == old(out)@ + udec(x as nat),
    decreases x,
{
    if x >= 10 {
        push_udec(out, x / 10);
        let d: u8 = (48 + (x % 10)) as u8;
        out.push(d);
        assert(out@ =~= old(out)@ + udec(x as nat));
    } else {
        let d: u8 = (48 + x) as u8;
        out.push(d);
        assert(out@ =~= old(out)@ + udec(x as nat));
    }
}

/// Appends the canonical decimal representation of `v` to `out`.
pub fn push_dec_i64(out: &mut Vec<u8>, v: i64)
    ensures
        final(out)@ == old(out)@ + dec_repr(v as int),
{
    if v < 0 {
        out.push(45);
        let wide: i128 = v as i128;
        let mag: u64 = (-wide) as u64;
        assert(mag == (-(v as int)) as nat);
        push_udec(out, mag);
        assert(out@ =~= old(out)@ + dec_repr(v as int));
    } else {
        push_udec(out, v as u64);
    }
}

/// Appends the decimal representation of `v` and one trailing space, the way
/// every number reaches the generated input.
pub fn push_int_token(out: &mut Vec<u8>, v: i64)
    ensures
        final(out)@ == old(out)@ + int_token(v as int),
{
    push_dec_i64(out, v);
    out.push(32);
    assert(out@ =~= old(out)@ + int_token(v as int));
}

// ---------------------------------------------------------------------------
// Reading integer literals
// ---------------------------------------------------------------------------

/// The digits of `n` carry no leading zero and read back as `n`.
proof fn lemma_udec_reads_back(n: nat)
    ensures
        all_digits(udec(n)),
        digits_val(udec(n)) == n,
    decreases n,
{
    if n < 10 {
        let t = udec(n);
        assert(t =~= seq![(48 + n) as u8]);
        assert(t.drop_last() =~= Seq::<u8>::empty());
        assert(t.last() == (48 + n) as u8);
        assert((48 + n) as u8 == 48 + n);
        assert(digits_val(t) == digits_val(t.drop_last()) * 10 + (t.last() - 48));
        assert(digits_val(t.drop_last()) == 0);
    } else {
        lemma_udec_reads_back(n / 10);
        let t = udec(n);
        assert(t == udec(n / 10).push((48 + n % 10) as u8));
        assert(t.drop_last() =~= udec(n / 10));
        assert(t.last() == (48 + n % 10) as u8);
        assert((48 + n % 10) as u8 == 48 + n % 10);
        assert(digits_val(t) == digits_val(t.drop_last()) * 10 + (t.last() - 48));
        assert(digits_val(t) == (n / 10) * 10 + n % 10);
        assert((n / 10) * 10 + n % 10 == n) by (nonlinear_arith);
    }
}

/// The representation is canonical: formatting a value and reading the
/// digits back yields exactly that value.
pub proof fn lemma_dec_repr_reads_back(v: i64)
    ensures
        is_i64_literal(dec_repr(v as int)),
        literal_value(dec_repr(v as int)) == v as int,
{
    let t = dec_repr(v as int);
    if v < 0 {
        let m = (-(v as int)) as nat;
        lemma_udec_reads_back(m);
        lemma_udec_bytes(m);
        assert(t[0] == 45);
        assert(t.subrange(1, t.len() as int) =~= udec(m));
    } else {
        lemma_udec_reads_back(v as nat);
        lemma_udec_bytes(v as nat);
        assert(is_digit(t[0]));
    }
}

/// The value of a digit string, read left to right.
pub open spec fn digits_val(t: Seq<u8>) -> int
    decreases t.len(),
{
    if t.len() == 0 {
        0
    } else {
        digits_val(t.drop_last()) * 10 + (t.last() - 48)
    }
}

/// Every byte of `t` is a decimal digit.
pub open spec fn all_digits(t: Seq<u8>) -> bool {
    forall|i: int| 0 <= i < t.len() ==> is_digit(#[trigger] t[i])
}

/// `t` has the shape of an integer literal: an optional sign, then one or
/// more digits and nothing else.
pub open spec fn int_literal_shape(t: Seq<u8>) -> bool {
    &&& t.len() > 0
    &&& if t[0] == 43 || t[0] == 45 {
        t.len() > 1 && all_digits(t.subrange(1, t.len() as int))
    } else {
        all_digits(t)
    }
}

/// The signed value of a well-shaped integer literal.
pub open spec fn literal_value(t: Seq<u8>) -> int
    recommends
        int_literal_shape(t),
{
    if t.len() > 0 && t[0] == 45 {
        -digits_val(t.subrange(1, t.len() as int))
    } else if t.len() > 0 && t[0] == 43 {
        digits_val(t.subrange(1, t.len() as int))
    } else {
        digits_val(t)
    }
}

/// `t` reads as an `i64`, the way `str::parse` reads one: well shaped and
/// within range.
pub open spec fn is_i64_literal(t: Seq<u8>) -> bool {
    &&& int_literal_shape(t)
    &&& i64::MIN <= literal_value(t) <= i64::MAX
}

/// A digit string's value is non-negative, and reading more digits never
/// shrinks it.
proof fn lemma_digits_val_monotone(t: Seq<u8>, j: int)
    requires
        all_digits(t),
        0 <= j <= t.len(),
    ensures
        0 <= digits_val(t.take(j)) <= digits_val(t),
    decreases t.len() - j,
{
    if j == t.len() {
        assert(t.take(j) =~= t);
        lemma_digits_val_nonneg(t);
    } else {
        lemma_digits_val_monotone(t, j + 1);
        lemma_digits_val_nonneg(t.take(j));
        assert(t.take(j + 1).drop_last() =~= t.take(j));
        assert(digits_val(t.take(j + 1)) == digits_val(t.take(j)) * 10 + (t[j] - 48));
    }
}

/// A digit string's value is non-negative.
proof fn lemma_digits_val_nonneg(t: Seq<u8>)
    requires
        all_digits(t),
    ensures
        digits_val(t) >= 0,
    decreases t.len(),
{
    if t.len() > 0 {
        assert(all_digits(t.drop_last()));
        lemma_digits_val_nonneg(t.drop_last());
    }
}

/// Reads `t` as an `i64` with the semantics of `str::parse::<i64>`: `Some`
/// exactly when the token is an optional sign followed by digits whose value
/// fits, and then the value itself.
pub fn parse_i64(t: &Vec<u8>) -> (r: Option<i64>)
    ensures
        r is Some <==> is_i64_literal(t@),
        r matches Some(v) ==> v as int == literal_value(t@),
{
    if t.len() == 0 {
        return None;
    }
    let (neg, start): (bool, usize) = if t[0] == 45 {
        (true, 1)
    } else if t[0] == 43 {
        (false, 1)
    } else {
        (false, 0)
    };
    if t.len() == start {
        return None;
    }
    let ghost digits = t@.subrange(start as int, t@.len() as int);
    proof {
        if start == 0 {
            assert(t@.subrange(0, t@.len() as int) =~= t@);
        }
    }
    let mut mag: u64 = 0;
    let mut k: usize = start;
    while k < t.len()
        invariant
            start <= k <= t@.len(),
            start < t@.len(),
            start == 0 || start == 1,
            start == 1 <==> (t@[0] == 43 || t@[0] == 45),
            neg <==> t@[0] == 45,
            digits == t@.subrange(start as int, t@.len() as int),
            start == 0 ==> digits == t@,
            all_digits(t@.subrange(start as int, k as int)),
            mag as int == digits_val(t@.subrange(start as int, k as int)),
        decreases t@.len() - k,
    {
        let b = t[k];
        if !(48 <= b && b <= 57) {
            assert(!int_literal_shape(t@)) by {
                if int_literal_shape(t@) {
                    if start == 1 {
                        assert(is_digit(t@.subrange(1, t@.len() as int)[k - 1]));
                    } else {
                        assert(is_digit(t@[k as int]));
                    }
                }
            }
            return None;
        }
        let d: u64 = (b - 48) as u64;
        let ghost prefix = t@.subrange(start as int, k as int);
        let ghost prefix1 = t@.subrange(start as int, k + 1);
        assert(prefix1.drop_last() =~= prefix);
        assert(digits_val(prefix1) == digits_val(prefix) * 10 + d);
        if mag > (u64::MAX - d) / 10 {
            assert(digits_val(prefix1) > u64::MAX) by (nonlinear_arith)
                requires
                    digits_val(prefix1) == mag * 10 + d,
                    mag > (u64::MAX - d) / 10,
                    d <= 9,
            ;
            assert(!is_i64_literal(t@)) by {
                if is_i64_literal(t@) {
                    assert(all_digits(digits));
                    lemma_digits_val_monotone(digits, k + 1 - start);
                    assert(digits.take(k + 1 - start) =~= prefix1);
                    assert(digits_val(digits) > u64::MAX);
                    if t@[0] == 45 {
                        assert(literal_value(t@) == -digits_val(digits));
                        assert(literal_value(t@) < i64::MIN);
                    } else {
                        assert(literal_value(t@) == digits_val(digits));
                        assert(literal_value(t@) > i64::MAX);
                    }
                }
            }
            return None;
        }
        assert(mag * 10 + d <= u64::MAX) by (nonlinear_arith)
            requires
                mag <= (u64::MAX - d) / 10,
                d <= 9,
        ;
        mag = mag * 10 + d;
        k = k + 1;
    }
    assert(t@.subrange(start as int, k as int) =~= digits);
    assert(int_literal_shape(t@));
    if neg {
        if mag > 9223372036854775808u64 {
            assert(literal_value(t@) < i64::MIN);
            return None;
        }
        let wide: i128 = -(mag as i128);
        let v: i64 = wide as i64;
        assert(v as int == literal_value(t@));
        Some(v)
    } else {
        if mag > 9223372036854775807u64 {
            assert(literal_value(t@) > i64::MAX);
            return None;
        }
        let v: i64 = mag as i64;
        Some(v)
    }
}

} // verus!
